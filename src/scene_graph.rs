//! An id-indexed scene graph. Nodes live in an arena of `r3bl_rs_utils`;
//! a node is either a transform or a shape, and refers to its parent by id.
//! The payloads themselves (matrices, shapes) are kept by the caller, keyed
//! by the node id that this graph hands out.
use vstd::prelude::*;

verus! {

/// What a node of the graph stands for.
#[derive(Clone, Copy, Debug, PartialEq, Eq, Structural)]
pub enum NodeTypes {
    Matrix,
    Shape,
}

/// The arena of `r3bl_rs_utils` (`tree_memory_arena::Arena`), opaque here:
/// what it holds is told by `arena_nodes` and `arena_counter`.
#[verifier::external_type_specification]
#[verifier::external_body]
#[verifier::reject_recursive_types(T)]
pub struct ExArena<T: std::fmt::Debug + Clone + Send + Sync>(r3bl_rs_utils::Arena<T>);

/// The nodes that an arena holds, by id: payload, parent id and child ids.
pub uninterp spec fn arena_nodes(a: r3bl_rs_utils::Arena<NodeTypes>) -> Map<usize, ArenaEntry>;

/// A node as the arena stores it: payload, parent id, child ids.
pub type ArenaEntry = (NodeTypes, Option<usize>, Seq<usize>);

/// The value of the arena's id counter: the id that the next node receives.
pub uninterp spec fn arena_counter(a: r3bl_rs_utils::Arena<NodeTypes>) -> nat;

/// Relies on `Arena::new`: an empty node map and a counter at zero.
#[verifier::external_body]
fn arena_new() -> (r: r3bl_rs_utils::Arena<NodeTypes>)
    ensures
        arena_nodes(r) =~= Map::empty(),
        arena_counter(r) == 0,
{
    r3bl_rs_utils::Arena::new()
}

/// Relies on `Arena::add_new_node`: the node takes the counter's value as id,
/// is stored with no children, and is appended to its parent's children.
/// The call panics when the parent does not exist, and the counter must not
/// wrap.
#[verifier::external_body]
fn arena_add(a: &mut r3bl_rs_utils::Arena<NodeTypes>, data: NodeTypes, parent: Option<usize>) -> (id: usize)
    requires
        arena_counter(*old(a)) < usize::MAX,
        parent matches Some(p) ==> arena_nodes(*old(a)).dom().contains(p),
    ensures
        id == arena_counter(*old(a)),
        arena_counter(*final(a)) == arena_counter(*old(a)) + 1,
        arena_nodes(*final(a)) == ({
            let m = arena_nodes(*old(a)).insert(id, (data, parent, Seq::<usize>::empty()));
            match parent {
                Some(p) => {
                    let n = m[p];
                    m.insert(p, (n.0, n.1, n.2.push(id)))
                },
                None => m,
            }
        }),
{
    a.add_new_node(data, parent)
}

/// Relies on `Arena::get_children_of`: the child ids of an existing node, in
/// the order they were added.
#[verifier::external_body]
fn arena_children(a: &r3bl_rs_utils::Arena<NodeTypes>, id: usize) -> (r: Option<Vec<usize>>)
    ensures
        match r {
            Some(v) => arena_nodes(*a).dom().contains(id) && v@ == arena_nodes(*a)[id].2,
            None => !arena_nodes(*a).dom().contains(id),
        },
{
    a.get_children_of(id)
}

/// Relies on `Arena::get_parent_of`: the parent id of a node, `None` for a
/// missing node or one without a parent.
#[verifier::external_body]
fn arena_parent(a: &r3bl_rs_utils::Arena<NodeTypes>, id: usize) -> (r: Option<usize>)
    ensures
        r == (if arena_nodes(*a).dom().contains(id) {
            arena_nodes(*a)[id].1
        } else {
            None
        }),
{
    a.get_parent_of(id)
}

/// Relies on `Arena::get_node_arc`: the payload of an existing node.
#[verifier::external_body]
fn arena_payload(a: &r3bl_rs_utils::Arena<NodeTypes>, id: usize) -> (r: Option<NodeTypes>)
    ensures
        match r {
            Some(k) => arena_nodes(*a).dom().contains(id) && k == arena_nodes(*a)[id].0,
            None => !arena_nodes(*a).dom().contains(id),
        },
{
    match a.get_node_arc(id) {
        Some(node) => Some(node.read().unwrap().payload),
        None => None,
    }
}


/// The scene graph: an arena of transform and shape nodes. Node 0 is the
/// root, a transform with no parent; every other node was added under an
/// existing parent, or under none.
pub struct Group {
    arena: r3bl_rs_utils::Arena<NodeTypes>,
}

impl Group {
    /// How many nodes the graph holds; ids run from 0 below this.
    pub closed spec fn len(&self) -> nat {
        arena_counter(self.arena)
    }

    pub closed spec fn kind(&self, id: usize) -> NodeTypes {
        arena_nodes(self.arena)[id].0
    }

    pub closed spec fn parent(&self, id: usize) -> Option<usize> {
        arena_nodes(self.arena)[id].1
    }

    pub closed spec fn children(&self, id: usize) -> Seq<usize> {
        arena_nodes(self.arena)[id].2
    }

    /// Ids are dense, a parent always precedes its children, and each node's
    /// child list holds, in increasing order, exactly the nodes that name it as
    /// parent.
    pub closed spec fn wf(&self) -> bool {
        &&& self.len() >= 1
        &&& forall|i: usize| #[trigger]
            arena_nodes(self.arena).dom().contains(i) <==> (i as nat) < self.len()
        &&& self.kind(0) == NodeTypes::Matrix
        &&& self.parent(0) is None
        &&& forall|i: usize|
            (i as nat) < self.len() && #[trigger] self.parent(i) is Some ==> self.parent(i).unwrap()
                < i
        &&& forall|i: usize, k: int|
            (i as nat) < self.len() && 0 <= k < self.children(i).len() ==> {
                let c = #[trigger] self.children(i)[k];
                &&& (c as nat) < self.len()
                &&& self.parent(c) == Some(i)
            }
        &&& forall|i: usize, k: int, l: int|
            (i as nat) < self.len() && 0 <= k < l < self.children(i).len() ==> #[trigger] self.children(
                i,
            )[k] < #[trigger] self.children(i)[l]
        &&& forall|j: usize|
            (j as nat) < self.len() && #[trigger] self.parent(j) is Some ==> self.children(
                self.parent(j).unwrap(),
            ).contains(j)
    }

    /// A graph that holds only the root.
    pub fn new() -> (r: Group)
        ensures
            r.wf(),
            r.len() == 1,
            r.kind(0) == NodeTypes::Matrix,
            r.parent(0) is None,
            r.children(0) == Seq::<usize>::empty(),
    {
        let mut arena = arena_new();
        let _root = arena_add(&mut arena, NodeTypes::Matrix, None);
        Group { arena }
    }

    fn add(&mut self, kind: NodeTypes, parent_id: Option<usize>) -> (id: usize)
        requires
            old(self).wf(),
            old(self).len() < usize::MAX,
            parent_id matches Some(p) ==> (p as nat) < old(self).len(),
        ensures
            final(self).wf(),
            id as nat == old(self).len(),
            final(self).len() == old(self).len() + 1,
            final(self).kind(id) == kind,
            final(self).parent(id) == parent_id,
            final(self).children(id) == Seq::<usize>::empty(),
            forall|i: usize|
                (i as nat) < old(self).len() ==> {
                    &&& #[trigger] final(self).kind(i) == old(self).kind(i)
                    &&& final(self).parent(i) == old(self).parent(i)
                    &&& final(self).children(i) == if parent_id == Some(i) {
                        old(self).children(i).push(id)
                    } else {
                        old(self).children(i)
                    }
                },
    {
        proof {
            if let Some(p) = parent_id {
                assert(arena_nodes(self.arena).dom().contains(p));
            }
        }
        let id = arena_add(&mut self.arena, kind, parent_id);
        proof {
            let g = *self;
            assert forall|i: usize| #[trigger]
                arena_nodes(g.arena).dom().contains(i) <==> (i as nat) < g.len() by {
                if (i as nat) < old(self).len() {
                    assert(arena_nodes(old(self).arena).dom().contains(i));
                }
            }
            assert forall|i: usize, k: int|
                (i as nat) < g.len() && 0 <= k < g.children(i).len() implies {
                    let c = #[trigger] g.children(i)[k];
                    &&& (c as nat) < g.len()
                    &&& g.parent(c) == Some(i)
                } by {
                if i != id && parent_id == Some(i) && k == old(self).children(i).len() {
                } else if i != id {
                    let c = old(self).children(i)[k];
                    assert(old(self).parent(c) == Some(i));
                }
            }
            assert forall|i: usize, k: int, l: int|
                (i as nat) < g.len() && 0 <= k < l < g.children(i).len() implies #[trigger] g.children(
                    i,
                )[k] < #[trigger] g.children(i)[l] by {
                if i != id && parent_id == Some(i) && l == old(self).children(i).len() {
                    let c = old(self).children(i)[k];
                    assert(old(self).parent(c) == Some(i));
                } else if i != id {
                    assert(old(self).children(i)[k] < old(self).children(i)[l]);
                }
            }
            assert forall|j: usize|
                (j as nat) < g.len() && #[trigger] g.parent(j) is Some implies g.children(
                    g.parent(j).unwrap(),
                ).contains(j) by {
                let p = g.parent(j).unwrap();
                if j == id {
                    assert(g.children(p).last() == id);
                } else {
                    assert(old(self).parent(j) is Some);
                    assert(old(self).children(p).contains(j));
                    let k = choose|k: int|
                        0 <= k < old(self).children(p).len() && old(self).children(p)[k] == j;
                    assert(g.children(p)[k] == j);
                }
            }
            assert(g.len() >= 1);
            assert(g.kind(0) == NodeTypes::Matrix);
            assert(g.parent(0) is None);
            assert forall|i: usize|
                (i as nat) < g.len() && #[trigger] g.parent(i) is Some implies g.parent(i).unwrap()
                    < i by {
                if i != id {
                    assert(old(self).parent(i) is Some);
                }
            }
        }
        id
    }

    /// Adds a transform node under `parent_id` and returns its id.
    pub fn add_matrix(&mut self, parent_id: Option<usize>) -> (id: usize)
        requires
            old(self).wf(),
            old(self).len() < usize::MAX,
            parent_id matches Some(p) ==> (p as nat) < old(self).len(),
        ensures
            final(self).wf(),
            id as nat == old(self).len(),
            final(self).len() == old(self).len() + 1,
            final(self).kind(id) == NodeTypes::Matrix,
            final(self).parent(id) == parent_id,
            final(self).children(id) == Seq::<usize>::empty(),
            forall|i: usize|
                (i as nat) < old(self).len() ==> {
                    &&& #[trigger] final(self).kind(i) == old(self).kind(i)
                    &&& final(self).parent(i) == old(self).parent(i)
                    &&& final(self).children(i) == if parent_id == Some(i) {
                        old(self).children(i).push(id)
                    } else {
                        old(self).children(i)
                    }
                },
    {
        self.add(NodeTypes::Matrix, parent_id)
    }

    /// Adds a shape node under `parent_id` and returns its id.
    pub fn add_node(&mut self, parent_id: Option<usize>) -> (id: usize)
        requires
            old(self).wf(),
            old(self).len() < usize::MAX,
            parent_id matches Some(p) ==> (p as nat) < old(self).len(),
        ensures
            final(self).wf(),
            id as nat == old(self).len(),
            final(self).len() == old(self).len() + 1,
            final(self).kind(id) == NodeTypes::Shape,
            final(self).parent(id) == parent_id,
            final(self).children(id) == Seq::<usize>::empty(),
            forall|i: usize|
                (i as nat) < old(self).len() ==> {
                    &&& #[trigger] final(self).kind(i) == old(self).kind(i)
                    &&& final(self).parent(i) == old(self).parent(i)
                    &&& final(self).children(i) == if parent_id == Some(i) {
                        old(self).children(i).push(id)
                    } else {
                        old(self).children(i)
                    }
                },
    {
        self.add(NodeTypes::Shape, parent_id)
    }

    /// The child ids of a node, in the order they were added.
    pub fn children_of(&self, id: usize) -> (r: Vec<usize>)
        requires
            self.wf(),
            (id as nat) < self.len(),
        ensures
            r@ == self.children(id),
    {
        match arena_children(&self.arena, id) {
            Some(v) => v,
            None => Vec::new(),
        }
    }

    /// The parent id of a node, if it has one.
    pub fn parent_of(&self, id: usize) -> (r: Option<usize>)
        requires
            self.wf(),
            (id as nat) < self.len(),
        ensures
            r == self.parent(id),
    {
        arena_parent(&self.arena, id)
    }

    /// Whether a node is a transform or a shape.
    pub fn kind_of(&self, id: usize) -> (r: NodeTypes)
        requires
            self.wf(),
            (id as nat) < self.len(),
        ensures
            r == self.kind(id),
    {
        match arena_payload(&self.arena, id) {
            Some(k) => k,
            None => NodeTypes::Matrix,
        }
    }

    /// `chain` starts at `start` and climbs one parent at a time until a node
    /// without parent.
    pub open spec fn is_parent_chain(&self, start: Option<usize>, chain: Seq<usize>) -> bool {
        match start {
            None => chain.len() == 0,
            Some(s) => {
                &&& chain.len() >= 1
                &&& chain[0] == s
                &&& forall|k: int|
                    0 <= k < chain.len() - 1 ==> self.parent(#[trigger] chain[k]) == Some(
                        chain[k + 1],
                    )
                &&& self.parent(chain.last()) is None
            }
        }
    }

    /// The ids met when walking from `start` up through the parents: `start`
    /// itself, its parent, and so on up to a node without parent. Converting a
    /// point or a normal between a nested shape and the world composes the
    /// transforms of exactly these nodes.
    pub fn parent_chain(&self, start: Option<usize>) -> (r: Vec<usize>)
        requires
            self.wf(),
            start matches Some(s) ==> (s as nat) < self.len(),
        ensures
            self.is_parent_chain(start, r@),
            forall|k: int| 0 <= k < r@.len() ==> (#[trigger] r@[k] as nat) < self.len(),
    {
        let mut chain: Vec<usize> = Vec::new();
        let mut cur = start;
        loop
            invariant
                self.wf(),
                cur matches Some(c) ==> (c as nat) < self.len(),
                forall|k: int| 0 <= k < chain@.len() ==> (#[trigger] chain@[k] as nat) < self.len(),
                chain@.len() == 0 ==> cur == start,
                chain@.len() >= 1 ==> start == Some(chain@[0]) && self.parent(chain@.last()) == cur,
                forall|k: int|
                    0 <= k < chain@.len() - 1 ==> self.parent(#[trigger] chain@[k]) == Some(
                        chain@[k + 1],
                    ),
            ensures
                self.is_parent_chain(start, chain@),
            decreases
                match cur {
                    Some(c) => c as int + 1,
                    None => 0,
                },
        {
            match cur {
                None => {
                    break ;
                },
                Some(c) => {
                    let next = self.parent_of(c);
                    proof {
                        if next is Some {
                            assert(self.parent(c) is Some);
                        }
                    }
                    chain.push(c);
                    cur = next;
                },
            }
        }
        chain
    }

    /// `path` leads down from `from` to `to`: each node of
    /// `from, path.., to` is the parent of the next.
    pub open spec fn links(&self, from: usize, path: Seq<usize>, to: usize) -> bool {
        let full = seq![from] + path + seq![to];
        &&& forall|k: int| 0 <= k < full.len() ==> (#[trigger] full[k] as nat) < self.len()
        &&& forall|k: int| 0 <= k < full.len() - 1 ==> self.parent(#[trigger] full[k + 1]) == Some(full[k])
    }

    /// `path` is a run of transform nodes that leads down from `from` to the
    /// shape `to`.
    pub open spec fn is_descent(&self, from: usize, path: Seq<usize>, to: usize) -> bool {
        &&& self.links(from, path, to)
        &&& forall|k: int| 0 <= k < path.len() ==> self.kind(#[trigger] path[k]) == NodeTypes::Matrix
        &&& self.kind(to) == NodeTypes::Shape
    }

    /// The first node below `from` on the way down `path` to `to`.
    pub open spec fn first_step(path: Seq<usize>, to: usize) -> usize {
        if path.len() > 0 {
            path[0]
        } else {
            to
        }
    }

    /// Going down only increases ids.
    proof fn lemma_links_increase(&self, from: usize, path: Seq<usize>, to: usize)
        requires
            self.wf(),
            self.links(from, path, to),
        ensures
            from < to,
        decreases path.len(),
    {
        let full = seq![from] + path + seq![to];
        let n = full.len() - 1;
        assert(self.parent(full[(n - 1) + 1]) == Some(full[n - 1]));
        assert(full[n] == to);
        assert((to as nat) < self.len());
        assert(self.parent(to) is Some);
        if path.len() > 0 {
            let x = path.last();
            let front = path.drop_last();
            let f2 = seq![from] + front + seq![x];
            assert forall|k: int| 0 <= k < f2.len() implies (#[trigger] f2[k] as nat) < self.len() by {
                assert(f2[k] == full[k]);
            }
            assert forall|k: int| 0 <= k < f2.len() - 1 implies self.parent(#[trigger] f2[k + 1]) == Some(f2[k]) by {
                assert(f2[k + 1] == full[k + 1]);
                assert(f2[k] == full[k]);
            }
            self.lemma_links_increase(from, front, x);
            assert(full[n - 1] == x);
        } else {
            assert(full[n - 1] == from);
        }
    }

    /// From a node down to another there is one way at most.
    proof fn lemma_links_unique(&self, from: usize, p1: Seq<usize>, p2: Seq<usize>, to: usize)
        requires
            self.wf(),
            self.links(from, p1, to),
            self.links(from, p2, to),
        ensures
            p1 == p2,
        decreases p1.len(),
    {
        let f1 = seq![from] + p1 + seq![to];
        let f2 = seq![from] + p2 + seq![to];
        let n1 = f1.len() - 1;
        let n2 = f2.len() - 1;
        assert(self.parent(f1[(n1 - 1) + 1]) == Some(f1[n1 - 1]));
        assert(self.parent(f2[(n2 - 1) + 1]) == Some(f2[n2 - 1]));
        assert(f1[n1] == to && f2[n2] == to);
        assert(f1[n1 - 1] == f2[n2 - 1]);
        if p1.len() > 0 && p2.len() > 0 {
            let x = p1.last();
            assert(f1[n1 - 1] == x);
            assert(f2[n2 - 1] == p2.last());
            let (a, b) = (p1.drop_last(), p2.drop_last());
            let g1 = seq![from] + a + seq![x];
            let g2 = seq![from] + b + seq![x];
            assert forall|k: int| 0 <= k < g1.len() implies (#[trigger] g1[k] as nat) < self.len() by {
                assert(g1[k] == f1[k]);
            }
            assert forall|k: int| 0 <= k < g1.len() - 1 implies self.parent(#[trigger] g1[k + 1]) == Some(g1[k]) by {
                assert(g1[k + 1] == f1[k + 1]);
                assert(g1[k] == f1[k]);
            }
            assert forall|k: int| 0 <= k < g2.len() implies (#[trigger] g2[k] as nat) < self.len() by {
                assert(g2[k] == f2[k]);
            }
            assert forall|k: int| 0 <= k < g2.len() - 1 implies self.parent(#[trigger] g2[k + 1]) == Some(g2[k]) by {
                assert(g2[k + 1] == f2[k + 1]);
                assert(g2[k] == f2[k]);
            }
            self.lemma_links_unique(from, a, b, x);
            assert(p1 =~= a.push(x));
            assert(p2 =~= b.push(x));
        } else if p1.len() > 0 || p2.len() > 0 {
            let (p, f) = if p1.len() > 0 { (p1, f1) } else { (p2, f2) };
            let n = f.len() - 1;
            let x = p.last();
            assert(f[n - 1] == x);
            assert(x == from);
            let a = p.drop_last();
            let g = seq![from] + a + seq![x];
            assert forall|k: int| 0 <= k < g.len() implies (#[trigger] g[k] as nat) < self.len() by {
                assert(g[k] == f[k]);
            }
            assert forall|k: int| 0 <= k < g.len() - 1 implies self.parent(#[trigger] g[k + 1]) == Some(g[k]) by {
                assert(g[k + 1] == f[k + 1]);
                assert(g[k] == f[k]);
            }
            self.lemma_links_increase(from, a, x);
        } else {
            assert(p1 =~= p2);
        }
    }

    /// Child lists are strictly increasing, so a child does not occur before
    /// its own place.
    proof fn lemma_new_first_step(&self, node: usize, children: Seq<usize>, i: int)
        requires
            self.wf(),
            (node as nat) < self.len(),
            children == self.children(node),
            0 <= i < children.len(),
        ensures
            !children.take(i).contains(children[i]),
    {
        if children.take(i).contains(children[i]) {
            let w = choose|w: int| 0 <= w < i && children.take(i)[w] == children[i];
            assert(children[w] < children[i]);
        }
    }

    proof fn lemma_take_grows(s: Seq<usize>, i: int, x: usize)
        requires
            0 <= i < s.len(),
            s.take(i).contains(x),
        ensures
            s.take(i + 1).contains(x),
    {
        let w = choose|w: int| 0 <= w < i && s.take(i)[w] == x;
        assert(s.take(i + 1)[w] == x);
    }

    /// Every shape reached from `node_id` by descending through transform
    /// nodes only, each with the transforms passed on the way, outermost
    /// first. Intersecting a ray with the graph transforms the ray by the
    /// inverse of each of these transforms in turn before the shape sees it.
    pub fn shape_paths(&self, node_id: usize) -> (r: Vec<(usize, Vec<usize>)>)
        requires
            self.wf(),
            (node_id as nat) < self.len(),
        ensures
            forall|k: int| 0 <= k < r@.len() ==> self.is_descent(node_id, (#[trigger] r@[k]).1@, r@[k].0),
            forall|path: Seq<usize>, to: usize|
                self.is_descent(node_id, path, to) ==> exists|k: int|
                    0 <= k < r@.len() && (#[trigger] r@[k]).0 == to && r@[k].1@ == path,
            forall|a: int, b: int| 0 <= a < b < r@.len() ==> (#[trigger] r@[a]).0 != (#[trigger] r@[b]).0,
        decreases self.len() - node_id,
    {
        let children = self.children_of(node_id);
        let mut out: Vec<(usize, Vec<usize>)> = Vec::new();
        let mut i: usize = 0;
        while i < children.len()
            invariant
                self.wf(),
                (node_id as nat) < self.len(),
                children@ == self.children(node_id),
                i <= children@.len(),
                forall|k: int| 0 <= k < out@.len() ==> self.is_descent(node_id, (#[trigger] out@[k]).1@, out@[k].0),
                forall|path: Seq<usize>, to: usize|
                    self.is_descent(node_id, path, to) && (exists|j: int| 0 <= j < i && children@[j] == Self::first_step(path, to))
                    ==> exists|k: int| 0 <= k < out@.len() && (#[trigger] out@[k]).0 == to && out@[k].1@ == path,
                forall|a: int, b: int| 0 <= a < b < out@.len() ==> (#[trigger] out@[a]).0 != (#[trigger] out@[b]).0,
                forall|k: int| 0 <= k < out@.len() ==> children@.take(i as int).contains(Self::first_step((#[trigger] out@[k]).1@, out@[k].0)),
            decreases children@.len() - i,
        {
            let c = children[i];
            assert(self.children(node_id)[i as int] == c);
            match self.kind_of(c) {
                NodeTypes::Shape => {
                    let ghost old_out = out@;
                    out.push((c, Vec::new()));
                    assert forall|path: Seq<usize>, to: usize|
                        self.is_descent(node_id, path, to) && (exists|j: int| 0 <= j < i + 1 && children@[j] == Self::first_step(path, to))
                        implies exists|k: int| 0 <= k < out@.len() && (#[trigger] out@[k]).0 == to && out@[k].1@ == path by {
                        let j = choose|j: int| 0 <= j < i + 1 && children@[j] == Self::first_step(path, to);
                        if j < i {
                            let k = choose|k: int| 0 <= k < old_out.len() && (#[trigger] old_out[k]).0 == to && old_out[k].1@ == path;
                            assert(out@[k] == old_out[k]);
                        } else {
                            if path.len() > 0 {
                                assert(self.kind(path[0]) == NodeTypes::Matrix);
                            } else {
                                assert(out@[old_out.len() as int].1@ =~= path);
                            }
                        }
                    }
                    assert(self.is_descent(node_id, out@[out@.len() - 1].1@, c)) by {
                        let full = seq![node_id] + Seq::<usize>::empty() + seq![c];
                        assert(full[1] == c);
                        assert(full[0] == node_id);
                        assert(self.parent(c) == Some(node_id));
                    }
                    proof {
                        self.lemma_new_first_step(node_id, children@, i as int);
                        let last = out@.len() - 1;
                        assert(out@[last].1@ =~= Seq::<usize>::empty());
                        assert forall|a: int, b: int| 0 <= a < b < out@.len() implies (#[trigger] out@[a]).0 != (#[trigger] out@[b]).0 by {
                            if b == last && out@[a].0 == c {
                                assert(out@[a] == old_out[a]);
                                self.lemma_links_unique(node_id, out@[a].1@, out@[last].1@, c);
                                assert(children@.take(i as int).contains(Self::first_step(out@[a].1@, out@[a].0)));
                            }
                        }
                        assert forall|k: int| 0 <= k < out@.len() implies children@.take(i + 1).contains(Self::first_step((#[trigger] out@[k]).1@, out@[k].0)) by {
                            if k == last {
                                assert(children@.take(i + 1)[i as int] == c);
                            } else {
                                assert(out@[k] == old_out[k]);
                                Self::lemma_take_grows(children@, i as int, Self::first_step(out@[k].1@, out@[k].0));
                            }
                        }
                    }
                },
                NodeTypes::Matrix => {
                    assert(self.parent(c) == Some(node_id));
                    let sub = self.shape_paths(c);
                    let mut j: usize = 0;
                    let ghost before = out@;
                    proof {
                        self.lemma_new_first_step(node_id, children@, i as int);
                    }
                    while j < sub.len()
                        invariant
                            self.wf(),
                            (node_id as nat) < self.len(),
                            children@ == self.children(node_id),
                            i < children@.len(),
                            c == children@[i as int],
                            self.parent(c) == Some(node_id),
                            self.kind(c) == NodeTypes::Matrix,
                            j <= sub@.len(),
                            forall|k: int| 0 <= k < sub@.len() ==> self.is_descent(c, (#[trigger] sub@[k]).1@, sub@[k].0),
                            out@.len() == before.len() + j,
                            forall|k: int| 0 <= k < before.len() ==> #[trigger] out@[k] == before[k],
                            forall|k: int| 0 <= k < j ==> (#[trigger] out@[before.len() + k]).0 == sub@[k].0 && out@[before.len() + k].1@ == seq![c] + sub@[k].1@,
                            forall|k: int| 0 <= k < out@.len() ==> self.is_descent(node_id, (#[trigger] out@[k]).1@, out@[k].0),
                            forall|a: int, b: int| 0 <= a < b < sub@.len() ==> (#[trigger] sub@[a]).0 != (#[trigger] sub@[b]).0,
                            forall|a: int, b: int| 0 <= a < b < out@.len() ==> (#[trigger] out@[a]).0 != (#[trigger] out@[b]).0,
                            forall|k: int| 0 <= k < before.len() ==> children@.take(i as int).contains(Self::first_step((#[trigger] before[k]).1@, before[k].0)),
                            !children@.take(i as int).contains(c),
                        decreases sub@.len() - j,
                    {
                        let s = sub[j].0;
                        let mut p: Vec<usize> = Vec::new();
                        p.push(c);
                        let mut m: usize = 0;
                        while m < sub[j].1.len()
                            invariant
                                j < sub@.len(),
                                m <= sub@[j as int].1@.len(),
                                p@ == seq![c] + sub@[j as int].1@.take(m as int),
                            decreases sub@[j as int].1@.len() - m,
                        {
                            p.push(sub[j].1[m]);
                            assert(sub@[j as int].1@.take(m as int + 1) == sub@[j as int].1@.take(m as int).push(sub@[j as int].1@[m as int]));
                            m = m + 1;
                        }
                        assert(sub@[j as int].1@.take(m as int) == sub@[j as int].1@);
                        proof {
                            let sp = sub@[j as int].1@;
                            assert(self.is_descent(c, sp, s));
                            let full_c = seq![c] + sp + seq![s];
                            let full = seq![node_id] + p@ + seq![s];
                            assert(full == seq![node_id] + full_c);
                            assert forall|k: int| 0 <= k < full.len() - 1 implies self.parent(#[trigger] full[k + 1]) == Some(full[k]) by {
                                if k > 0 {
                                    assert(full[k + 1] == full_c[k]);
                                    assert(full[k] == full_c[k - 1]);
                                    assert(self.parent(full_c[(k - 1) + 1]) == Some(full_c[k - 1]));
                                }
                            }
                            assert forall|k: int| 0 <= k < full.len() implies (#[trigger] full[k] as nat) < self.len() by {
                                if k > 0 {
                                    assert(full[k] == full_c[k - 1]);
                                }
                            }
                            assert forall|k: int| 0 <= k < p@.len() implies self.kind(#[trigger] p@[k]) == NodeTypes::Matrix by {
                                if k > 0 {
                                    assert(p@[k] == sp[k - 1]);
                                }
                            }
                        }
                        let ghost prev = out@;
                        let ghost new_path = p@;
                        out.push((s, p));
                        proof {
                            let last = out@.len() - 1;
                            assert(out@[last].1@ == new_path);
                            assert forall|a: int, b: int| 0 <= a < b < out@.len() implies (#[trigger] out@[a]).0 != (#[trigger] out@[b]).0 by {
                                if b == last && out@[a].0 == s {
                                    assert(out@[a] == prev[a]);
                                    if a < before.len() {
                                        assert(out@[a] == before[a]);
                                        self.lemma_links_unique(node_id, out@[a].1@, new_path, s);
                                        assert(new_path[0] == c);
                                        assert(children@.take(i as int).contains(Self::first_step(before[a].1@, before[a].0)));
                                    } else {
                                        let ka = a - before.len();
                                        assert(out@[before.len() + ka].0 == sub@[ka].0);
                                        assert(sub@[ka].0 != sub@[j as int].0);
                                    }
                                }
                            }
                        }
                        j = j + 1;
                    }
                    proof {
                        assert forall|k: int| 0 <= k < out@.len() implies children@.take(i + 1).contains(Self::first_step((#[trigger] out@[k]).1@, out@[k].0)) by {
                            if k < before.len() {
                                assert(out@[k] == before[k]);
                                Self::lemma_take_grows(children@, i as int, Self::first_step(out@[k].1@, out@[k].0));
                            } else {
                                let kk = k - before.len();
                                assert(out@[before.len() + kk].1@ == seq![c] + sub@[kk].1@);
                                assert(out@[k].1@[0] == c);
                                assert(children@.take(i + 1)[i as int] == c);
                            }
                        }
                    }
                    assert forall|path: Seq<usize>, to: usize|
                        self.is_descent(node_id, path, to) && (exists|jj: int| 0 <= jj < i + 1 && children@[jj] == Self::first_step(path, to))
                        implies exists|k: int| 0 <= k < out@.len() && (#[trigger] out@[k]).0 == to && out@[k].1@ == path by {
                        let jj = choose|jj: int| 0 <= jj < i + 1 && children@[jj] == Self::first_step(path, to);
                        if jj < i {
                            let k = choose|k: int| 0 <= k < before.len() && (#[trigger] before[k]).0 == to && before[k].1@ == path;
                            assert(out@[k] == before[k]);
                        } else {
                            if path.len() == 0 {
                                assert(self.kind(to) == NodeTypes::Shape);
                            } else {
                                let rest = path.drop_first();
                                let full = seq![node_id] + path + seq![to];
                                let full_c = seq![c] + rest + seq![to];
                                assert(path[0] == c);
                                assert forall|k: int| 0 <= k < full_c.len() - 1 implies self.parent(#[trigger] full_c[k + 1]) == Some(full_c[k]) by {
                                    assert(full_c[k + 1] == full[k + 2]);
                                    assert(full_c[k] == full[k + 1]);
                                    assert(self.parent(full[(k + 1) + 1]) == Some(full[k + 1]));
                                }
                                assert forall|k: int| 0 <= k < full_c.len() implies (#[trigger] full_c[k] as nat) < self.len() by {
                                    assert(full_c[k] == full[k + 1]);
                                }
                                assert forall|k: int| 0 <= k < rest.len() implies self.kind(#[trigger] rest[k]) == NodeTypes::Matrix by {
                                    assert(rest[k] == path[k + 1]);
                                }
                                assert(self.is_descent(c, rest, to));
                                let k = choose|k: int| 0 <= k < sub@.len() && (#[trigger] sub@[k]).0 == to && sub@[k].1@ == rest;
                                assert(out@[before.len() + k].1@ == seq![c] + rest);
                                assert(seq![c] + rest =~= path);
                            }
                        }
                    }
                },
            }
            i = i + 1;
        }
        assert forall|path: Seq<usize>, to: usize|
            self.is_descent(node_id, path, to) implies exists|k: int|
                0 <= k < out@.len() && (#[trigger] out@[k]).0 == to && out@[k].1@ == path by {
            let first = if path.len() > 0 { path[0] } else { to };
            let full = seq![node_id] + path + seq![to];
            assert(full[1] == first);
            assert((full[1] as nat) < self.len());
            assert(self.parent(full[0int + 1]) == Some(full[0int]));
            assert(self.parent(first) is Some);
            assert(self.children(node_id).contains(first));
            let j = choose|j: int| 0 <= j < children@.len() && children@[j] == first;
        }
        out
    }
}

} // verus!
