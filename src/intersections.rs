//! Choosing the visible hit among the intersections of a ray, and the
//! refractive-index containment stack.
//!
//! An intersection is kept here as the two things these decisions read: an
//! integer key that orders intersections as their distances `t` are ordered
//! (with key 0 for `t = 0`), and the identity of the object that was hit.
use vstd::prelude::*;

verus! {

#[derive(Clone, Copy, Debug, PartialEq, Eq, Structural)]
pub struct Intersection {
    /// Orders intersections by distance along the ray; positive exactly when
    /// the distance is.
    pub t_key: i64,
    /// Identifies the object that was hit: equal for the same object.
    pub object: usize,
}

/// The identities of the objects hit, in list order.
pub open spec fn objects_of(xs: Seq<Intersection>) -> Seq<usize> {
    xs.map_values(|x: Intersection| x.object)
}

/// The test that `retain` applies when an object is left.
pub open spec fn other_than(o: usize) -> spec_fn(usize) -> bool {
    |e: usize| e != o
}

/// One step of the containment stack: an object already inside is left
/// (removed), any other is entered (pushed on top).
pub open spec fn toggled(stack: Seq<usize>, o: usize) -> Seq<usize> {
    if stack.contains(o) {
        stack.filter(other_than(o))
    } else {
        stack.push(o)
    }
}

/// The objects that a ray is inside of after crossing the surfaces `objs`,
/// in the order they were entered.
pub open spec fn containers(objs: Seq<usize>) -> Seq<usize>
    decreases objs.len(),
{
    if objs.len() == 0 {
        Seq::empty()
    } else {
        toggled(containers(objs.drop_last()), objs.last())
    }
}

/// The object entered last, if any.
pub open spec fn top(stack: Seq<usize>) -> Option<usize> {
    if stack.len() == 0 {
        None
    } else {
        Some(stack.last())
    }
}

/// Enters or leaves `o`: the containment stack after crossing a surface of it.
fn toggle(stack: Vec<usize>, o: usize) -> (r: Vec<usize>)
    ensures
        r@ == toggled(stack@, o),
{
    let mut found = false;
    let mut j: usize = 0;
    while j < stack.len()
        invariant
            j <= stack@.len(),
            found <==> stack@.take(j as int).contains(o),
        decreases stack@.len() - j,
    {
        assert(stack@.take(j as int + 1) =~= stack@.take(j as int).push(stack@[j as int]));
        if stack[j] == o {
            found = true;
        }
        proof {
            let a = stack@.take(j as int);
            let b = stack@.take(j as int + 1);
            if a.contains(o) {
                let w = choose|w: int| 0 <= w < a.len() && a[w] == o;
                assert(b[w] == o);
            }
            if stack@[j as int] == o {
                assert(b[j as int] == o);
            }
            if b.contains(o) && stack@[j as int] != o {
                let w = choose|w: int| 0 <= w < b.len() && b[w] == o;
                assert(a[w] == o);
            }
        }
        j = j + 1;
    }
    assert(stack@.take(j as int) =~= stack@);
    if !found {
        let mut r = stack;
        r.push(o);
        return r;
    }
    let mut r: Vec<usize> = Vec::new();
    let mut k: usize = 0;
    while k < stack.len()
        invariant
            k <= stack@.len(),
            r@ == stack@.take(k as int).filter(other_than(o)),
        decreases stack@.len() - k,
    {
        proof {
            reveal(Seq::filter);
            assert(stack@.take(k as int + 1).drop_last() =~= stack@.take(k as int));
            assert(stack@.take(k as int + 1).last() == stack@[k as int]);
        }
        if stack[k] != o {
            r.push(stack[k]);
        }
        k = k + 1;
    }
    assert(stack@.take(k as int) =~= stack@);
    r
}

/// The sign bit of an IEEE 754 double.
pub const SIGN_BIT: u64 = 0x8000_0000_0000_0000;

/// The order key of a distance, from the bits of its IEEE 754 double
/// (`f64::to_bits`). Within each sign a double's magnitude grows with the
/// bits below the sign bit, so a distance with the sign bit clear keys as
/// those bits, and one with the sign bit set as their negation less one:
/// keys then order as the distances do, `+0.0` keys as 0, and only a
/// positive distance keys above 0.
pub open spec fn spec_t_key(t_bits: u64) -> int {
    if t_bits < SIGN_BIT {
        t_bits as int
    } else {
        -((t_bits - SIGN_BIT) as int) - 1
    }
}

pub fn t_key(t_bits: u64) -> (r: i64)
    ensures
        r == spec_t_key(t_bits),
{
    if t_bits < SIGN_BIT {
        t_bits as i64
    } else {
        -((t_bits - SIGN_BIT) as i64) - 1
    }
}

impl Intersection {
    pub fn new(t_key: i64, object: usize) -> (r: Intersection)
        ensures
            r.t_key == t_key,
            r.object == object,
    {
        Intersection { t_key, object }
    }

    pub fn get_t_key(&self) -> (r: i64)
        ensures
            r == self.t_key,
    {
        self.t_key
    }

    /// The index of the visible hit: the intersection with the smallest
    /// strictly positive distance, the first of them where several share it;
    /// `None` when no distance is positive. The list need not be sorted.
    pub fn hit(xs: &[Intersection]) -> (r: Option<usize>)
        ensures
            r is None <==> forall|k: int| 0 <= k < xs@.len() ==> (#[trigger] xs@[k]).t_key <= 0,
            r matches Some(i) ==> {
                &&& i < xs@.len()
                &&& xs@[i as int].t_key > 0
                &&& forall|k: int|
                    0 <= k < xs@.len() && (#[trigger] xs@[k]).t_key > 0 ==> xs@[i as int].t_key
                        <= xs@[k].t_key
                &&& forall|k: int|
                    0 <= k < i && (#[trigger] xs@[k]).t_key > 0 ==> xs@[i as int].t_key
                        < xs@[k].t_key
            },
    {
        let mut best: Option<usize> = None;
        let mut j: usize = 0;
        while j < xs.len()
            invariant
                j <= xs@.len(),
                best is None <==> forall|k: int| 0 <= k < j ==> (#[trigger] xs@[k]).t_key <= 0,
                best matches Some(i) ==> {
                    &&& i < j
                    &&& xs@[i as int].t_key > 0
                    &&& forall|k: int|
                        0 <= k < j && (#[trigger] xs@[k]).t_key > 0 ==> xs@[i as int].t_key
                            <= xs@[k].t_key
                    &&& forall|k: int|
                        0 <= k < i && (#[trigger] xs@[k]).t_key > 0 ==> xs@[i as int].t_key
                            < xs@[k].t_key
                },
            decreases xs@.len() - j,
        {
            let t = xs[j].t_key;
            if t > 0 {
                match best {
                    None => {
                        best = Some(j);
                    },
                    Some(i) => {
                        if xs[i].t_key > t {
                            best = Some(j);
                        }
                    },
                }
            }
            j = j + 1;
        }
        best
    }

    /// The objects on either side of the surface crossed at `xs[hit]`, for a
    /// list sorted by distance: the object the ray is inside of just before
    /// the crossing (whose refractive index is n1) and just after it (n2),
    /// `None` standing for empty space. The containment stack is replayed
    /// over the list up to and including the hit.
    pub fn refraction_boundary(xs: &[Intersection], hit: usize) -> (r: (Option<usize>, Option<usize>))
        requires
            hit < xs@.len(),
        ensures
            r.0 == top(containers(objects_of(xs@).take(hit as int))),
            r.1 == top(containers(objects_of(xs@).take(hit as int + 1))),
    {
        let ghost objs = objects_of(xs@);
        let mut stack: Vec<usize> = Vec::new();
        let mut j: usize = 0;
        assert(objs.take(0) =~= Seq::<usize>::empty());
        while j < hit
            invariant
                hit < xs@.len(),
                objs == objects_of(xs@),
                j <= hit,
                stack@ == containers(objs.take(j as int)),
            decreases hit - j,
        {
            stack = toggle(stack, xs[j].object);
            assert(objs.take(j as int + 1).drop_last() =~= objs.take(j as int));
            j = j + 1;
        }
        let before = if stack.len() == 0 {
            None
        } else {
            Some(stack[stack.len() - 1])
        };
        stack = toggle(stack, xs[hit].object);
        assert(objs.take(hit as int + 1).drop_last() =~= objs.take(hit as int));
        let after = if stack.len() == 0 {
            None
        } else {
            Some(stack[stack.len() - 1])
        };
        (before, after)
    }

    /// The order in which to list `xs` sorted by distance: a permutation of
    /// the indices of `xs` along which the keys never decrease, intersections
    /// at the same distance keeping their order in `xs`.
    pub fn order_by_t(xs: &[Intersection]) -> (r: Vec<usize>)
        ensures
            r@.len() == xs@.len(),
            forall|m: usize| (m as int) < xs@.len() ==> #[trigger] r@.contains(m),
            forall|i: int, j: int| 0 <= i < j < r@.len() ==> #[trigger] r@[i] != #[trigger] r@[j],
            forall|i: int| 0 <= i < r@.len() ==> (#[trigger] r@[i] as int) < xs@.len(),
            forall|i: int, j: int|
                0 <= i < j < r@.len() ==> xs@[#[trigger] r@[i] as int].t_key <= xs@[#[trigger] r@[j] as int].t_key,
            forall|i: int, j: int|
                0 <= i < j < r@.len() && xs@[#[trigger] r@[i] as int].t_key == xs@[#[trigger] r@[j] as int].t_key
                    ==> r@[i] < r@[j],
    {
        let mut r: Vec<usize> = Vec::new();
        let mut k: usize = 0;
        while k < xs.len()
            invariant
                k <= xs@.len(),
                r@.len() == k,
                forall|m: usize| m < k ==> #[trigger] r@.contains(m),
                forall|i: int, j: int| 0 <= i < j < r@.len() ==> #[trigger] r@[i] != #[trigger] r@[j],
                forall|i: int| 0 <= i < r@.len() ==> (#[trigger] r@[i] as int) < k,
                forall|i: int, j: int|
                    0 <= i < j < r@.len() ==> xs@[#[trigger] r@[i] as int].t_key <= xs@[#[trigger] r@[j] as int].t_key,
                forall|i: int, j: int|
                    0 <= i < j < r@.len() && xs@[#[trigger] r@[i] as int].t_key == xs@[#[trigger] r@[j] as int].t_key
                        ==> r@[i] < r@[j],
            decreases xs@.len() - k,
        {
            let key = xs[k].t_key;
            let mut p: usize = 0;
            while p < r.len() && xs[r[p]].t_key <= key
                invariant
                    k < xs@.len(),
                    key == xs@[k as int].t_key,
                    p <= r@.len(),
                    forall|i: int| 0 <= i < r@.len() ==> (#[trigger] r@[i] as int) < k,
                    forall|i: int| 0 <= i < p ==> xs@[#[trigger] r@[i] as int].t_key <= key,
                decreases r@.len() - p,
            {
                p = p + 1;
            }
            let ghost old_r = r@;
            proof {
                assert forall|i: int| p <= i < old_r.len() implies xs@[#[trigger] old_r[i] as int].t_key > key by {
                    assert(xs@[old_r[p as int] as int].t_key > key);
                    if i > p {
                        assert(xs@[old_r[p as int] as int].t_key <= xs@[old_r[i] as int].t_key);
                    }
                }
            }
            r.insert(p, k);
            proof {
                let n = r@;
                assert forall|i: int| 0 <= i < n.len() implies #[trigger] n[i] == if i < p { old_r[i] } else if i == p { k } else { old_r[i - 1] } by {}
                assert forall|m: usize| m < k + 1 implies #[trigger] n.contains(m) by {
                    if m == k {
                        assert(n[p as int] == k);
                    } else {
                        assert(old_r.contains(m));
                        let w = choose|w: int| 0 <= w < old_r.len() && old_r[w] == m;
                        if w < p {
                            assert(n[w] == m);
                        } else {
                            assert(n[w + 1] == m);
                        }
                    }
                }
                assert forall|i: int| 0 <= i < n.len() implies (#[trigger] n[i] as int) < k + 1 by {
                    if i < p {
                    } else if i > p {
                        assert(n[i] == old_r[i - 1]);
                    }
                }
                assert forall|i: int, j: int| 0 <= i < j < n.len() implies #[trigger] n[i] != #[trigger] n[j] by {
                    if i < p && j < p {
                    } else if i < p && j == p {
                        assert(n[j] == k);
                    } else if i < p {
                        assert(n[j] == old_r[j - 1]);
                        assert(old_r[i] != old_r[j - 1]);
                    } else if i == p {
                        assert(n[j] == old_r[j - 1]);
                    } else {
                        assert(n[i] == old_r[i - 1]);
                        assert(n[j] == old_r[j - 1]);
                        assert(old_r[i - 1] != old_r[j - 1]);
                    }
                }
                assert forall|i: int, j: int|
                    0 <= i < j < n.len() implies xs@[#[trigger] n[i] as int].t_key <= xs@[#[trigger] n[j] as int].t_key by {
                    if i < p && j < p {
                        assert(xs@[old_r[i] as int].t_key <= xs@[old_r[j] as int].t_key);
                    } else if i < p && j == p {
                    } else if i < p {
                        assert(n[j] == old_r[j - 1]);
                        assert(xs@[old_r[i] as int].t_key <= xs@[old_r[j - 1] as int].t_key);
                    } else if i == p {
                        assert(n[j] == old_r[j - 1]);
                        assert(xs@[old_r[j - 1] as int].t_key > key);
                    } else {
                        assert(n[i] == old_r[i - 1]);
                        assert(n[j] == old_r[j - 1]);
                        assert(xs@[old_r[i - 1] as int].t_key <= xs@[old_r[j - 1] as int].t_key);
                    }
                }
                assert forall|i: int, j: int|
                    0 <= i < j < n.len() && xs@[#[trigger] n[i] as int].t_key == xs@[#[trigger] n[j] as int].t_key
                        implies n[i] < n[j] by {
                    if i < p && j < p {
                        assert(xs@[old_r[i] as int].t_key == xs@[old_r[j] as int].t_key);
                    } else if i < p && j == p {
                    } else if i < p {
                        assert(n[j] == old_r[j - 1]);
                        assert(xs@[old_r[j - 1] as int].t_key > key);
                        assert(xs@[old_r[i] as int].t_key <= key);
                    } else if i == p {
                        assert(n[j] == old_r[j - 1]);
                        assert(xs@[old_r[j - 1] as int].t_key > key);
                    } else {
                        assert(n[i] == old_r[i - 1]);
                        assert(n[j] == old_r[j - 1]);
                        assert(xs@[old_r[i - 1] as int].t_key == xs@[old_r[j - 1] as int].t_key);
                    }
                }
            }
            k = k + 1;
        }
        r
    }

    /// Whether something lies between a point and a light `light_key` away
    /// (the order key of that distance), for the intersections `xs` of the
    /// ray from the point toward the light: the visible hit comes before the
    /// light, that is some intersection lies ahead of the point and short of
    /// the light.
    pub fn occluded(xs: &[Intersection], light_key: i64) -> (r: bool)
        ensures
            r <==> exists|k: int| 0 <= k < xs@.len() && 0 < (#[trigger] xs@[k]).t_key < light_key,
    {
        match Intersection::hit(xs) {
            Some(i) => {
                proof {
                    if !(xs@[i as int].t_key < light_key) {
                        assert forall|k: int| 0 <= k < xs@.len() implies !(0 < (#[trigger] xs@[k]).t_key < light_key) by {}
                    }
                }
                xs[i].t_key < light_key
            },
            None => false,
        }
    }
}

} // verus!
