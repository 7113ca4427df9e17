//! The depth budget that bounds the recursion between shading a hit and
//! tracing its reflected and refracted rays.
use vstd::arithmetic::power2::{lemma_pow2_pos, lemma_pow2_unfold, pow2};
use vstd::prelude::*;

verus! {

/// The budget a render starts each camera ray with.
pub const MAX_DEPTH: usize = 5;

/// Whether a reflected or refracted ray is cast, and with what budget.
pub open spec fn next_budget(remaining: usize, contributes: bool) -> Option<usize> {
    if remaining == 0 || !contributes {
        None
    } else {
        Some((remaining - 1) as usize)
    }
}

/// The budget of the reflected (or refracted) ray cast from a hit that was
/// reached with `remaining` left. `contributes` tells whether the surface
/// reflects (or transmits) at all. `None` means no ray is cast and the
/// contribution is black: the budget is spent, or the surface has no such
/// part.
pub fn secondary_budget(remaining: usize, contributes: bool) -> (r: Option<usize>)
    ensures
        r == next_budget(remaining, contributes),
        r matches Some(n) ==> n < remaining,
{
    if remaining == 0 || !contributes {
        None
    } else {
        Some(remaining - 1)
    }
}

/// A ray traced with budget `parent` may cast a secondary ray traced with
/// budget `child`.
pub open spec fn casts(parent: usize, child: usize) -> bool {
    exists|c: bool| #[trigger] next_budget(parent, c) == Some(child)
}

/// `budgets` are the budgets of a chain of nested rays: each ray was cast as
/// a secondary ray of the one before it.
pub open spec fn is_nested_chain(budgets: Seq<usize>) -> bool {
    forall|k: int| 0 <= k < budgets.len() - 1 ==> #[trigger] casts(budgets[k], budgets[k + 1])
}

/// However the scene is built (two mirrors facing each other included), a
/// chain of nested secondary rays started with budget `d` holds at most
/// `d + 1` rays: each nesting spends one unit, and none is cast at zero. So
/// the recursion always ends.
pub proof fn lemma_nested_rays_bounded(budgets: Seq<usize>)
    requires
        budgets.len() >= 1,
        is_nested_chain(budgets),
    ensures
        budgets.len() <= budgets[0] + 1,
        forall|k: int| 0 <= k < budgets.len() ==> #[trigger] budgets[k] == budgets[0] - k,
    decreases budgets.len(),
{
    if budgets.len() > 1 {
        let rest = budgets.drop_first();
        assert forall|k: int| 0 <= k < rest.len() - 1 implies #[trigger] casts(rest[k], rest[k + 1]) by {
            assert(rest[k] == budgets[k + 1]);
            assert(rest[k + 1] == budgets[(k + 1) + 1]);
            assert(casts(budgets[k + 1], budgets[(k + 1) + 1]));
        }
        lemma_nested_rays_bounded(rest);
        assert(casts(budgets[0], budgets[0int + 1]));
        let c = choose|c: bool| #[trigger] next_budget(budgets[0], c) == Some(budgets[0int + 1]);
        assert(budgets[1] == budgets[0] - 1);
        assert forall|k: int| 0 <= k < budgets.len() implies #[trigger] budgets[k] == budgets[0] - k by {
            if k > 0 {
                assert(budgets[k] == rest[k - 1]);
            }
        }
    }
}

/// The rays traced for one camera ray: each ray, with the budget it was
/// traced with, and the reflected and refracted rays it cast, if any.
pub enum TraceTree {
    Ray {
        budget: usize,
        reflected: Option<Box<TraceTree>>,
        refracted: Option<Box<TraceTree>>,
    },
}

impl TraceTree {
    pub open spec fn budget(self) -> usize {
        match self {
            TraceTree::Ray { budget, .. } => budget,
        }
    }

    /// Every secondary ray in the tree was cast through the budget rule.
    pub open spec fn follows_budget(self) -> bool
        decreases self,
    {
        match self {
            TraceTree::Ray { budget, reflected, refracted } => {
                &&& (reflected matches Some(t) ==> casts(budget, t.budget()) && t.follows_budget())
                &&& (refracted matches Some(t) ==> casts(budget, t.budget()) && t.follows_budget())
            },
        }
    }

    /// How many rays the tree holds.
    pub open spec fn size(self) -> nat
        decreases self,
    {
        match self {
            TraceTree::Ray { reflected, refracted, .. } => {
                1 + match reflected {
                    Some(t) => t.size(),
                    None => 0,
                } + match refracted {
                    Some(t) => t.size(),
                    None => 0,
                }
            },
        }
    }
}

/// Shading a camera ray traced with budget `d` traces fewer than
/// `2^(d + 1)` rays in all, whatever the scene: each ray casts at most a
/// reflected and a refracted ray, each with one unit less.
pub proof fn lemma_trace_size_bounded(t: TraceTree)
    requires
        t.follows_budget(),
    ensures
        t.size() < pow2(t.budget() as nat + 1),
    decreases t,
{
    let d = t.budget() as nat;
    lemma_pow2_unfold(d + 1);
    match t {
        TraceTree::Ray { budget, reflected, refracted } => {
            if let Some(r) = reflected {
                lemma_trace_size_bounded(*r);
                let c = choose|c: bool| #[trigger] next_budget(budget, c) == Some(r.budget());
                assert(d > 0 && r.budget() as nat + 1 == d);
            }
            if let Some(r) = refracted {
                lemma_trace_size_bounded(*r);
                let c = choose|c: bool| #[trigger] next_budget(budget, c) == Some(r.budget());
                assert(d > 0 && r.budget() as nat + 1 == d);
            }
            let sa: nat = match reflected {
                Some(r) => r.size(),
                None => 0,
            };
            let sb: nat = match refracted {
                Some(r) => r.size(),
                None => 0,
            };
            assert(t.size() == 1 + sa + sb);
            assert(sa < pow2(d) || sa == 0);
            assert(sb < pow2(d) || sb == 0);
            assert(pow2(d + 1) == 2 * pow2(d));
            assert(pow2(d) >= 1) by {
                lemma_pow2_pos(d);
            }
        },
    }
}

} // verus!
