//! Reachability along parent edges, used to state what dirty marking
//! touches.

use vstd::prelude::*;

verus! {

/// One upward step in a parent map `pm`: node `p` is recorded as a
/// parent of node `a`.
pub open spec fn step_up(pm: Seq<Seq<usize>>, a: int, p: int) -> bool {
    &&& 0 <= a < pm.len()
    &&& 0 <= p <= usize::MAX
    &&& pm[a].contains(p as usize)
}

/// Node `b` can be reached from node `a` by at most `fuel` upward
/// steps.
pub open spec fn reaches_up(pm: Seq<Seq<usize>>, a: int, b: int, fuel: nat) -> bool
    decreases fuel,
{
    if a == b {
        true
    } else if fuel == 0 {
        false
    } else {
        exists|p: int| #[trigger] step_up(pm, a, p) && reaches_up(pm, p, b, (fuel - 1) as nat)
    }
}

/// Node `b` is node `a` itself or one of its transitive parents.
pub open spec fn is_ancestor(pm: Seq<Seq<usize>>, a: int, b: int) -> bool {
    exists|fuel: nat| reaches_up(pm, a, b, fuel)
}

/// Every node is an ancestor of itself.
pub proof fn lemma_ancestor_refl(pm: Seq<Seq<usize>>, a: int)
    ensures
        is_ancestor(pm, a, a),
{
    assert(reaches_up(pm, a, a, 0));
}

/// A reachable node's recorded parent is reachable with one more step.
pub proof fn lemma_reaches_extend(pm: Seq<Seq<usize>>, a: int, b: int, p: int, fuel: nat)
    requires
        reaches_up(pm, a, b, fuel),
        step_up(pm, b, p),
    ensures
        reaches_up(pm, a, p, (fuel + 1) as nat),
    decreases fuel,
{
    if a == b {
        assert(reaches_up(pm, p, p, fuel));
        assert(step_up(pm, a, p) && reaches_up(pm, p, p, fuel));
    } else {
        let q = choose|q: int| #[trigger] step_up(pm, a, q) && reaches_up(pm, q, b, (fuel - 1) as nat);
        lemma_reaches_extend(pm, q, b, p, (fuel - 1) as nat);
        assert(step_up(pm, a, q) && reaches_up(pm, q, p, fuel));
    }
}

/// A parent of an ancestor is itself an ancestor.
pub proof fn lemma_ancestor_extend(pm: Seq<Seq<usize>>, a: int, b: int, p: int)
    requires
        is_ancestor(pm, a, b),
        step_up(pm, b, p),
    ensures
        is_ancestor(pm, a, p),
{
    let fuel = choose|fuel: nat| reaches_up(pm, a, b, fuel);
    lemma_reaches_extend(pm, a, b, p, fuel);
}

/// A marking that covers `a` and is closed under upward steps covers
/// everything reachable upward from `a`.
pub proof fn lemma_reaches_closed(
    pm: Seq<Seq<usize>>,
    marked: Seq<bool>,
    a: int,
    b: int,
    fuel: nat,
)
    requires
        marked.len() == pm.len(),
        0 <= a < pm.len(),
        marked[a],
        forall|j: int, p: int|
            0 <= j < pm.len() && marked[j] && #[trigger] step_up(pm, j, p) && p < pm.len()
                ==> marked[p],
        forall|j: int, q: int|
            0 <= j < pm.len() && 0 <= q < pm[j].len() ==> (#[trigger] pm[j][q] as int) < pm.len(),
        reaches_up(pm, a, b, fuel),
    ensures
        0 <= b < pm.len() && marked[b],
    decreases fuel,
{
    if a != b {
        let p = choose|p: int| #[trigger] step_up(pm, a, p) && reaches_up(pm, p, b, (fuel - 1) as nat);
        assert(pm[a].contains(p as usize));
        let q = choose|q: int| 0 <= q < pm[a].len() && #[trigger] pm[a][q] == p as usize;
        assert(0 <= q < pm[a].len() && pm[a][q] == p as usize);
        assert(p < pm.len());
        lemma_reaches_closed(pm, marked, p, b, (fuel - 1) as nat);
    }
}

} // verus!
