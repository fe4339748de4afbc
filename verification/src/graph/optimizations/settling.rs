use crate::graph::edges::set_insert;
use crate::graph::graph_builder::GateGraphBuilder;
use vstd::prelude::*;

verus! {

/// True if `rank` orders the gates of `g` by depth: every dependency of a gate ranks below
/// that gate, so that `g` has no cycle.
pub open spec fn ranked(g: &GateGraphBuilder, rank: spec_fn(usize) -> nat) -> bool {
    forall|i: usize, k: int| g.has(i as int) && 0 <= k < g.deps(i as int).len() ==> #[trigger] rank(g.deps(i as int)[k])
        < rank(i)
}

/// True if every gate of `g` is listed among the dependents of each gate of `g` that it
/// reads, so that a change of a gate reaches every gate that reads it.
pub open spec fn readers_listed(g: &GateGraphBuilder) -> bool {
    forall|i: usize, x: usize| g.has(i as int) && g.has(x as int) && #[trigger] g.deps(i as int).contains(x)
        ==> g.dependents(x as int).contains(i)
}

/// Adding `x` to a list keeps every item of it and holds `x`.
pub proof fn lemma_set_insert_keeps(s: Seq<usize>, x: usize, y: usize)
    requires
        s.contains(y) || y == x,
    ensures
        set_insert(s, x).contains(y),
{
    if !s.contains(x) {
        if y == x {
            assert(s.push(x)[s.len() as int] == x);
        } else {
            let j = choose|j: int| 0 <= j < s.len() && s[j] == y;
            assert(s.push(x)[j] == y);
        }
    }
}

/// The states of the gates `ds`, as [GateGraphBuilder::eval_all] gives them, one for each.
pub proof fn lemma_eval_all_index(g: &GateGraphBuilder, levers: spec_fn(int) -> bool, ds: Seq<usize>, fuel: nat)
    ensures
        g.eval_all(levers, ds, fuel).len() == ds.len(),
        forall|k: int| 0 <= k < ds.len() ==> #[trigger] g.eval_all(levers, ds, fuel)[k] == g.eval(levers, ds[k] as int, fuel),
    decreases ds.len(),
{
    if ds.len() > 0 {
        lemma_eval_all_index(g, levers, ds.drop_last(), fuel);
        let s = g.eval_all(levers, ds, fuel);
        assert forall|k: int| 0 <= k < ds.len() implies #[trigger] s[k] == g.eval(levers, ds[k] as int, fuel) by {
            if k < ds.len() - 1 {
                assert(ds.drop_last()[k] == ds[k]);
            }
        }
    }
}

/// On a graph ordered by `rank`, every gate settles: computed with more fuel than its rank,
/// its state no longer depends on the fuel.
pub proof fn law_eval_settles(g: &GateGraphBuilder, rank: spec_fn(usize) -> nat, levers: spec_fn(int) -> bool, i: usize,
    f1: nat, f2: nat)
    requires
        ranked(g, rank),
        f1 > rank(i),
        f2 > rank(i),
    ensures
        g.eval(levers, i as int, f1) == g.eval(levers, i as int, f2),
    decreases rank(i),
{
    if g.has(i as int) {
        let ds = g.deps(i as int);
        let a = (f1 - 1) as nat;
        let b = (f2 - 1) as nat;
        lemma_eval_all_index(g, levers, ds, a);
        lemma_eval_all_index(g, levers, ds, b);
        assert forall|k: int| 0 <= k < ds.len() implies #[trigger] g.eval_all(levers, ds, a)[k] == g.eval_all(levers, ds,
            b)[k] by {
            assert(rank(ds[k]) < rank(i));
            law_eval_settles(g, rank, levers, ds[k], a, b);
        }
        assert(g.eval_all(levers, ds, a) =~= g.eval_all(levers, ds, b));
    }
}

} // verus!
