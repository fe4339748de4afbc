use crate::graph::edges::set_swap_remove;
use crate::graph::gate::gate_output;
use crate::graph::graph_builder::GateGraphBuilder;
use vstd::prelude::*;

verus! {

/// True if gate `i` of `g` is dead: it is there, it is no constant, it cannot be observed
/// and nothing reads it.
pub open spec fn is_dead(g: &GateGraphBuilder, i: usize) -> bool {
    &&& g.has(i as int)
    &&& i >= 2
    &&& !g.observable(i as int)
    &&& g.dependents(i as int).len() == 0
}

/// Returns the non constant gates that have no dependents, in increasing order.
pub(crate) fn dead_gates(g: &GateGraphBuilder) -> (r: Vec<usize>)
    requires
        g.base_wf(),
    ensures
        forall|k: int| 0 <= k < r@.len() ==> #[trigger] r@[k] < g.num_slots() && r@[k] >= 2,
        forall|i: usize| #[trigger] is_dead(g, i) ==> r@.contains(i),
        forall|k: int| 0 <= k < r@.len() ==> g.dependents(#[trigger] r@[k] as int).len() == 0,
{
    let mut r: Vec<usize> = Vec::new();
    let n = g.total_len();
    let mut i: usize = 2;
    while i < n
        invariant
            g.base_wf(),
            n == g.num_slots(),
            2 <= i,
            forall|k: int| 0 <= k < r@.len() ==> #[trigger] r@[k] < g.num_slots() && r@[k] >= 2,
            forall|j: usize| #[trigger] is_dead(g, j) && j < i ==> r@.contains(j),
            forall|k: int| 0 <= k < r@.len() ==> g.dependents(#[trigger] r@[k] as int).len() == 0,
        decreases n - i,
    {
        let ghost prev = r@;
        if let Some(_) = g.gate_type(i) {
            if g.dependents_len(i) == 0 {
                r.push(i);
                proof {
                    assert(r@[r@.len() - 1] == i);
                    assert forall|k: int| 0 <= k < r@.len() implies g.dependents(#[trigger] r@[k] as int).len() == 0 by {
                        if k < prev.len() { assert(r@[k] == prev[k]); }
                    }
                }
            }
        }
        proof {
            assert forall|j: usize| #[trigger] is_dead(g, j) && j < i + 1 implies r@.contains(j) by {
                if j < i {
                    let k = choose|k: int| 0 <= k < prev.len() && prev[k] == j;
                    assert(r@[k] == prev[k]);
                }
            }
        }
        i = i + 1;
    }
    proof {
        assert forall|j: usize| #[trigger] is_dead(g, j) implies r@.contains(j) by {
            assert(j < n);
        }
    }
    r
}

/// Taking `x` out of a list keeps every other item of it.
pub proof fn lemma_swap_remove_keeps(s: Seq<usize>, x: usize, y: usize)
    requires
        s.contains(y),
        y != x,
    ensures
        set_swap_remove(s, x).contains(y),
{
    if s.contains(x) {
        let i = s.index_of(x);
        let r = s.update(i, s.last()).drop_last();
        let j = choose|j: int| 0 <= j < s.len() && s[j] == y;
        if j == s.len() - 1 {
            assert(r[i] == y);
        } else {
            assert(j != i);
            assert(r[j] == y);
        }
    }
}

/// Taking an item out of a list adds none.
pub proof fn lemma_swap_remove_within(s: Seq<usize>, x: usize, y: usize)
    requires
        set_swap_remove(s, x).contains(y),
    ensures
        s.contains(y),
{
    if s.contains(x) {
        let i = s.index_of(x);
        let r = s.update(i, s.last()).drop_last();
        let j = choose|j: int| 0 <= j < r.len() && r[j] == y;
        if j == i {
            assert(s[s.len() - 1] == y);
        } else {
            assert(s[j] == y);
        }
    }
}

/// A gate kept with its type and dependencies computes what it did, as long as every gate
/// that it reads and that was there is kept too (which holds where each gate is listed by its
/// dependencies and every gate that lists a kept gate is kept).
proof fn lemma_kept_eval(old: &GateGraphBuilder, new: &GateGraphBuilder, levers: spec_fn(int) -> bool, i: usize, fuel: nat)
    requires
        old.dependents_mirrored(),
        new.has(i as int),
        forall|j: int| #[trigger] new.has(j) ==> old.has(j) && new.ty(j) == old.ty(j) && new.deps(j) == old.deps(j),
        forall|x: int, y: usize| old.has(x) && #[trigger] old.dependents(x).contains(y) && new.has(y as int)
            ==> new.has(x),
    ensures
        new.eval(levers, i as int, fuel) == old.eval(levers, i as int, fuel),
    decreases fuel, 0nat,
{
    if fuel > 0 {
        let ds = old.deps(i as int);
        assert forall|k: int| 0 <= k < ds.len() implies old.dependents(ds[k] as int).contains(i) by {
            assert(old.dependents(old.deps(i as int)[k] as int).contains((i as int) as usize));
        }
        lemma_kept_eval_all(old, new, levers, i, ds, (fuel - 1) as nat);
    }
}

/// The gates `ds`, each read by kept gate `i`, compute what they did.
proof fn lemma_kept_eval_all(old: &GateGraphBuilder, new: &GateGraphBuilder, levers: spec_fn(int) -> bool, i: usize,
    ds: Seq<usize>, fuel: nat)
    requires
        old.dependents_mirrored(),
        new.has(i as int),
        forall|k: int| 0 <= k < ds.len() ==> old.dependents(ds[k] as int).contains(i),
        forall|j: int| #[trigger] new.has(j) ==> old.has(j) && new.ty(j) == old.ty(j) && new.deps(j) == old.deps(j),
        forall|x: int, y: usize| old.has(x) && #[trigger] old.dependents(x).contains(y) && new.has(y as int)
            ==> new.has(x),
    ensures
        new.eval_all(levers, ds, fuel) == old.eval_all(levers, ds, fuel),
    decreases fuel, ds.len() + 1,
{
    if ds.len() > 0 {
        let t = ds.drop_last();
        assert forall|k: int| 0 <= k < t.len() implies old.dependents(t[k] as int).contains(i) by {
            assert(t[k] == ds[k]);
        }
        lemma_kept_eval_all(old, new, levers, i, t, fuel);
        let d = ds.last();
        assert(old.dependents(ds[ds.len() - 1] as int).contains(i));
        if old.has(d as int) {
            assert(new.has(d as int));
            lemma_kept_eval(old, new, levers, d, fuel);
        } else {
            assert(!new.has(d as int));
        }
    }
}

/// Removes, going backwards from the gates that nothing reads, every gate that has no
/// dependents and cannot be observed: afterwards no gate is dead. The gates that stay keep
/// their type and dependencies, and a gate that lists a gate that stays among its dependents
/// stays too, still listing it. Where each gate is listed by its dependencies, it still is
/// afterwards among the gates that stay, and every gate that stays computes what it did.
pub fn dead_code_elimination_pass(g: &mut GateGraphBuilder)
    requires
        old(g).base_wf(),
    ensures
        final(g).optimized_from(old(g)),
        forall|i: usize| !#[trigger] is_dead(final(g), i),
        forall|i: int| #[trigger] final(g).has(i) ==> final(g).ty(i) == old(g).ty(i) && final(g).deps(i) == old(g).deps(i),
        forall|x: int, y: usize| old(g).has(x) && #[trigger] old(g).dependents(x).contains(y) && final(g).has(y as int)
            ==> final(g).has(x) && final(g).dependents(x).contains(y),
        forall|x: int, y: usize| final(g).has(x) && #[trigger] final(g).dependents(x).contains(y)
            ==> old(g).dependents(x).contains(y),
        old(g).dependents_mirrored() ==> forall|i: usize, k: int| final(g).has(i as int) && 0 <= k < final(g).deps(i as int).len()
            && final(g).has(final(g).deps(i as int)[k] as int)
            ==> #[trigger] final(g).dependents(final(g).deps(i as int)[k] as int).contains(i),
        old(g).dependents_mirrored() ==> forall|levers: spec_fn(int) -> bool, i: usize, fuel: nat|
            #[trigger] final(g).eval(levers, i as int, fuel) != old(g).eval(levers, i as int, fuel) ==> !final(g).has(i as int),
{
    let mut work = dead_gates(g);
    proof {
        g.lemma_optimized_refl();
        g.lemma_consts();
    }
    while work.len() > 0
        invariant
            g.optimized_from(old(g)),
            old(g).base_wf(),
            g.free().len() <= g.num_slots(),
            forall|i: usize| #[trigger] is_dead(g, i) ==> work@.contains(i),
            forall|k: int| 0 <= k < work@.len() && g.has(#[trigger] work@[k] as int) ==> g.dependents(work@[k] as int).len() == 0,
            forall|i: int| #[trigger] g.has(i) ==> g.ty(i) == old(g).ty(i) && g.deps(i) == old(g).deps(i),
            forall|x: int, y: usize| old(g).has(x) && #[trigger] old(g).dependents(x).contains(y) && g.has(y as int)
                ==> g.has(x) && g.dependents(x).contains(y),
            forall|x: int, y: usize| g.has(x) && #[trigger] g.dependents(x).contains(y) ==> old(g).dependents(x).contains(y),
        decreases g.num_slots() - g.free().len(), work@.len(),
    {
        let ghost listed = work@;
        let idx = work.pop().unwrap();
        proof {
            assert forall|i: usize| #[trigger] is_dead(g, i) && i != idx implies work@.contains(i) by {
                let k = choose|k: int| 0 <= k < listed.len() && listed[k] == i;
                assert(k != listed.len() - 1);
                assert(work@[k] == listed[k]);
            }
            assert forall|k: int| 0 <= k < work@.len() && g.has(#[trigger] work@[k] as int) implies g.dependents(work@[k] as int).len() == 0 by {
                assert(work@[k] == listed[k]);
            }
            assert(listed[listed.len() - 1] == idx);
        }
        match g.gate_type(idx) {
            None => {
                continue;
            },
            Some(_) => {},
        }
        if idx < 2 || g.is_observable(idx) {
            continue;
        }
        let deps = g.dependencies_of(idx);
        let ghost start = *g;
        proof {
            assert(g.dependents(idx as int).len() == 0);
            assert forall|y: usize| #[trigger] old(g).dependents(idx as int).contains(y) implies !g.has(y as int) || y == idx by {
                if g.has(y as int) {
                    assert(g.dependents(idx as int).contains(y));
                }
            }
        }
        let mut k: usize = 0;
        while k < deps.len()
            invariant
                g.optimized_from(old(g)),
                start.optimized_from(old(g)),
                g.num_slots() == start.num_slots(),
                g.free() == start.free(),
                g.has(idx as int),
                !g.observable(idx as int),
                idx >= 2,
                k <= deps@.len(),
                forall|i: usize| #[trigger] is_dead(g, i) && i != idx ==> work@.contains(i),
                g.dependents(idx as int).len() == 0,
                forall|k: int| 0 <= k < work@.len() && g.has(#[trigger] work@[k] as int) ==> g.dependents(work@[k] as int).len() == 0,
                forall|i: int| #[trigger] g.has(i) ==> g.ty(i) == old(g).ty(i) && g.deps(i) == old(g).deps(i),
                forall|x: int, y: usize| old(g).has(x) && #[trigger] old(g).dependents(x).contains(y) && g.has(y as int) && y != idx
                    ==> g.has(x) && g.dependents(x).contains(y),
                forall|y: usize| #[trigger] old(g).dependents(idx as int).contains(y) ==> !g.has(y as int) || y == idx,
                forall|x: int, y: usize| g.has(x) && #[trigger] g.dependents(x).contains(y) ==> old(g).dependents(x).contains(y),
            decreases deps@.len() - k,
        {
            let dependency = deps[k];
            if let Some(_) = g.gate_type(dependency) {
                let ghost before = *g;
                let ghost listed = work@;
                g.remove_dependent(dependency, idx);
                proof {
                    GateGraphBuilder::lemma_optimized_trans(old(g), &before, g);
                    if idx != dependency {
                        assert(g.slots()[idx as int] == before.slots()[idx as int]);
                    }
                    assert forall|i: int| #[trigger] g.has(i) implies g.ty(i) == old(g).ty(i) && g.deps(i) == old(g).deps(i) by {
                        assert(before.has(i));
                        if i != dependency as int { assert(g.slots()[i] == before.slots()[i]); }
                    }
                    assert forall|x: int, y: usize| old(g).has(x) && #[trigger] old(g).dependents(x).contains(y) && g.has(y as int) && y != idx
                        implies g.has(x) && g.dependents(x).contains(y) by {
                        assert(before.has(y as int)) by {
                            if y != dependency { assert(g.slots()[y as int] == before.slots()[y as int]); }
                        }
                        assert(before.has(x) && before.dependents(x).contains(y));
                        if x != dependency as int {
                            assert(g.slots()[x] == before.slots()[x]);
                        } else {
                            lemma_swap_remove_keeps(before.dependents(x), idx, y);
                        }
                    }
                    assert forall|x: int, y: usize| g.has(x) && #[trigger] g.dependents(x).contains(y) implies old(g).dependents(x).contains(y) by {
                        assert(before.has(x)) by {
                            if x != dependency as int { assert(g.slots()[x] == before.slots()[x]); }
                        }
                        if x != dependency as int {
                            assert(g.slots()[x] == before.slots()[x]);
                        } else {
                            lemma_swap_remove_within(before.dependents(x), idx, y);
                        }
                        assert(before.dependents(x).contains(y));
                    }
                    assert forall|y: usize| #[trigger] old(g).dependents(idx as int).contains(y) implies !g.has(y as int) || y == idx by {
                        if y != dependency && y != idx && (y as int) < g.num_slots() { assert(g.slots()[y as int] == before.slots()[y as int]); }
                    }
                    assert forall|k: int| 0 <= k < work@.len() && g.has(#[trigger] work@[k] as int) implies g.dependents(work@[k] as int).len() == 0 by {
                        let w = work@[k] as int;
                        assert(before.has(w)) by {
                            if w != dependency as int { assert(g.slots()[w] == before.slots()[w]); }
                        }
                        if w != dependency as int {
                            assert(g.slots()[w] == before.slots()[w]);
                        }
                    }
                }
                let ghost listed2 = work@;
                if g.dependents_len(dependency) == 0 {
                    work.push(dependency);
                }
                proof {
                    assert forall|k: int| 0 <= k < work@.len() && g.has(#[trigger] work@[k] as int) implies g.dependents(work@[k] as int).len() == 0 by {
                        if k < listed2.len() { assert(work@[k] == listed2[k]); }
                    }
                }
                proof {
                    assert forall|i: usize| #[trigger] is_dead(g, i) && i != idx implies work@.contains(i) by {
                        if i != dependency {
                            assert(g.slots()[i as int] == before.slots()[i as int]);
                            assert(is_dead(&before, i));
                            let q = choose|q: int| 0 <= q < listed.len() && listed[q] == i;
                            assert(work@[q] == listed[q]);
                        } else {
                            assert(work@[work@.len() - 1] == dependency);
                        }
                    }
                }
            }
            k = k + 1;
        }
        let ghost before = *g;
        proof {
            g.lemma_free_bound(idx as int);
        }
        g.remove_gate(idx);
        proof {
            GateGraphBuilder::lemma_optimized_trans(old(g), &before, g);
            assert forall|i: int| #[trigger] g.has(i) implies g.ty(i) == old(g).ty(i) && g.deps(i) == old(g).deps(i) by {
                assert(g.slots()[i] == before.slots()[i]);
            }
            assert forall|x: int, y: usize| g.has(x) && #[trigger] g.dependents(x).contains(y) implies old(g).dependents(x).contains(y) by {
                assert(g.slots()[x] == before.slots()[x]);
                assert(before.dependents(x).contains(y));
            }
            assert forall|x: int, y: usize| old(g).has(x) && #[trigger] old(g).dependents(x).contains(y) && g.has(y as int)
                implies g.has(x) && g.dependents(x).contains(y) by {
                assert(y != idx);
                assert(g.slots()[y as int] == before.slots()[y as int]);
                assert(before.has(x) && before.dependents(x).contains(y));
                if x == idx as int {
                    assert(!before.has(y as int));
                }
                assert(g.slots()[x] == before.slots()[x]);
            }
            assert forall|k: int| 0 <= k < work@.len() && g.has(#[trigger] work@[k] as int) implies g.dependents(work@[k] as int).len() == 0 by {
                let w = work@[k] as int;
                assert(g.slots()[w] == before.slots()[w]);
            }
            assert forall|i: usize| #[trigger] is_dead(g, i) implies work@.contains(i) by {
                assert(i != idx);
                assert(g.slots()[i as int] == before.slots()[i as int]);
                assert(is_dead(&before, i));
            }
        }
    }
    proof {
        assert forall|i: usize| !#[trigger] is_dead(g, i) by {
            if is_dead(g, i) {
                assert(work@.contains(i));
            }
        }
        if old(g).dependents_mirrored() {
            assert forall|i: usize, k: int| g.has(i as int) && 0 <= k < g.deps(i as int).len()
                && g.has(g.deps(i as int)[k] as int)
                implies #[trigger] g.dependents(g.deps(i as int)[k] as int).contains(i) by {
                let d = g.deps(i as int)[k] as int;
                assert(g.deps(i as int) == old(g).deps(i as int));
                assert(old(g).dependents(old(g).deps(i as int)[k] as int).contains((i as int) as usize));
                assert(old(g).has(d));
            }
            assert forall|levers: spec_fn(int) -> bool, i: usize, fuel: nat|
                #[trigger] g.eval(levers, i as int, fuel) != old(g).eval(levers, i as int, fuel) implies !g.has(i as int) by {
                if g.has(i as int) {
                    assert forall|j: int| #[trigger] g.has(j) implies old(g).has(j) && g.ty(j) == old(g).ty(j) && g.deps(j) == old(g).deps(j) by {}
                    assert forall|x: int, y: usize| old(g).has(x) && #[trigger] old(g).dependents(x).contains(y) && g.has(y as int)
                        implies g.has(x) by {}
                    lemma_kept_eval(old(g), g, levers, i, fuel);
                }
            }
        }
    }
}

} // verus!
