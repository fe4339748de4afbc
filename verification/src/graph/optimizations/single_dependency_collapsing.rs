use crate::graph::gate::{
    all_true, any_true, gate_output, is_variadic, law_negated_version, negated, negated_type, parity, GateType,
};
use crate::graph::graph_builder::GateGraphBuilder;
use crate::graph::optimizations::dead_code_elimination::lemma_swap_remove_keeps;
use crate::graph::optimizations::settling::{
    law_eval_settles, lemma_eval_all_index, lemma_set_insert_keeps, ranked, readers_listed,
};
use vstd::prelude::*;

verus! {

/// True if gate `i` of `g` has a single dependency, which is another gate of `g` that does
/// not depend on `i`.
pub open spec fn single_dependency_gate(g: &GateGraphBuilder, i: usize) -> bool {
    &&& g.has(i as int)
    &&& g.deps(i as int).len() == 1
    &&& g.deps(i as int)[0] != i
    &&& g.has(g.deps(i as int)[0] as int)
    &&& !g.deps(g.deps(i as int)[0] as int).contains(i)
}

/// Returns the gates with a single dependency that is neither themselves nor depends on them,
/// in increasing order.
fn single_dependency_gates(g: &GateGraphBuilder) -> (r: Vec<usize>)
    requires
        g.base_wf(),
    ensures
        forall|k: int| 0 <= k < r@.len() ==> #[trigger] single_dependency_gate(g, r@[k]),
        forall|i: usize| #[trigger] single_dependency_gate(g, i) ==> r@.contains(i),
        forall|a: int, b: int| 0 <= a < b < r@.len() ==> r@[a] < r@[b],
{
    let mut r: Vec<usize> = Vec::new();
    let n = g.total_len();
    let mut i: usize = 0;
    while i < n
        invariant
            g.base_wf(),
            n == g.num_slots(),
            i <= n,
            forall|k: int| 0 <= k < r@.len() ==> #[trigger] single_dependency_gate(g, r@[k]),
            forall|k: int| 0 <= k < r@.len() ==> #[trigger] r@[k] < i,
            forall|j: usize| #[trigger] single_dependency_gate(g, j) && j < i ==> r@.contains(j),
            forall|a: int, b: int| 0 <= a < b < r@.len() ==> r@[a] < r@[b],
        decreases n - i,
    {
        let ghost prev = r@;
        if let Some(_) = g.gate_type(i) {
            let deps = g.dependencies_of(i);
            if deps.len() == 1 && deps[0] != i {
                if let Some(_) = g.gate_type(deps[0]) {
                    if !g.has_dependency(deps[0], i) {
                        r.push(i);
                        proof {
                            assert(r@[r@.len() - 1] == i);
                            assert(single_dependency_gate(g, i));
                        }
                    }
                }
            }
        }
        proof {
            assert forall|k: int| 0 <= k < r@.len() implies #[trigger] single_dependency_gate(g, r@[k]) by {
                if k < prev.len() { assert(r@[k] == prev[k]); } else { assert(r@[k] == i); }
            }
            assert forall|k: int| 0 <= k < r@.len() implies #[trigger] r@[k] < i + 1 by {
                if k < prev.len() { assert(r@[k] == prev[k]); } else { assert(r@[k] == i); }
            }
            assert forall|a: int, b: int| 0 <= a < b < r@.len() implies r@[a] < r@[b] by {
                if b < prev.len() { assert(r@[a] == prev[a] && r@[b] == prev[b]); }
                else if a < prev.len() { assert(r@[a] == prev[a]); assert(prev[a] < i); }
            }
            assert forall|j: usize| #[trigger] single_dependency_gate(g, j) && j < i + 1 implies r@.contains(j) by {
                if j < i {
                    let k = choose|k: int| 0 <= k < prev.len() && prev[k] == j;
                    assert(r@[k] == prev[k]);
                } else {
                    assert(r@[r@.len() - 1] == i);
                }
            }
        }
        i = i + 1;
    }
    r
}

/// `s` with every `from` replaced by `to`.
pub open spec fn swapped(s: Seq<usize>, from: usize, to: usize) -> Seq<usize> {
    s.map_values(|d: usize| if d == from { to } else { d })
}

/// Moves the dependents of gate `from` to `to`: each of them reads `to` where it read `from`,
/// and `to` records them as dependents.
fn move_dependents(g: &mut GateGraphBuilder, from: usize, to: usize, dependents: &Vec<usize>)
    requires
        old(g).base_wf(),
        to < old(g).num_slots(),
        forall|k: int| 0 <= k < dependents@.len() ==> #[trigger] dependents@[k] < old(g).num_slots(),
    ensures
        final(g).optimized_from(old(g)),
        final(g).free() == old(g).free(),
        forall|i: int| #[trigger] old(g).has(i) ==> final(g).has(i) && final(g).ty(i) == old(g).ty(i),
        forall|i: usize| old(g).has(i as int) && dependents@.contains(i)
            ==> #[trigger] final(g).deps(i as int) == swapped(old(g).deps(i as int), from, to),
        forall|i: usize| old(g).has(i as int) && !dependents@.contains(i)
            ==> #[trigger] final(g).deps(i as int) == old(g).deps(i as int),
        forall|i: usize| old(g).has(i as int) && i != to ==> #[trigger] final(g).dependents(i as int) == old(g).dependents(i as int),
        old(g).has(to as int) ==> forall|x: usize| #[trigger] final(g).dependents(to as int).contains(x)
            <== old(g).dependents(to as int).contains(x) || dependents@.contains(x),
{
    proof {
        g.lemma_optimized_refl();
    }
    let mut k: usize = 0;
    while k < dependents.len()
        invariant
            g.optimized_from(old(g)),
            g.free() == old(g).free(),
            forall|i: int| #[trigger] old(g).has(i) ==> g.has(i) && g.ty(i) == old(g).ty(i),
            to < old(g).num_slots(),
            forall|k: int| 0 <= k < dependents@.len() ==> #[trigger] dependents@[k] < old(g).num_slots(),
            k <= dependents@.len(),
            forall|i: usize| old(g).has(i as int) && dependents@.subrange(0, k as int).contains(i)
                ==> #[trigger] g.deps(i as int) == swapped(old(g).deps(i as int), from, to),
            forall|i: usize| old(g).has(i as int) && !dependents@.subrange(0, k as int).contains(i)
                ==> #[trigger] g.deps(i as int) == old(g).deps(i as int),
            forall|i: usize| old(g).has(i as int) && i != to ==> #[trigger] g.dependents(i as int) == old(g).dependents(i as int),
            old(g).has(to as int) ==> forall|x: usize| #[trigger] g.dependents(to as int).contains(x)
                <== old(g).dependents(to as int).contains(x) || dependents@.subrange(0, k as int).contains(x),
        decreases dependents@.len() - k,
    {
        let dependant = dependents[k];
        let ghost before = *g;
        g.insert_dependent(to, dependant);
        let ghost mid = *g;
        g.swap_dependency_of(dependant, from, to);
        proof {
            GateGraphBuilder::lemma_optimized_trans(old(g), &before, &mid);
            GateGraphBuilder::lemma_optimized_trans(old(g), &mid, g);
            let pre = dependents@.subrange(0, k as int);
            let post = dependents@.subrange(0, k + 1);
            assert(post =~= pre.push(dependant));
            assert forall|i: int| #[trigger] old(g).has(i) implies g.has(i) && g.ty(i) == old(g).ty(i) by {
                assert(before.has(i));
                assert(before.ty(i) == old(g).ty(i));
                if i != to as int { assert(mid.slots()[i] == before.slots()[i]); }
                if i != dependant as int { assert(g.slots()[i] == mid.slots()[i]); }
            }
            assert forall|i: usize| old(g).has(i as int) && post.contains(i)
                implies #[trigger] g.deps(i as int) == swapped(old(g).deps(i as int), from, to) by {
                let ii = i as int;
                assert(before.has(ii));
                if i != to { assert(mid.slots()[ii] == before.slots()[ii]); }
                assert(mid.deps(ii) == before.deps(ii));
                if i == dependant {
                    let o = old(g).deps(ii);
                    assert(g.deps(ii) =~= swapped(o, from, to));
                } else {
                    assert(g.slots()[ii] == mid.slots()[ii]);
                    let j = choose|j: int| 0 <= j < post.len() && post[j] == i;
                    assert(post[k as int] == dependant);
                    assert(pre[j] == i);
                    assert(pre.contains(i));
                }
            }
            assert forall|i: usize| old(g).has(i as int) && !post.contains(i)
                implies #[trigger] g.deps(i as int) == old(g).deps(i as int) by {
                let ii = i as int;
                assert(before.has(ii));
                assert(!pre.contains(i)) by {
                    if pre.contains(i) {
                        let j = choose|j: int| 0 <= j < pre.len() && pre[j] == i;
                        assert(post[j] == i);
                    }
                }
                if i != to { assert(mid.slots()[ii] == before.slots()[ii]); }
                assert(mid.deps(ii) == before.deps(ii));
                assert(post[k as int] == dependant);
                assert(i != dependant);
                assert(g.slots()[ii] == mid.slots()[ii]);
            }
            assert forall|i: usize| old(g).has(i as int) && i != to implies #[trigger] g.dependents(i as int) == old(g).dependents(i as int) by {
                let ii = i as int;
                assert(before.has(ii));
                assert(mid.slots()[ii] == before.slots()[ii]);
                assert(before.dependents(ii) == old(g).dependents(ii));
                assert(mid.dependents(ii) == before.dependents(ii));
                assert(g.dependents(ii) == mid.dependents(ii)) by {
                    if i != dependant { assert(g.slots()[ii] == mid.slots()[ii]); }
                }
            }
            if old(g).has(to as int) {
                assert(before.has(to as int));
                assert(g.dependents(to as int) == mid.dependents(to as int)) by {
                    if to != dependant { assert(g.slots()[to as int] == mid.slots()[to as int]); }
                }
                assert forall|x: usize| old(g).dependents(to as int).contains(x) || post.contains(x)
                    implies #[trigger] g.dependents(to as int).contains(x) by {
                    let bd = before.dependents(to as int);
                    let md = mid.dependents(to as int);
                    if bd.contains(x) {
                        let j = choose|j: int| 0 <= j < bd.len() && bd[j] == x;
                        if !bd.contains(dependant) { assert(md[j] == bd[j]); }
                    } else if x == dependant {
                        if !bd.contains(dependant) { assert(md[bd.len() as int] == dependant); }
                    } else {
                        assert(old(g).dependents(to as int).contains(x) || pre.contains(x)) by {
                            if post.contains(x) {
                                let j = choose|j: int| 0 <= j < post.len() && post[j] == x;
                                assert(pre[j] == x);
                            }
                        }
                    }
                }
            }
        }
        k = k + 1;
    }
    proof {
        assert(dependents@.subrange(0, k as int) =~= dependents@);
    }
}

/// True if every gate of `g0` that can be observed is still in `g`, of the same type.
pub open spec fn observable_kept(g0: &GateGraphBuilder, g: &GateGraphBuilder) -> bool {
    forall|i: int| #[trigger] g0.has(i) && g0.observable(i) ==> g.has(i) && g.ty(i) == g0.ty(i)
}

/// Changing only gate `at`, and that one only where it cannot be observed in `g0` or keeps
/// its type, keeps the gates that can be observed.
proof fn lemma_observable_step(g0: &GateGraphBuilder, a: &GateGraphBuilder, b: &GateGraphBuilder, at: int)
    requires
        observable_kept(g0, a),
        b.slots().len() == a.slots().len(),
        forall|j: int| 0 <= j < b.slots().len() && j != at ==> #[trigger] b.slots()[j] == a.slots()[j],
        g0.has(at) && g0.observable(at) ==> b.has(at) && b.ty(at) == g0.ty(at),
    ensures
        observable_kept(g0, b),
{
    assert forall|i: int| #[trigger] g0.has(i) && g0.observable(i) implies b.has(i) && b.ty(i) == g0.ty(i) by {
        if i != at {
            assert(a.has(i));
            assert(b.slots()[i] == a.slots()[i]);
        }
    }
}

/// True if `b` is `a` with gate `idx` gone and its listed dependents reading `dep` in its
/// place: every other gate stays, with its type (but `dep`, which takes the type `dep_ty`)
/// and its dependencies, in which `idx` becomes `dep` for the gates that `a` lists as
/// dependents of `idx`; `dep` lists those gates among its dependents, and no gate loses a
/// dependent but `idx`.
pub open spec fn collapsed_into(a: &GateGraphBuilder, b: &GateGraphBuilder, idx: usize, dep: usize, dep_ty: GateType) -> bool {
    &&& !b.has(idx as int)
    &&& forall|j: usize| j != idx && a.has(j as int) ==> #[trigger] b.has(j as int)
    &&& forall|j: int| #[trigger] b.has(j) ==> a.has(j)
    &&& forall|j: usize| j != idx && a.has(j as int) ==> #[trigger] b.ty(j as int) == (if j == dep { dep_ty } else { a.ty(j as int) })
    &&& forall|j: usize| j != idx && a.has(j as int) ==> #[trigger] b.deps(j as int) == (if a.dependents(idx as int).contains(j) {
        swapped(a.deps(j as int), idx, dep)
    } else {
        a.deps(j as int)
    })
    &&& a.has(dep as int) && dep != idx ==> forall|y: usize| y != idx && #[trigger] a.dependents(idx as int).contains(y)
        ==> b.dependents(dep as int).contains(y)
    &&& forall|x: usize, y: usize| x != idx && y != idx && a.has(x as int) && #[trigger] a.dependents(x as int).contains(y)
        ==> b.dependents(x as int).contains(y)
}

/// True if `b` is `a` with gate `idx` of type `ty` reading `deps`, and every other gate of the
/// same type and with the same dependencies; each gate of `deps` that `idx` did not read lists
/// `idx` among its dependents, and no gate loses a dependent but the gates that `idx` read,
/// which may lose `idx`.
pub open spec fn rewritten(a: &GateGraphBuilder, b: &GateGraphBuilder, idx: usize, ty: GateType, deps: Seq<usize>) -> bool {
    &&& forall|j: int| #[trigger] b.has(j) == a.has(j)
    &&& b.ty(idx as int) == ty
    &&& b.deps(idx as int) == deps
    &&& forall|j: usize| j != idx && a.has(j as int) ==> #[trigger] b.ty(j as int) == a.ty(j as int)
    &&& forall|j: usize| j != idx && a.has(j as int) ==> #[trigger] b.deps(j as int) == a.deps(j as int)
    &&& forall|e: usize| a.has(e as int) && #[trigger] deps.contains(e) && !a.deps(idx as int).contains(e)
        ==> b.dependents(e as int).contains(idx)
    &&& forall|x: usize, y: usize| a.has(x as int) && #[trigger] a.dependents(x as int).contains(y)
        && !(y == idx && a.deps(idx as int).contains(x)) ==> b.dependents(x as int).contains(y)
}

/// True if `b` is what collapsing gate `idx` makes of `a`. A gate that is gone, can be
/// observed, or does not read exactly one gate is left alone, and so is everything else. A non
/// negated gate is replaced by its dependency. A negated one becomes a not gate when its
/// dependency has no negated version; when nothing else reads its dependency and that one
/// cannot be observed, the dependency takes the negated type and the place of gate `idx`;
/// otherwise gate `idx` takes the negated type of its dependency and reads what that one reads.
/// Only the types and dependencies are described; the dependents lists are left out.
pub open spec fn collapse_step(a: &GateGraphBuilder, b: &GateGraphBuilder, idx: usize) -> bool {
    let i = idx as int;
    let dep = a.deps(i)[0] as int;
    if !(a.has(i) && !a.observable(i) && a.deps(i).len() == 1 && a.has(dep)) || a.ty(i) is Off || a.ty(i) is On
        || a.ty(i) is Lever {
        b == a
    } else if negated(a.ty(i)) {
        if !is_variadic(a.ty(dep)) {
            rewritten(a, b, idx, GateType::Not, a.deps(i))
        } else if a.dependents(dep).len() == 1 && !a.observable(dep) {
            collapsed_into(a, b, idx, dep as usize, negated_type(a.ty(dep)))
        } else {
            rewritten(a, b, idx, negated_type(a.ty(dep)), a.deps(dep))
        }
    } else {
        collapsed_into(a, b, idx, dep as usize, a.ty(dep))
    }
}

/// True if collapsing gate `idx` of `a` (see [collapse_step]) makes its dependency take the
/// negated type and its place.
pub open spec fn collapse_moves_dependency(a: &GateGraphBuilder, idx: usize) -> bool {
    let i = idx as int;
    let dep = a.deps(i)[0] as int;
    &&& a.has(i) && !a.observable(i) && a.deps(i).len() == 1 && a.has(dep)
    &&& !(a.ty(i) is Off || a.ty(i) is On || a.ty(i) is Lever)
    &&& negated(a.ty(i))
    &&& is_variadic(a.ty(dep))
    &&& a.dependents(dep).len() == 1
    &&& !a.observable(dep)
}

/// Which gate of `a` has the state that gate `j` holds once gate `idx` is collapsed: the
/// dependency of `idx` holds that of `idx` where it takes its place, and every other gate its
/// own.
pub open spec fn collapse_source(a: &GateGraphBuilder, idx: usize, j: usize) -> usize {
    if collapse_moves_dependency(a, idx) && j == a.deps(idx as int)[0] {
        idx
    } else {
        j
    }
}

/// A gate with a single input computes that input, negated for a negated type.
proof fn lemma_single_input(ty: GateType, x: bool, own: bool)
    requires
        !(ty is Off || ty is On || ty is Lever),
    ensures
        gate_output(ty, seq![x], own) == (if negated(ty) { !x } else { x }),
{
    let s = seq![x];
    assert(s.drop_last() =~= Seq::<bool>::empty());
    assert(!parity(Seq::<bool>::empty()));
    assert(parity(s) == x);
    if all_true(s) {
        assert(s[0]);
    }
    if x {
        assert(any_true(s) && all_true(s));
    }
}

/// Collapsing a gate keeps what every gate settles to: where `b` is `a` with gate `idx`
/// collapsed (see [collapse_step]), and every gate that reads `idx` or its dependency is
/// listed among the dependents of that gate, every gate of `b` computes, with any fuel above
/// the rank of its source (see [collapse_source]), what its source computes in `a`, whatever
/// the levers, and the ranks still order `b`.
pub proof fn law_collapsing_keeps_settled_states(a: &GateGraphBuilder, b: &GateGraphBuilder, rank: spec_fn(usize) -> nat,
    levers: spec_fn(int) -> bool, idx: usize, j: usize, f: nat)
    requires
        a.base_wf(),
        ranked(a, rank),
        collapse_step(a, b, idx),
        forall|i: usize| a.has(i as int) && #[trigger] a.deps(i as int).contains(idx) ==> a.dependents(idx as int).contains(i),
        a.has(idx as int) && a.deps(idx as int).len() == 1 ==> forall|i: usize| a.has(i as int) && #[trigger] a.deps(
            i as int).contains(a.deps(idx as int)[0]) ==> a.dependents(a.deps(idx as int)[0] as int).contains(i),
        b.has(j as int),
        f > rank(collapse_source(a, idx, j)),
    ensures
        ranked(b, rank),
        b.eval(levers, j as int, f) == a.eval(levers, collapse_source(a, idx, j) as int, f),
    decreases rank(j),
{
    let i = idx as int;
    let dep = a.deps(i)[0];
    let active = a.has(i) && !a.observable(i) && a.deps(i).len() == 1 && a.has(dep as int) && !(a.ty(i) is Off
        || a.ty(i) is On || a.ty(i) is Lever);
    if !active {
        assert(*b == *a);
    } else {
        let moved = collapse_moves_dependency(a, idx);
        let removed = !negated(a.ty(i)) || moved;
        assert(rank(dep) < rank(idx)) by {
            assert(rank(a.deps(i)[0]) < rank(idx));
        }
        assert forall|x: usize| x != idx ==> #[trigger] b.has(x as int) == a.has(x as int) by {
            if removed && x != idx && b.has(x as int) {
                assert(a.has(x as int));
            }
        }
        assert(b.has(i) == !removed);
        assert forall|x: usize, k: int| b.has(x as int) && 0 <= k < b.deps(x as int).len() implies #[trigger] rank(
            b.deps(x as int)[k]) < rank(x) by {
            if x == idx {
                assert(!removed);
                if !is_variadic(a.ty(dep as int)) {
                    assert(b.deps(x as int) == a.deps(i));
                } else {
                    assert(b.deps(x as int) == a.deps(dep as int));
                    assert(rank(a.deps(dep as int)[k]) < rank(dep));
                }
            } else {
                assert(a.has(x as int));
                assert(rank(a.deps(x as int)[k]) < rank(x));
                if removed && a.dependents(i).contains(x) {
                    assert(b.deps(x as int) == swapped(a.deps(x as int), idx, dep));
                    if a.deps(x as int)[k] == idx {
                        assert(b.deps(x as int)[k] == dep);
                    } else {
                        assert(b.deps(x as int)[k] == a.deps(x as int)[k]);
                    }
                } else {
                    assert(b.deps(x as int) == a.deps(x as int));
                }
            }
        }
        let g = (f - 1) as nat;
        let src = collapse_source(a, idx, j);
        let bs = b.deps(j as int);
        lemma_eval_all_index(b, levers, bs, g);
        a.lemma_gate_ok(i);
        lemma_eval_all_index(a, levers, a.deps(i), g);
        if j == idx {
            assert(!removed);
            assert(src == j);
            if !is_variadic(a.ty(dep as int)) {
                assert(bs == a.deps(i));
                assert(src == j);
                let bv = b.eval(levers, dep as int, g);
                law_collapsing_keeps_settled_states(a, b, rank, levers, idx, dep, g);
                assert(collapse_source(a, idx, dep) == dep);
                assert(b.eval_all(levers, bs, g) =~= seq![bv]);
                assert(a.eval_all(levers, a.deps(i), g) =~= seq![bv]);
                lemma_single_input(a.ty(i), bv, levers(i));
                lemma_single_input(GateType::Not, bv, levers(i));
            } else {
                let ds = a.deps(dep as int);
                assert(bs == ds);
                lemma_eval_all_index(a, levers, ds, g);
                assert forall|k: int| 0 <= k < ds.len() implies #[trigger] b.eval_all(levers, bs, g)[k] == a.eval_all(levers,
                    ds, g)[k] by {
                    assert(rank(ds[k]) < rank(dep));
                    if b.has(ds[k] as int) {
                        assert(collapse_source(a, idx, ds[k]) == ds[k]);
                        law_collapsing_keeps_settled_states(a, b, rank, levers, idx, ds[k], g);
                    } else {
                        assert(ds[k] != idx);
                    }
                }
                assert(b.eval_all(levers, bs, g) =~= a.eval_all(levers, ds, g));
                law_negated_version(a.ty(dep as int), a.eval_all(levers, ds, g), levers(i));
                law_eval_settles(a, rank, levers, dep, g, f);
                let av = a.eval(levers, dep as int, g);
                assert(a.eval_all(levers, a.deps(i), g) =~= seq![av]);
                lemma_single_input(a.ty(i), av, levers(i));
                assert(gate_output(a.ty(dep as int), a.eval_all(levers, ds, g), levers(i)) == gate_output(a.ty(dep as int),
                    a.eval_all(levers, ds, g), levers(dep as int))) by {
                    assert(!(a.ty(dep as int) is Lever));
                }
            }
        } else if moved && j == dep {
            assert(src == idx);
            let ds = a.deps(dep as int);
            assert(!ds.contains(idx)) by {
                if ds.contains(idx) {
                    let m = choose|m: int| 0 <= m < ds.len() && ds[m] == idx;
                    assert(rank(ds[m]) < rank(dep));
                }
            }
            assert(bs == ds) by {
                if a.dependents(i).contains(dep) {
                    assert(swapped(ds, idx, dep) =~= ds);
                }
            }
            lemma_eval_all_index(a, levers, ds, g);
            assert forall|k: int| 0 <= k < ds.len() implies #[trigger] b.eval_all(levers, bs, g)[k] == a.eval_all(levers,
                ds, g)[k] by {
                assert(rank(ds[k]) < rank(dep));
                if b.has(ds[k] as int) {
                    assert(collapse_source(a, idx, ds[k]) == ds[k]);
                    law_collapsing_keeps_settled_states(a, b, rank, levers, idx, ds[k], g);
                }
            }
            assert(b.eval_all(levers, bs, g) =~= a.eval_all(levers, ds, g));
            law_negated_version(a.ty(dep as int), a.eval_all(levers, ds, g), levers(j as int));
            law_eval_settles(a, rank, levers, dep, g, f);
            let av = a.eval(levers, dep as int, g);
            assert(a.eval_all(levers, a.deps(i), g) =~= seq![av]);
            lemma_single_input(a.ty(i), av, levers(i));
        } else {
            assert(src == j);
            assert(a.has(j as int));
            let ads = a.deps(j as int);
            lemma_eval_all_index(a, levers, ads, g);
            assert(b.ty(j as int) == a.ty(j as int));
            assert forall|k: int| 0 <= k < bs.len() implies #[trigger] b.eval_all(levers, bs, g)[k] == a.eval_all(levers,
                ads, g)[k] by {
                let x = ads[k];
                assert(rank(x) < rank(j));
                if removed && x == idx {
                    assert(ads.contains(idx));
                    assert(a.dependents(i).contains(j));
                    assert(bs[k] == dep);
                    law_collapsing_keeps_settled_states(a, b, rank, levers, idx, dep, g);
                    if !moved {
                        assert(collapse_source(a, idx, dep) == dep);
                        law_eval_settles(a, rank, levers, dep, (g - 1) as nat, g);
                        assert(a.eval_all(levers, a.deps(i), (g - 1) as nat) =~= seq![a.eval(levers, dep as int, (g
                            - 1) as nat)]) by {
                            lemma_eval_all_index(a, levers, a.deps(i), (g - 1) as nat);
                        }
                        lemma_single_input(a.ty(i), a.eval(levers, dep as int, (g - 1) as nat), levers(i));
                    }
                } else {
                    assert(bs[k] == x) by {
                        if removed && a.dependents(i).contains(j) {
                            assert(bs == swapped(ads, idx, dep));
                        }
                    }
                    if moved && x == dep {
                        assert(ads.contains(dep));
                        assert(a.dependents(dep as int).contains(j));
                        assert(a.dependents(dep as int).contains(idx)) by {
                            assert(a.deps(i).contains(dep)) by {
                                assert(a.deps(i)[0] == dep);
                            }
                        }
                        let m1 = choose|m: int| 0 <= m < a.dependents(dep as int).len() && a.dependents(dep as int)[m] == j;
                        let m2 = choose|m: int| 0 <= m < a.dependents(dep as int).len() && a.dependents(dep as int)[m] == idx;
                        assert(false);
                    }
                    if b.has(x as int) {
                        assert(collapse_source(a, idx, x) == x);
                        law_collapsing_keeps_settled_states(a, b, rank, levers, idx, x, g);
                    } else {
                        assert(!a.has(x as int));
                    }
                }
            }
            assert(b.eval_all(levers, bs, g) =~= a.eval_all(levers, ads, g));
        }
    }
}

/// Collapsing a gate keeps every reader listed: where every gate of `a` is listed among the
/// dependents of each gate it reads (see [readers_listed]) and `b` is `a` with gate `idx`
/// collapsed (see [collapse_step]), every gate of `b` is listed among the dependents of each
/// gate it reads, but `idx` by a gate that it read in `a`. So a change of whichever gate
/// takes the place of `idx` reaches each gate that read `idx`, and a change of each gate that
/// `idx` newly reads reaches `idx`.
pub proof fn law_collapsing_keeps_readers_listed(a: &GateGraphBuilder, b: &GateGraphBuilder, idx: usize)
    requires
        readers_listed(a),
        collapse_step(a, b, idx),
    ensures
        forall|i: usize, x: usize| b.has(i as int) && b.has(x as int) && #[trigger] b.deps(i as int).contains(x)
            ==> b.dependents(x as int).contains(i) || (i == idx && a.deps(idx as int).contains(x)),
{
    let i0 = idx as int;
    let dep = a.deps(i0)[0];
    let active = a.has(i0) && !a.observable(i0) && a.deps(i0).len() == 1 && a.has(dep as int) && !(a.ty(i0) is Off
        || a.ty(i0) is On || a.ty(i0) is Lever);
    let removed = active && (!negated(a.ty(i0)) || (is_variadic(a.ty(dep as int)) && a.dependents(dep as int).len() == 1
        && !a.observable(dep as int)));
    assert forall|i: usize, x: usize| b.has(i as int) && b.has(x as int) && #[trigger] b.deps(i as int).contains(x)
        implies b.dependents(x as int).contains(i) || (i == idx && a.deps(idx as int).contains(x)) by {
        if !active {
            assert(b.deps(i as int).contains(x));
        } else if removed {
            assert(i != idx && x != idx);
            assert(a.has(i as int) && a.has(x as int));
            let m = choose|m: int| 0 <= m < b.deps(i as int).len() && b.deps(i as int)[m] == x;
            if a.dependents(i0).contains(i) && a.deps(i as int)[m] == idx {
                assert(b.deps(i as int)[m] == dep);
            } else {
                assert(a.deps(i as int)[m] == x);
                assert(a.deps(i as int).contains(x));
                assert(a.dependents(x as int).contains(i));
            }
        } else {
            assert(a.has(i as int) && a.has(x as int));
            if i != idx {
                assert(b.deps(i as int) == a.deps(i as int));
                assert(a.dependents(x as int).contains(i));
            }
        }
    }
}

/// True if `trace` collapses the gates of `order`, the last one first: each graph of `trace`
/// is the one before it with one more gate collapsed.
pub open spec fn collapse_run(trace: Seq<GateGraphBuilder>, order: Seq<usize>) -> bool {
    &&& trace.len() == order.len() + 1
    &&& forall|k: int| 0 <= k < order.len() ==> #[trigger] collapse_step(&trace[k], &trace[k + 1], order[order.len() - 1 - k])
}

/// True if `order` holds the gates of `g` that read a single other gate not reading them (see
/// [single_dependency_gate]), in increasing order.
pub open spec fn single_dependency_order(g: &GateGraphBuilder, order: Seq<usize>) -> bool {
    &&& forall|k: int| 0 <= k < order.len() ==> #[trigger] single_dependency_gate(g, order[k])
    &&& forall|i: usize| #[trigger] single_dependency_gate(g, i) ==> order.contains(i)
    &&& forall|a: int, b: int| 0 <= a < b < order.len() ==> order[a] < order[b]
}

/// True if `b` can come out of [single_dependency_collapsing_pass] run on `a`.
pub open spec fn collapsed(a: &GateGraphBuilder, b: &GateGraphBuilder) -> bool {
    &&& b.optimized_from(a)
    &&& observable_kept(a, b)
    &&& exists|order: Seq<usize>, trace: Seq<GateGraphBuilder>| #[trigger] collapse_run(trace, order)
        && single_dependency_order(a, order) && trace[0] == *a && trace.last() == *b
}

/// Collapses gate `idx` of `g` (see [collapse_step]).
fn collapse_one(g: &mut GateGraphBuilder, idx: usize)
    requires
        old(g).base_wf(),
    ensures
        final(g).optimized_from(old(g)),
        observable_kept(old(g), final(g)),
        collapse_step(old(g), final(g), idx),
{
    proof {
        g.lemma_optimized_refl();
    }
    let ty = match g.gate_type(idx) {
        None => {
            return;
        },
        Some(ty) => ty,
    };
    if g.is_observable(idx) {
        return;
    }
    let deps = g.dependencies_of(idx);
    if deps.len() != 1 {
        return;
    }
    let dependency = deps[0];
    proof {
        g.lemma_gate_ok(idx as int);
        g.lemma_consts();
        assert(g.deps(idx as int)[0] < g.num_slots());
    }
    let dep_ty = match g.gate_type(dependency) {
        None => {
            return;
        },
        Some(t) => t,
    };
    let ghost s0 = *g;
    match ty {
        GateType::Off | GateType::On | GateType::Lever => {},
        GateType::Not | GateType::Nand | GateType::Nor | GateType::Xnor => {
            if !dep_ty.has_negated_version() {
                g.set_type(idx, GateType::Not);
                proof {
                    GateGraphBuilder::lemma_optimized_trans(old(g), &s0, g);
                    lemma_observable_step(old(g), &s0, g, idx as int);
                    assert forall|j: usize| j != idx && s0.has(j as int) implies #[trigger] g.ty(j as int) == s0.ty(j as int) by {
                        assert(g.slots()[j as int] == s0.slots()[j as int]);
                    }
                    assert forall|j: usize| j != idx && s0.has(j as int) implies #[trigger] g.deps(j as int) == s0.deps(j as int) by {
                        assert(g.slots()[j as int] == s0.slots()[j as int]);
                    }
                    assert forall|j: int| #[trigger] g.has(j) == s0.has(j) by {
                        if j != idx as int && 0 <= j < g.slots().len() {
                            assert(g.slots()[j] == s0.slots()[j]);
                        }
                    }
                    assert(rewritten(&s0, g, idx, GateType::Not, s0.deps(idx as int)));
                }
                return;
            }
            if g.dependents_len(dependency) == 1 && !g.is_observable(dependency) {
                let dependents = g.take_dependents(idx);
                let ghost a = *g;
                g.remove_dependent(dependency, idx);
                let ghost b = *g;
                proof {
                    g.lemma_gate_ok(idx as int);
                }
                move_dependents(g, idx, dependency, &dependents);
                let ghost c = *g;
                proof {
                    GateGraphBuilder::lemma_optimized_trans(old(g), &s0, &a);
                    GateGraphBuilder::lemma_optimized_trans(old(g), &a, &b);
                    GateGraphBuilder::lemma_optimized_trans(old(g), &b, &c);
                    assert(b.has(dependency as int) && b.ty(dependency as int) == dep_ty);
                    assert(c.has(dependency as int));
                    c.lemma_gate_ok(dependency as int);
                }
                let negated = dep_ty.negated_version();
                g.set_type(dependency, negated);
                let ghost d = *g;
                proof {
                    GateGraphBuilder::lemma_optimized_trans(old(g), &c, &d);
                    assert(a.has(idx as int) && a.ty(idx as int) == ty);
                    assert(b.has(idx as int) && b.ty(idx as int) == ty) by {
                        if dependency != idx { assert(b.slots()[idx as int] == a.slots()[idx as int]); }
                    }
                    assert(c.has(idx as int) && c.ty(idx as int) == ty);
                    assert(d.has(idx as int));
                    assert(!(d.ty(idx as int) is Lever)) by {
                        if dependency != idx { assert(d.slots()[idx as int] == c.slots()[idx as int]); }
                    }
                    assert(!d.observable(idx as int));
                    d.lemma_consts();
                    lemma_observable_step(old(g), &s0, &a, idx as int);
                    lemma_observable_step(old(g), &a, &b, dependency as int);
                    assert(observable_kept(old(g), &c));
                    assert(!c.observable(dependency as int));
                    lemma_observable_step(old(g), &c, &d, dependency as int);
                }
                g.remove_gate(idx);
                proof {
                    GateGraphBuilder::lemma_optimized_trans(old(g), &d, g);
                    lemma_observable_step(old(g), &d, g, idx as int);
                    assert forall|j: usize| #![trigger g.has(j as int)] #![trigger g.ty(j as int)] #![trigger g.deps(j as int)]
                        j != idx && s0.has(j as int) implies g.has(j as int)
                        && g.ty(j as int) == (if j == dependency { negated_type(s0.ty(dependency as int)) } else { s0.ty(j as int) })
                        && g.deps(j as int) == (if s0.dependents(idx as int).contains(j) {
                            swapped(s0.deps(j as int), idx, dependency)
                        } else {
                            s0.deps(j as int)
                        }) by {
                        assert(a.slots()[j as int] == s0.slots()[j as int]);
                        if j != dependency { assert(b.slots()[j as int] == a.slots()[j as int]); }
                        assert(b.has(j as int));
                        assert(b.deps(j as int) == s0.deps(j as int));
                        assert(dependents@ == s0.dependents(idx as int));
                        assert(c.has(j as int) && c.ty(j as int) == b.ty(j as int));
                        if dependents@.contains(j) {
                            assert(c.deps(j as int) == swapped(b.deps(j as int), idx, dependency));
                        } else {
                            assert(c.deps(j as int) == b.deps(j as int));
                        }
                        if j != dependency { assert(d.slots()[j as int] == c.slots()[j as int]); }
                        assert(g.slots()[j as int] == d.slots()[j as int]);
                    }
                    assert forall|j: int| #[trigger] g.has(j) implies s0.has(j) by {}
                    assert forall|x: usize, y: usize| x != idx && y != idx && s0.has(x as int)
                        && #[trigger] s0.dependents(x as int).contains(y) implies g.dependents(x as int).contains(y) by {
                        assert(a.slots()[x as int] == s0.slots()[x as int]);
                        assert(a.dependents(x as int).contains(y));
                        if x != dependency {
                            assert(b.slots()[x as int] == a.slots()[x as int]);
                        } else {
                            lemma_swap_remove_keeps(a.dependents(x as int), idx, y);
                        }
                        assert(b.has(x as int));
                        assert(b.dependents(x as int).contains(y));
                        assert(c.dependents(x as int).contains(y));
                        if x != dependency { assert(d.slots()[x as int] == c.slots()[x as int]); }
                        assert(d.dependents(x as int).contains(y));
                        assert(g.slots()[x as int] == d.slots()[x as int]);
                    }
                    if s0.has(dependency as int) && dependency != idx {
                        assert forall|y: usize| y != idx && #[trigger] s0.dependents(idx as int).contains(y)
                            implies g.dependents(dependency as int).contains(y) by {
                            assert(dependents@.contains(y));
                            assert(b.has(dependency as int));
                            assert(c.dependents(dependency as int).contains(y));
                            assert(d.dependents(dependency as int).contains(y));
                            assert(g.slots()[dependency as int] == d.slots()[dependency as int]);
                        }
                    }
                    assert(collapsed_into(&s0, g, idx, dependency, negated_type(s0.ty(dependency as int))));
                }
            } else {
                let dep_deps = g.dependencies_of(dependency);
                proof {
                    g.lemma_gate_ok(dependency as int);
                }
                let ghost a = *g;
                g.set_type(idx, dep_ty.negated_version());
                let ghost b = *g;
                proof {
                    lemma_observable_step(old(g), &a, &b, idx as int);
                    assert forall|x: usize, y: usize| a.has(x as int) && #[trigger] a.dependents(x as int).contains(y)
                        implies b.dependents(x as int).contains(y) by {
                        if x != idx { assert(b.slots()[x as int] == a.slots()[x as int]); }
                    }
                }
                let mut k: usize = 0;
                while k < dep_deps.len()
                    invariant
                        g.optimized_from(old(g)),
                        b.optimized_from(old(g)),
                        g.num_slots() == b.num_slots(),
                        g.has(idx as int),
                        is_variadic(g.ty(idx as int)),
                        dep_deps@ == a.deps(dependency as int),
                        a.gate_ok(dependency as int),
                        a.num_slots() == g.num_slots(),
                        k <= dep_deps@.len(),
                        observable_kept(old(g), g),
                        !g.observable(idx as int),
                        forall|j: int| #[trigger] g.has(j) == b.has(j),
                        forall|j: int| b.has(j) ==> #[trigger] g.ty(j) == b.ty(j),
                        forall|j: int| b.has(j) ==> #[trigger] g.deps(j) == b.deps(j),
                        b.same_except(&a, idx as int),
                        forall|x: usize, y: usize| a.has(x as int) && #[trigger] a.dependents(x as int).contains(y)
                            ==> g.dependents(x as int).contains(y),
                        forall|q: int| 0 <= q < k && a.has(dep_deps@[q] as int) ==> g.dependents(
                            #[trigger] dep_deps@[q] as int).contains(idx),
                    decreases dep_deps@.len() - k,
                {
                    let dep_dep = dep_deps[k];
                    let ghost before = *g;
                    g.insert_dependent(dep_dep, idx);
                    proof {
                        GateGraphBuilder::lemma_optimized_trans(old(g), &before, g);
                        if dep_dep != idx { assert(g.slots()[idx as int] == before.slots()[idx as int]); }
                        lemma_observable_step(old(g), &before, g, dep_dep as int);
                        assert forall|j: int| #[trigger] g.has(j) == b.has(j) by {
                            assert(before.has(j) == b.has(j));
                            if j != dep_dep as int && 0 <= j < g.slots().len() {
                                assert(g.slots()[j] == before.slots()[j]);
                            }
                        }
                        assert forall|j: int| b.has(j) implies #[trigger] g.ty(j) == b.ty(j) by {
                            assert(before.has(j) == b.has(j));
                            assert(before.ty(j) == b.ty(j));
                            if j != dep_dep as int { assert(g.slots()[j] == before.slots()[j]); }
                        }
                        assert forall|j: int| b.has(j) implies #[trigger] g.deps(j) == b.deps(j) by {
                            assert(before.has(j) == b.has(j));
                            assert(before.deps(j) == b.deps(j));
                            if j != dep_dep as int { assert(g.slots()[j] == before.slots()[j]); }
                        }
                        assert forall|x: usize, y: usize| a.has(x as int) && #[trigger] a.dependents(x as int).contains(y)
                            implies g.dependents(x as int).contains(y) by {
                            assert(before.dependents(x as int).contains(y));
                            if x != idx { assert(b.slots()[x as int] == a.slots()[x as int]); }
                            if x != dep_dep {
                                assert(g.slots()[x as int] == before.slots()[x as int]);
                            } else {
                                assert(before.has(x as int));
                                lemma_set_insert_keeps(before.dependents(x as int), idx, y);
                            }
                        }
                        assert forall|q: int| 0 <= q < k + 1 && a.has(dep_deps@[q] as int) implies g.dependents(
                            #[trigger] dep_deps@[q] as int).contains(idx) by {
                            let e = dep_deps@[q];
                            if e != idx { assert(b.slots()[e as int] == a.slots()[e as int]); }
                            assert(before.has(e as int));
                            if q < k {
                                assert(before.dependents(e as int).contains(idx));
                            }
                            if e != dep_dep {
                                assert(g.slots()[e as int] == before.slots()[e as int]);
                            } else {
                                lemma_set_insert_keeps(before.dependents(e as int), idx, idx);
                            }
                        }
                    }
                    k = k + 1;
                }
                proof {
                    assert forall|k: int| 0 <= k < dep_deps@.len() implies #[trigger] dep_deps@[k] < g.num_slots() by {
                        assert(a.deps(dependency as int)[k] < a.num_slots());
                    }
                    GateGraphBuilder::lemma_optimized_trans(old(g), &a, &b);
                }
                let ghost c = *g;
                g.set_dependencies(idx, dep_deps);
                let ghost d = *g;
                g.remove_dependent(dependency, idx);
                proof {
                    GateGraphBuilder::lemma_optimized_trans(old(g), &c, &d);
                    GateGraphBuilder::lemma_optimized_trans(old(g), &d, g);
                    lemma_observable_step(old(g), &c, &d, idx as int);
                    lemma_observable_step(old(g), &d, g, dependency as int);
                    assert(a == s0);
                    assert forall|j: int| #[trigger] g.has(j) == s0.has(j) by {
                        if 0 <= j < g.slots().len() {
                            assert(c.has(j) == b.has(j));
                            if j != idx as int {
                                assert(b.slots()[j] == a.slots()[j]);
                                assert(d.slots()[j] == c.slots()[j]);
                            }
                            if j != dependency as int { assert(g.slots()[j] == d.slots()[j]); }
                        }
                    }
                    assert forall|j: usize| #![trigger g.ty(j as int)] #![trigger g.deps(j as int)]
                        j != idx && s0.has(j as int) implies g.ty(j as int) == s0.ty(j as int)
                        && g.deps(j as int) == s0.deps(j as int) by {
                        assert(b.slots()[j as int] == a.slots()[j as int]);
                        assert(b.has(j as int));
                        assert(c.ty(j as int) == b.ty(j as int));
                        assert(c.deps(j as int) == b.deps(j as int));
                        assert(d.slots()[j as int] == c.slots()[j as int]);
                        if j != dependency { assert(g.slots()[j as int] == d.slots()[j as int]); }
                    }
                    assert(g.deps(idx as int) == s0.deps(dependency as int)) by {
                        if dependency != idx { assert(g.slots()[idx as int] == d.slots()[idx as int]); }
                    }
                    assert(g.ty(idx as int) == negated_type(s0.ty(dependency as int))) by {
                        assert(c.has(idx as int));
                        assert(c.ty(idx as int) == b.ty(idx as int));
                        if dependency != idx { assert(g.slots()[idx as int] == d.slots()[idx as int]); }
                    }
                    assert(s0.deps(idx as int) =~= seq![dependency]);
                    assert forall|x: usize, y: usize| s0.has(x as int) && #[trigger] s0.dependents(x as int).contains(y)
                        && !(y == idx && s0.deps(idx as int).contains(x)) implies g.dependents(x as int).contains(y) by {
                        assert(c.dependents(x as int).contains(y));
                        assert(c.has(x as int));
                        if x != idx { assert(d.slots()[x as int] == c.slots()[x as int]); }
                        assert(d.dependents(x as int).contains(y));
                        if x != dependency {
                            assert(g.slots()[x as int] == d.slots()[x as int]);
                        } else {
                            assert(y != idx) by {
                                assert(s0.deps(idx as int)[0] == dependency);
                            }
                            lemma_swap_remove_keeps(d.dependents(x as int), idx, y);
                        }
                    }
                    assert forall|e: usize| s0.has(e as int) && #[trigger] s0.deps(dependency as int).contains(e)
                        && !s0.deps(idx as int).contains(e) implies g.dependents(e as int).contains(idx) by {
                        let q = choose|q: int| 0 <= q < dep_deps@.len() && dep_deps@[q] == e;
                        assert(c.dependents(dep_deps@[q] as int).contains(idx));
                        assert(c.has(e as int));
                        if e != idx { assert(d.slots()[e as int] == c.slots()[e as int]); }
                        assert(d.dependents(e as int).contains(idx));
                        assert(e != dependency) by {
                            assert(s0.deps(idx as int)[0] == dependency);
                        }
                        assert(g.slots()[e as int] == d.slots()[e as int]);
                    }
                    assert(rewritten(&s0, g, idx, negated_type(s0.ty(dependency as int)), s0.deps(dependency as int)));
                }
            }
        },
        GateType::And | GateType::Or | GateType::Xor => {
            let dependents = g.take_dependents(idx);
            let ghost a = *g;
            g.remove_dependent(dependency, idx);
            let ghost b = *g;
            proof {
                s0.lemma_gate_ok(idx as int);
            }
            move_dependents(g, idx, dependency, &dependents);
            let ghost c = *g;
            proof {
                GateGraphBuilder::lemma_optimized_trans(old(g), &s0, &a);
                GateGraphBuilder::lemma_optimized_trans(old(g), &a, &b);
                GateGraphBuilder::lemma_optimized_trans(old(g), &b, &c);
                assert(a.has(idx as int) && a.ty(idx as int) == ty);
                assert(b.has(idx as int) && b.ty(idx as int) == ty) by {
                    if dependency != idx { assert(b.slots()[idx as int] == a.slots()[idx as int]); }
                }
                assert(c.has(idx as int) && c.ty(idx as int) == ty);
                c.lemma_consts();
                lemma_observable_step(old(g), &s0, &a, idx as int);
                lemma_observable_step(old(g), &a, &b, dependency as int);
                assert(observable_kept(old(g), &c));
            }
            g.remove_gate(idx);
            proof {
                GateGraphBuilder::lemma_optimized_trans(old(g), &c, g);
                lemma_observable_step(old(g), &c, g, idx as int);
                assert forall|j: usize| #![trigger g.has(j as int)] #![trigger g.ty(j as int)] #![trigger g.deps(j as int)]
                    j != idx && s0.has(j as int) implies g.has(j as int)
                    && g.ty(j as int) == s0.ty(j as int)
                    && g.deps(j as int) == (if s0.dependents(idx as int).contains(j) {
                        swapped(s0.deps(j as int), idx, dependency)
                    } else {
                        s0.deps(j as int)
                    }) by {
                    assert(a.slots()[j as int] == s0.slots()[j as int]);
                    if j != dependency { assert(b.slots()[j as int] == a.slots()[j as int]); }
                    assert(b.has(j as int));
                    assert(b.deps(j as int) == s0.deps(j as int));
                    assert(dependents@ == s0.dependents(idx as int));
                    assert(c.has(j as int) && c.ty(j as int) == b.ty(j as int));
                    if dependents@.contains(j) {
                        assert(c.deps(j as int) == swapped(b.deps(j as int), idx, dependency));
                    } else {
                        assert(c.deps(j as int) == b.deps(j as int));
                    }
                    assert(g.slots()[j as int] == c.slots()[j as int]);
                }
                assert forall|j: int| #[trigger] g.has(j) implies s0.has(j) by {}
                assert forall|x: usize, y: usize| x != idx && y != idx && s0.has(x as int)
                    && #[trigger] s0.dependents(x as int).contains(y) implies g.dependents(x as int).contains(y) by {
                    assert(a.slots()[x as int] == s0.slots()[x as int]);
                    assert(a.dependents(x as int).contains(y));
                    if x != dependency {
                        assert(b.slots()[x as int] == a.slots()[x as int]);
                    } else {
                        lemma_swap_remove_keeps(a.dependents(x as int), idx, y);
                    }
                    assert(b.has(x as int));
                    assert(b.dependents(x as int).contains(y));
                    assert(c.dependents(x as int).contains(y));
                    assert(g.slots()[x as int] == c.slots()[x as int]);
                }
                if s0.has(dependency as int) && dependency != idx {
                    assert forall|y: usize| y != idx && #[trigger] s0.dependents(idx as int).contains(y)
                        implies g.dependents(dependency as int).contains(y) by {
                        assert(dependents@.contains(y));
                        assert(b.has(dependency as int));
                        assert(c.dependents(dependency as int).contains(y));
                        assert(g.slots()[dependency as int] == c.slots()[dependency as int]);
                    }
                }
                assert(collapsed_into(&s0, g, idx, dependency, s0.ty(dependency as int)));
            }
        },
    }
}

/// Simplifies the gates with a single dependency, taken from the last to the first (see
/// [single_dependency_order]) and each collapsed as [collapse_step] says: a non negated one is
/// replaced by its dependency, a negated one becomes a not gate, or the negated version of its
/// dependency (which it takes the place of when nothing else reads that one and it cannot be
/// observed). Every gate that can be observed keeps its type.
pub fn single_dependency_collapsing_pass(g: &mut GateGraphBuilder)
    requires
        old(g).base_wf(),
    ensures
        final(g).optimized_from(old(g)),
        observable_kept(old(g), final(g)),
        exists|order: Seq<usize>, trace: Seq<GateGraphBuilder>| #[trigger] collapse_run(trace, order)
            && single_dependency_order(old(g), order) && trace[0] == *old(g) && trace.last() == *final(g),
        collapsed(old(g), final(g)),
{
    proof {
        g.lemma_optimized_refl();
    }
    let mut work = single_dependency_gates(g);
    let ghost order = work@;
    let ghost mut trace: Seq<GateGraphBuilder> = seq![*g];
    while work.len() > 0
        invariant
            g.optimized_from(old(g)),
            observable_kept(old(g), g),
            single_dependency_order(old(g), order),
            work@ == order.take(work@.len() as int),
            work@.len() <= order.len(),
            trace.len() == order.len() - work@.len() + 1,
            forall|k: int| 0 <= k < trace.len() - 1 ==> #[trigger] collapse_step(&trace[k], &trace[k + 1], order[order.len() - 1 - k]),
            trace[0] == *old(g),
            trace.last() == *g,
        decreases work@.len(),
    {
        let ghost w = work@;
        let idx = work.pop().unwrap();
        let ghost before = *g;
        collapse_one(g, idx);
        proof {
            assert(work@ =~= order.take(work@.len() as int));
            assert(idx == order[order.len() - 1 - (trace.len() - 1)]);
            let t0 = trace;
            trace = trace.push(*g);
            assert forall|k: int| 0 <= k < trace.len() - 1 implies #[trigger] collapse_step(&trace[k], &trace[k + 1], order[order.len() - 1 - k]) by {
                if k < t0.len() - 1 {
                    assert(trace[k] == t0[k] && trace[k + 1] == t0[k + 1]);
                }
            }
            observable_trans(old(g), &before, g);
        }
    }
    proof {
        assert(collapse_run(trace, order));
    }
}

/// Keeping the gates that can be observed is transitive.
proof fn observable_trans(a: &GateGraphBuilder, b: &GateGraphBuilder, c: &GateGraphBuilder)
    requires
        observable_kept(a, b),
        observable_kept(b, c),
        b.output_set() == a.output_set(),
    ensures
        observable_kept(a, c),
{
    assert forall|i: int| #[trigger] a.has(i) && a.observable(i) implies c.has(i) && c.ty(i) == a.ty(i) by {
        assert(b.has(i) && b.observable(i));
    }
}

} // verus!
