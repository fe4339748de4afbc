use crate::graph::gate::{all_true, any_true, gate_output, is_variadic, negated_type, parity, GateIndex, GateType};
use crate::graph::graph_builder::GateGraphBuilder;
use crate::graph::optimizations::dead_code_elimination::lemma_swap_remove_keeps;
use crate::graph::optimizations::settling::{
    law_eval_settles, lemma_eval_all_index, lemma_set_insert_keeps, ranked, readers_listed,
};
use crate::graph::optimizations::single_dependency_collapsing::swapped;
use vstd::prelude::*;

verus! {

/// A gate to simplify, and the state of the constant that reached it.
struct WorkItem {
    idx: usize,
    on: bool,
}

/// Returns the constant opposite to `c` (ON for OFF, OFF for ON).
fn opposite(c: usize) -> (r: usize)
    requires
        c < 2,
    ensures
        r == 1 - c,
{
    GateIndex::new(c).opposite_if_const().unwrap().idx
}

/// True if every gate of `a` but `idx` is still in `b`, of the same type.
pub open spec fn kept_except(a: &GateGraphBuilder, b: &GateGraphBuilder, idx: int) -> bool {
    forall|i: int| i != idx && #[trigger] a.has(i) ==> b.has(i) && b.ty(i) == a.ty(i)
}

/// True if a constant of state `on` decides the output of a gate of type `ty` whatever its
/// other dependencies: a Not, an And or Nand reached by `OFF`, an Or or Nor reached by `ON`.
pub open spec fn decides(ty: GateType, on: bool) -> bool {
    ||| ty is Not
    ||| !on && (ty is And || ty is Nand)
    ||| on && (ty is Or || ty is Nor)
}

/// True if gate `i` of `g` cannot be observed, the constant of state `on` lists it among its
/// dependents, and that constant decides its output (see [decides]).
pub open spec fn const_decided(g: &GateGraphBuilder, i: usize, on: bool) -> bool {
    &&& g.has(i as int)
    &&& !g.observable(i as int)
    &&& g.dependents(if on { 1int } else { 0int }).contains(i)
    &&& decides(g.ty(i as int), on)
}

/// The work items as pairs of a gate and the state of the constant that reached it.
spec fn item_view(work: Seq<WorkItem>) -> Seq<(usize, bool)> {
    work.map_values(|w: WorkItem| (w.idx, w.on))
}

/// Pushing a work item adds its pair to the view.
proof fn lemma_item_view_push(work: Seq<WorkItem>, w: WorkItem)
    ensures
        item_view(work.push(w)) == item_view(work).push((w.idx, w.on)),
{
    assert(item_view(work.push(w)) =~= item_view(work).push((w.idx, w.on)));
}

/// Taking one more item of `ds` adds one pair.
proof fn lemma_items_take(ds: Seq<usize>, k: int, r: usize)
    requires
        0 <= k < ds.len(),
    ensures
        items_for(ds.take(k + 1), r) == items_for(ds.take(k), r).push((ds[k], r == 1)),
{
    assert(items_for(ds.take(k + 1), r) =~= items_for(ds.take(k), r).push((ds[k], r == 1)));
}

/// Popping a work item takes its pair off the view.
proof fn lemma_item_view_pop(work0: Seq<WorkItem>, work: Seq<WorkItem>, w: WorkItem)
    requires
        work0 == work.push(w),
    ensures
        item_view(work0).len() > 0,
        item_view(work0).last() == (w.idx, w.on),
        item_view(work) == item_view(work0).drop_last(),
{
    assert(item_view(work) =~= item_view(work0).drop_last());
}

/// A run of steps followed by one more step is a run of steps.
proof fn lemma_const_push(t: Seq<(GateGraphBuilder, Seq<(usize, bool)>)>, b: (GateGraphBuilder, Seq<(usize, bool)>))
    requires
        const_run(t),
        const_step(t.last(), b),
    ensures
        const_run(t.push(b)),
        t.push(b)[0] == t[0],
        t.push(b).last() == b,
{
    let c = t.push(b);
    assert forall|k: int| 0 <= k < c.len() - 1 implies #[trigger] const_step(c[k], c[k + 1]) by {
        if k < t.len() - 1 {
            assert(c[k] == t[k] && c[k + 1] == t[k + 1]);
        } else {
            assert(c[k] == t.last());
        }
    }
}

/// True if one of the work items is for gate `i` with a constant of state `on`.
spec fn in_work(work: Seq<WorkItem>, i: usize, on: bool) -> bool {
    exists|k: int| 0 <= k < work.len() && work[k].idx == i && work[k].on == on
}

/// True if every gate but `idx` is in `b` exactly when it is in `a`, and those of `a` keep
/// their types and dependencies.
pub open spec fn others_kept(a: &GateGraphBuilder, b: &GateGraphBuilder, idx: usize) -> bool {
    &&& forall|j: int| j != idx as int ==> #[trigger] b.has(j) == a.has(j)
    &&& forall|j: usize| j != idx && a.has(j as int) ==> #[trigger] b.ty(j as int) == a.ty(j as int)
    &&& forall|j: usize| j != idx && a.has(j as int) ==> #[trigger] b.deps(j as int) == a.deps(j as int)
}

/// What gate `idx` of `g`, reached by a constant of state `on`, is replaced with: the
/// opposite constant for a Not gate, and otherwise as [and_or_replacement] and
/// [xor_replacement] say; nothing for a constant or a lever.
pub open spec fn const_replacement(g: &GateGraphBuilder, idx: usize, on: bool) -> Option<usize> {
    let ds = g.deps(idx as int);
    match g.ty(idx as int) {
        GateType::Not => Some(if on { 0usize } else { 1usize }),
        GateType::And => and_or_replacement(ds, on, 0, false),
        GateType::Nand => and_or_replacement(ds, on, 0, true),
        GateType::Or => and_or_replacement(ds, on, 1, false),
        GateType::Nor => and_or_replacement(ds, on, 1, true),
        GateType::Xor => xor_replacement(ds, on, false),
        GateType::Xnor => xor_replacement(ds, on, true),
        _ => None,
    }
}

/// True if gate `idx` of `g`, reached by a constant of state `on`, turns into a Not of its
/// non constant dependency (see [and_or_becomes_not] and [xor_becomes_not]).
pub open spec fn const_becomes_not(g: &GateGraphBuilder, idx: usize, on: bool) -> bool {
    let ds = g.deps(idx as int);
    match g.ty(idx as int) {
        GateType::And => and_or_becomes_not(ds, on, 0, false),
        GateType::Nand => and_or_becomes_not(ds, on, 0, true),
        GateType::Or => and_or_becomes_not(ds, on, 1, false),
        GateType::Nor => and_or_becomes_not(ds, on, 1, true),
        GateType::Xor => xor_becomes_not(ds, on, false),
        GateType::Xnor => xor_becomes_not(ds, on, true),
        _ => false,
    }
}

/// True if `b` is `a` without gate `idx`, each gate that `a` lists as a dependent of `idx`
/// reading `r` where it read `idx` and listed among the dependents of `r`, every other gate
/// unchanged in type and dependencies, and no gate losing a dependent but `idx`.
pub open spec fn replaced_by(a: &GateGraphBuilder, b: &GateGraphBuilder, idx: usize, r: usize) -> bool {
    &&& !b.has(idx as int)
    &&& forall|j: int| j != idx as int ==> #[trigger] b.has(j) == a.has(j)
    &&& forall|j: usize| j != idx && a.has(j as int) ==> #[trigger] b.ty(j as int) == a.ty(j as int)
    &&& forall|j: usize| j != idx && a.has(j as int) ==> #[trigger] b.deps(j as int) == (if a.dependents(idx as int).contains(j) {
        swapped(a.deps(j as int), idx, r)
    } else {
        a.deps(j as int)
    })
    &&& a.has(r as int) && r != idx ==> forall|y: usize| y != idx && #[trigger] a.dependents(idx as int).contains(y)
        ==> b.dependents(r as int).contains(y)
    &&& forall|x: usize, y: usize| x != idx && y != idx && a.has(x as int) && #[trigger] a.dependents(x as int).contains(y)
        ==> b.dependents(x as int).contains(y)
}

/// True if `b` is `a` with gate `idx` turned into a Not of its last non constant dependency.
pub open spec fn turned_not(a: &GateGraphBuilder, b: &GateGraphBuilder, idx: usize) -> bool {
    &&& b.has(idx as int)
    &&& b.ty(idx as int) is Not
    &&& b.deps(idx as int) == seq![a.deps(idx as int)[last_non_const(a.deps(idx as int))]]
    &&& others_kept(a, b, idx)
}

/// The dependencies `ds` that are not constants, in order.
pub open spec fn non_consts(ds: Seq<usize>) -> Seq<usize>
    decreases ds.len(),
{
    if ds.len() == 0 {
        Seq::empty()
    } else if ds.last() >= 2 {
        non_consts(ds.drop_last()).push(ds.last())
    } else {
        non_consts(ds.drop_last())
    }
}

/// True if gate `idx` of `g` is an And, Nand, Or, Nor, Xor or Xnor gate that reads a constant
/// and also some other gate.
pub open spec fn const_trims(g: &GateGraphBuilder, idx: usize) -> bool {
    &&& is_variadic(g.ty(idx as int))
    &&& last_non_const(g.deps(idx as int)) >= 0
    &&& non_consts(g.deps(idx as int)).len() < g.deps(idx as int).len()
}

/// The type gate `idx` of `g` takes when its constant dependencies are dropped: an Xor or
/// Xnor gate that read `ON` an odd number of times is negated, any other keeps its type.
pub open spec fn trimmed_type(g: &GateGraphBuilder, idx: usize) -> GateType {
    let ty = g.ty(idx as int);
    if (ty is Xor || ty is Xnor) && odd_ons(g.deps(idx as int)) {
        negated_type(ty)
    } else {
        ty
    }
}

/// True if `b` is `a` with the constant dependencies of gate `idx` dropped, and the type that
/// keeps its output (see [trimmed_type]).
pub open spec fn trimmed(a: &GateGraphBuilder, b: &GateGraphBuilder, idx: usize) -> bool {
    &&& b.has(idx as int)
    &&& b.ty(idx as int) == trimmed_type(a, idx)
    &&& b.deps(idx as int) == non_consts(a.deps(idx as int))
    &&& others_kept(a, b, idx)
}

/// Returns whether gate `idx` of `g` reads both constants and other gates and is an And,
/// Nand, Or, Nor, Xor or Xnor gate (see [const_trims]).
fn trims(g: &GateGraphBuilder, idx: usize) -> (r: bool)
    requires
        g.base_wf(),
        g.has(idx as int),
    ensures
        r == const_trims(g, idx),
{
    let ty = g.gate_type(idx).unwrap();
    if !ty.has_negated_version() {
        return false;
    }
    let deps = g.dependencies_of(idx);
    let mut any_const = false;
    let mut any_other = false;
    let mut k: usize = 0;
    while k < deps.len()
        invariant
            k <= deps@.len(),
            any_const == (non_consts(deps@.take(k as int)).len() < k),
            any_other == (last_non_const(deps@.take(k as int)) >= 0),
            non_consts(deps@.take(k as int)).len() <= k,
        decreases deps@.len() - k,
    {
        proof {
            assert(deps@.take(k + 1).drop_last() =~= deps@.take(k as int));
            assert(deps@.take(k + 1).last() == deps@[k as int]);
        }
        if deps[k] >= 2 {
            any_other = true;
        } else {
            any_const = true;
        }
        k = k + 1;
    }
    proof {
        assert(deps@.take(deps@.len() as int) =~= deps@);
    }
    any_const && any_other
}

/// Drops the constant dependencies of gate `idx` (see [trimmed]): an And, Nand, Or or Nor
/// gate not decided by its constants, or an Xor or Xnor gate, that also reads some other gate
/// computes the same without them.
fn drop_constants(g: &mut GateGraphBuilder, idx: usize)
    requires
        old(g).base_wf(),
        old(g).has(idx as int),
        is_variadic(old(g).ty(idx as int)),
    ensures
        final(g).optimized_from(old(g)),
        final(g).free() == old(g).free(),
        trimmed(old(g), final(g), idx),
        kept_except(old(g), final(g), idx as int),
{
    proof {
        g.lemma_optimized_refl();
        g.lemma_gate_ok(idx as int);
    }
    let deps = g.dependencies_of(idx);
    let mut kept: Vec<usize> = Vec::new();
    let mut flip = false;
    let mut k: usize = 0;
    while k < deps.len()
        invariant
            k <= deps@.len(),
            kept@ == non_consts(deps@.take(k as int)),
            flip == odd_ons(deps@.take(k as int)),
            kept@.len() <= k,
            forall|j: int| 0 <= j < kept@.len() ==> #[trigger] kept@[j] < old(g).num_slots(),
            deps@ == old(g).deps(idx as int),
            old(g).gate_ok(idx as int),
        decreases deps@.len() - k,
    {
        proof {
            assert(deps@.take(k + 1).drop_last() =~= deps@.take(k as int));
            assert(deps@.take(k + 1).last() == deps@[k as int]);
            assert(deps@[k as int] < old(g).num_slots());
        }
        let d = deps[k];
        if d >= 2 {
            kept.push(d);
        } else if d == 1 {
            flip = !flip;
        }
        k = k + 1;
    }
    proof {
        assert(deps@.take(deps@.len() as int) =~= deps@);
    }
    let ty = g.gate_type(idx).unwrap();
    let ghost s0 = *g;
    g.set_dependencies(idx, kept);
    let ghost s1 = *g;
    if flip && matches!(ty, GateType::Xor | GateType::Xnor) {
        g.set_type(idx, ty.negated_version());
    }
    let ghost s2 = *g;
    g.remove_dependent(0, idx);
    let ghost s3 = *g;
    g.remove_dependent(1, idx);
    proof {
        GateGraphBuilder::lemma_optimized_trans(&s0, &s1, &s2);
        GateGraphBuilder::lemma_optimized_trans(&s0, &s2, &s3);
        GateGraphBuilder::lemma_optimized_trans(&s0, &s3, g);
        s0.lemma_consts();
        assert(idx >= 2) by {
            if idx < 2 { assert(s0.ty(idx as int) is Off || s0.ty(idx as int) is On); }
        }
        assert(g.slots()[idx as int] == s3.slots()[idx as int]);
        assert(s3.slots()[idx as int] == s2.slots()[idx as int]);
        assert forall|j: int| j != idx as int implies #[trigger] g.has(j) == s0.has(j) by {
            if 0 <= j < g.num_slots() {
                assert(s1.slots()[j] == s0.slots()[j]);
                assert(s2.slots()[j] == s1.slots()[j]);
            }
        }
        assert forall|j: usize| j != idx && s0.has(j as int) implies #[trigger] g.ty(j as int) == s0.ty(j as int) by {
            assert(s1.slots()[j as int] == s0.slots()[j as int]);
            assert(s2.slots()[j as int] == s1.slots()[j as int]);
        }
        assert forall|j: usize| j != idx && s0.has(j as int) implies #[trigger] g.deps(j as int) == s0.deps(j as int) by {
            assert(s1.slots()[j as int] == s0.slots()[j as int]);
            assert(s2.slots()[j as int] == s1.slots()[j as int]);
        }
        assert forall|i: int| i != idx as int && #[trigger] s0.has(i) implies g.has(i) && g.ty(i) == s0.ty(i) by {
            assert(s1.slots()[i] == s0.slots()[i]);
            assert(s2.slots()[i] == s1.slots()[i]);
        }
    }
}

/// The work items for the dependents `ds` of a gate replaced by the constant `r`.
pub open spec fn items_for(ds: Seq<usize>, r: usize) -> Seq<(usize, bool)> {
    ds.map_values(|d: usize| (d, r == 1))
}

/// True if `b` follows `a` by handling the last work item of `a`, a gate and the state of the
/// constant that reached it: a gate that is gone or can be observed is left alone; a gate with
/// a replacement (see [const_replacement]) is replaced by it, and if that is a constant, its
/// dependents become work items; a gate that turns into a Not does so (see
/// [const_becomes_not]); any other gate stays.
pub open spec fn const_step(a: (GateGraphBuilder, Seq<(usize, bool)>), b: (GateGraphBuilder, Seq<(usize, bool)>)) -> bool {
    let idx = a.1.last().0;
    let on = a.1.last().1;
    let rest = a.1.drop_last();
    &&& a.1.len() > 0
    &&& if !a.0.has(idx as int) || a.0.observable(idx as int) {
        b.0 == a.0 && b.1 == rest
    } else {
        match const_replacement(&a.0, idx, on) {
            Some(r) => replaced_by(&a.0, &b.0, idx, r) && b.1 == (if r < 2 {
                rest + items_for(a.0.dependents(idx as int), r)
            } else {
                rest
            }),
            None => b.1 == rest && if const_becomes_not(&a.0, idx, on) {
                turned_not(&a.0, &b.0, idx)
            } else if const_trims(&a.0, idx) {
                trimmed(&a.0, &b.0, idx)
            } else {
                b.0 == a.0
            },
        }
    }
}

/// True if each pair of `trace` follows the one before it by a [const_step].
pub open spec fn const_run(trace: Seq<(GateGraphBuilder, Seq<(usize, bool)>)>) -> bool {
    &&& trace.len() >= 1
    &&& forall|k: int| 0 <= k < trace.len() - 1 ==> #[trigger] const_step(trace[k], trace[k + 1])
}

/// The work items for the dependents of the gates of `g` below `n` that have no dependencies
/// and are not levers, in index order, each as reached by `OFF`.
pub open spec fn empty_gate_items(g: &GateGraphBuilder, n: nat) -> Seq<(usize, bool)>
    decreases n,
{
    if n == 0 {
        Seq::empty()
    } else {
        let i = (n - 1) as int;
        empty_gate_items(g, (n - 1) as nat) + (if g.has(i) && !(g.ty(i) is Lever) && g.deps(i).len() == 0 {
            items_for(g.dependents(i), 0)
        } else {
            Seq::empty()
        })
    }
}

/// True if `b` is `a` with the dependents of `OFF` and `ON` cleared, and everything else
/// unchanged.
pub open spec fn constants_cleared(a: &GateGraphBuilder, b: &GateGraphBuilder) -> bool {
    &&& b.optimized_from(a)
    &&& others_kept(a, b, 0)
    &&& b.has(0) && b.ty(0) == a.ty(0) && b.deps(0) == a.deps(0)
    &&& b.has(1) && b.ty(1) == a.ty(1) && b.deps(1) == a.deps(1)
    &&& b.dependents(0).len() == 0
    &&& b.dependents(1).len() == 0
    &&& forall|j: int| j != 0 && j != 1 && a.has(j) ==> #[trigger] b.dependents(j) == a.dependents(j)
}

/// The first work items: the dependents of `OFF` and then those of `ON` in `a`, each as
/// reached by that constant, then those of the gates of `b` without dependencies (see
/// [empty_gate_items]).
pub open spec fn first_items(a: &GateGraphBuilder, b: &GateGraphBuilder) -> Seq<(usize, bool)> {
    items_for(a.dependents(0), 0) + items_for(a.dependents(1), 1) + empty_gate_items(b, b.num_slots())
}

/// True if `b` can come out of [const_propagation_pass] run on `a`.
pub open spec fn const_propagated(a: &GateGraphBuilder, b: &GateGraphBuilder) -> bool {
    &&& b.optimized_from(a)
    &&& forall|i: usize, on: bool| #[trigger] const_decided(a, i, on) ==> !b.has(i as int)
    &&& exists|trace: Seq<(GateGraphBuilder, Seq<(usize, bool)>)>| #[trigger] const_run(trace)
        && constants_cleared(a, &trace[0].0) && trace[0].1 == first_items(a, &trace[0].0)
        && trace.last() == (*b, Seq::<(usize, bool)>::empty())
}

/// Keeping the gates but one is transitive.
proof fn lemma_kept_trans(a: &GateGraphBuilder, b: &GateGraphBuilder, c: &GateGraphBuilder, idx: int)
    requires
        kept_except(a, b, idx),
        kept_except(b, c, idx),
    ensures
        kept_except(a, c, idx),
{
    assert forall|i: int| i != idx && #[trigger] a.has(i) implies c.has(i) && c.ty(i) == a.ty(i) by {
        assert(b.has(i));
    }
}

/// Pushing keeps the work items.
proof fn lemma_in_work_push(work: Seq<WorkItem>, x: WorkItem, i: usize, on: bool)
    requires
        in_work(work, i, on),
    ensures
        in_work(work.push(x), i, on),
{
    let k = choose|k: int| 0 <= k < work.len() && work[k].idx == i && work[k].on == on;
    assert(work.push(x)[k] == work[k]);
}

/// The position of the last dependency of `ds` that is no constant, or -1 if there is none.
pub open spec fn last_non_const(ds: Seq<usize>) -> int
    decreases ds.len(),
{
    if ds.len() == 0 {
        -1
    } else if ds.last() >= 2 {
        ds.len() - 1
    } else {
        last_non_const(ds.drop_last())
    }
}

/// True if an odd number of the dependencies `ds` are `ON`.
pub open spec fn odd_ons(ds: Seq<usize>) -> bool
    decreases ds.len(),
{
    if ds.len() == 0 {
        false
    } else {
        odd_ons(ds.drop_last()) != (ds.last() == 1)
    }
}

/// What an And, Nand, Or or Nor gate with the dependencies `ds`, reached by a constant of
/// state `on`, is replaced with: its decided output when the constant or one of the
/// dependencies is `short_circuit` or when all of them are constants; its only non constant
/// dependency when it has two and its output is not negated; nothing otherwise.
pub open spec fn and_or_replacement(ds: Seq<usize>, on: bool, short_circuit: usize, negated: bool) -> Option<usize> {
    let decided: usize = if negated { (1 - short_circuit) as usize } else { short_circuit };
    let p = last_non_const(ds);
    if on == (short_circuit == 1) {
        Some(decided)
    } else if ds.len() == 1 {
        Some((1 - decided) as usize)
    } else if ds.contains(short_circuit) {
        Some(decided)
    } else if p < 0 {
        Some((1 - decided) as usize)
    } else if ds.len() == 2 && !negated {
        Some(ds[p])
    } else {
        None
    }
}

/// True if an And, Nand, Or or Nor gate with the dependencies `ds` reached by a constant of
/// state `on` is turned into a Not of its non constant dependency: it is negated and has that
/// one and one other constant that does not decide it.
pub open spec fn and_or_becomes_not(ds: Seq<usize>, on: bool, short_circuit: usize, negated: bool) -> bool {
    &&& !(on == (short_circuit == 1) || ds.contains(short_circuit))
    &&& ds.len() == 2
    &&& last_non_const(ds) >= 0
    &&& negated
}

/// What an Xor or Xnor gate with the dependencies `ds`, reached by a constant of state `on`,
/// is replaced with: the constant it computes when all its dependencies are constants (a
/// single one being the constant `on`); its only non constant dependency when it has two and
/// the other does not negate it; nothing otherwise.
pub open spec fn xor_replacement(ds: Seq<usize>, on: bool, negated: bool) -> Option<usize> {
    let p = last_non_const(ds);
    if ds.len() == 1 {
        Some(if negated != on { 1usize } else { 0usize })
    } else if p < 0 {
        Some(if negated != odd_ons(ds) { 1usize } else { 0usize })
    } else if ds.len() == 2 && negated == on {
        Some(ds[p])
    } else {
        None
    }
}

/// True if an Xor or Xnor gate with the dependencies `ds` reached by a constant of state `on`
/// is turned into a Not of its non constant dependency.
pub open spec fn xor_becomes_not(ds: Seq<usize>, on: bool, negated: bool) -> bool {
    &&& ds.len() == 2
    &&& last_non_const(ds) >= 0
    &&& negated != on
}

/// The last non constant dependency of a prefix one longer is the new one if that is no
/// constant, and that of the prefix otherwise; the count of `ON`s goes the same way.
proof fn lemma_prefix_step(ds: Seq<usize>, i: int)
    requires
        0 <= i < ds.len(),
    ensures
        last_non_const(ds.subrange(0, i + 1)) == (if ds[i] >= 2 { i } else { last_non_const(ds.subrange(0, i)) }),
        odd_ons(ds.subrange(0, i + 1)) == (odd_ons(ds.subrange(0, i)) != (ds[i] == 1)),
        last_non_const(ds.subrange(0, i)) < i,
{
    assert(ds.subrange(0, i + 1).drop_last() =~= ds.subrange(0, i));
    lemma_last_non_const_bound(ds.subrange(0, i));
}

/// The last non constant dependency is a position of a non constant dependency.
proof fn lemma_last_non_const_bound(ds: Seq<usize>)
    ensures
        last_non_const(ds) < ds.len(),
        last_non_const(ds) >= 0 ==> ds[last_non_const(ds)] >= 2,
        last_non_const(ds) >= -1,
    decreases ds.len(),
{
    if ds.len() > 0 {
        lemma_last_non_const_bound(ds.drop_last());
    }
}

/// Every dependency that [non_consts] keeps is one of `ds`.
proof fn lemma_non_consts_within(ds: Seq<usize>)
    ensures
        forall|k: int| 0 <= k < non_consts(ds).len() ==> ds.contains(#[trigger] non_consts(ds)[k]),
    decreases ds.len(),
{
    if ds.len() > 0 {
        let t = ds.drop_last();
        lemma_non_consts_within(t);
        assert forall|k: int| 0 <= k < non_consts(ds).len() implies ds.contains(#[trigger] non_consts(ds)[k]) by {
            if k < non_consts(t).len() {
                assert(non_consts(ds)[k] == non_consts(t)[k]);
                let m = choose|m: int| 0 <= m < t.len() && t[m] == non_consts(t)[k];
                assert(ds[m] == t[m]);
            } else {
                assert(non_consts(ds)[k] == ds.last());
                assert(ds[ds.len() - 1] == ds.last());
            }
        }
    }
}

/// What the constants among `ds` contribute, with at least one level of fuel: all of `ds`
/// are true when those kept by [non_consts] are and `OFF` is not among them; any is true when
/// one of those is or `ON` is among them; and the parity is theirs, flipped for an odd number
/// of `ON`s.
proof fn lemma_constant_inputs(g: &GateGraphBuilder, levers: spec_fn(int) -> bool, ds: Seq<usize>, fuel: nat)
    requires
        g.base_wf(),
        fuel >= 1,
    ensures
        all_true(g.eval_all(levers, ds, fuel)) == (all_true(g.eval_all(levers, non_consts(ds), fuel)) && !ds.contains(0)),
        any_true(g.eval_all(levers, ds, fuel)) == (any_true(g.eval_all(levers, non_consts(ds), fuel)) || ds.contains(1)),
        parity(g.eval_all(levers, ds, fuel)) == (parity(g.eval_all(levers, non_consts(ds), fuel)) != odd_ons(ds)),
    decreases ds.len(),
{
    if ds.len() == 0 {
        assert(non_consts(ds) =~= ds);
    } else {
        let t = ds.drop_last();
        let x = ds.last();
        lemma_constant_inputs(g, levers, t, fuel);
        assert(ds =~= t.push(x));
        assert forall|y: usize| ds.contains(y) == (t.contains(y) || y == x) by {
            if ds.contains(y) && !t.contains(y) {
                let m = choose|m: int| 0 <= m < ds.len() && ds[m] == y;
                if m < t.len() {
                    assert(t[m] == ds[m]);
                }
            }
            if t.contains(y) {
                let m = choose|m: int| 0 <= m < t.len() && t[m] == y;
                assert(ds[m] == t[m]);
            }
            if y == x {
                assert(ds[ds.len() - 1] == x);
            }
        }
        let s = g.eval_all(levers, t, fuel);
        let e = g.eval(levers, x as int, fuel);
        let sd = g.eval_all(levers, ds, fuel);
        assert(sd == s.push(e));
        assert(sd.drop_last() =~= s);
        assert(all_true(sd) == (all_true(s) && e)) by {
            if all_true(s) && e {
                assert forall|k: int| 0 <= k < sd.len() implies sd[k] by {
                    if k < s.len() {
                        assert(sd[k] == s[k]);
                    }
                }
            }
            if all_true(sd) {
                assert forall|k: int| 0 <= k < s.len() implies s[k] by {
                    assert(sd[k] == s[k]);
                }
                assert(sd[s.len() as int] == e);
            }
        }
        assert(any_true(sd) == (any_true(s) || e)) by {
            if any_true(s) {
                let k = choose|k: int| 0 <= k < s.len() && s[k];
                assert(sd[k] == s[k]);
            }
            if e {
                assert(sd[s.len() as int] == e);
            }
            if any_true(sd) {
                let k = choose|k: int| 0 <= k < sd.len() && sd[k];
                if k < s.len() {
                    assert(sd[k] == s[k]);
                }
            }
        }
        let n = g.eval_all(levers, non_consts(t), fuel);
        g.lemma_consts();
        if x >= 2 {
            assert(non_consts(ds) == non_consts(t).push(x));
            let nd = g.eval_all(levers, non_consts(ds), fuel);
            assert(non_consts(ds).drop_last() =~= non_consts(t));
            assert(nd == n.push(e));
            assert(nd.drop_last() =~= n);
            assert(all_true(nd) == (all_true(n) && e)) by {
                if all_true(n) && e {
                    assert forall|k: int| 0 <= k < nd.len() implies nd[k] by {
                        if k < n.len() {
                            assert(nd[k] == n[k]);
                        }
                    }
                }
                if all_true(nd) {
                    assert forall|k: int| 0 <= k < n.len() implies n[k] by {
                        assert(nd[k] == n[k]);
                    }
                    assert(nd[n.len() as int] == e);
                }
            }
            assert(any_true(nd) == (any_true(n) || e)) by {
                if any_true(n) {
                    let k = choose|k: int| 0 <= k < n.len() && n[k];
                    assert(nd[k] == n[k]);
                }
                if e {
                    assert(nd[n.len() as int] == e);
                }
                if any_true(nd) {
                    let k = choose|k: int| 0 <= k < nd.len() && nd[k];
                    if k < n.len() {
                        assert(nd[k] == n[k]);
                    }
                }
            }
        } else if x == 0 {
            assert(non_consts(ds) == non_consts(t));
            assert(!e);
        } else {
            assert(non_consts(ds) == non_consts(t));
            assert(e);
        }
    }
}

/// Dropping the constants of a gate keeps what every gate settles to: where gate `idx` of `a`
/// has no replacement for a constant of state `on` (see [const_replacement]), so that it does
/// not read the constant that decides it, and `b` is `a` with its constant dependencies
/// dropped (see [trimmed]), every gate of `b` computes what it computes in `a` with any fuel
/// above its rank, whatever the levers, and the ranks still order `b`.
pub proof fn law_trimming_keeps_settled_states(a: &GateGraphBuilder, b: &GateGraphBuilder, rank: spec_fn(usize) -> nat,
    levers: spec_fn(int) -> bool, idx: usize, on: bool, j: usize, f: nat)
    requires
        a.base_wf(),
        ranked(a, rank),
        a.has(idx as int),
        is_variadic(a.ty(idx as int)),
        const_replacement(a, idx, on) is None,
        trimmed(a, b, idx),
        f > rank(j),
    ensures
        ranked(b, rank),
        b.eval(levers, j as int, f) == a.eval(levers, j as int, f),
    decreases rank(j),
{
    let ds = a.deps(idx as int);
    lemma_non_consts_within(ds);
    assert forall|i: usize, k: int| b.has(i as int) && 0 <= k < b.deps(i as int).len() implies #[trigger] rank(
        b.deps(i as int)[k]) < rank(i) by {
        if i == idx {
            assert(ds.contains(b.deps(i as int)[k]));
            let m = choose|m: int| 0 <= m < ds.len() && ds[m] == b.deps(i as int)[k];
            assert(rank(ds[m]) < rank(idx));
        } else {
            assert(a.has(i as int));
            assert(b.deps(i as int) == a.deps(i as int));
            assert(rank(a.deps(i as int)[k]) < rank(i));
        }
    }
    if a.has(j as int) {
        let g = (f - 1) as nat;
        let bs = b.deps(j as int);
        assert(b.has(j as int));
        lemma_eval_all_index(b, levers, bs, g);
        assert forall|k: int| 0 <= k < bs.len() implies #[trigger] b.eval_all(levers, bs, g)[k] == a.eval(levers,
            bs[k] as int, g) by {
            assert(rank(bs[k]) < rank(j));
            law_trimming_keeps_settled_states(a, b, rank, levers, idx, on, bs[k], g);
        }
        lemma_eval_all_index(a, levers, bs, g);
        assert(b.eval_all(levers, bs, g) =~= a.eval_all(levers, bs, g));
        if j == idx {
            assert(bs == non_consts(ds));
            let nc = non_consts(ds);
            if ds.len() > 0 {
                assert(rank(ds[0]) < rank(idx));
                lemma_constant_inputs(a, levers, ds, g);
            } else {
                assert(nc =~= ds);
            }
        } else {
            assert(bs == a.deps(j as int));
        }
    }
}

/// Turning a gate into a Not keeps what every gate settles to: where gate `idx` of `a` reads
/// the constant of state `on` and turns into a Not of its other dependency for it (see
/// [const_becomes_not]), and `b` is `a` with that done (see [turned_not]), every gate of `b`
/// computes what it computes in `a` with any fuel above its rank, whatever the levers, and
/// the ranks still order `b`.
pub proof fn law_turning_not_keeps_settled_states(a: &GateGraphBuilder, b: &GateGraphBuilder, rank: spec_fn(usize) -> nat,
    levers: spec_fn(int) -> bool, idx: usize, on: bool, j: usize, f: nat)
    requires
        a.base_wf(),
        ranked(a, rank),
        a.has(idx as int),
        a.deps(idx as int).contains(if on { 1usize } else { 0usize }),
        const_becomes_not(a, idx, on),
        turned_not(a, b, idx),
        f > rank(j),
    ensures
        ranked(b, rank),
        b.eval(levers, j as int, f) == a.eval(levers, j as int, f),
    decreases rank(j),
{
    let ds = a.deps(idx as int);
    let p = last_non_const(ds);
    lemma_last_non_const_bound(ds);
    assert forall|i: usize, k: int| b.has(i as int) && 0 <= k < b.deps(i as int).len() implies #[trigger] rank(
        b.deps(i as int)[k]) < rank(i) by {
        if i == idx {
            assert(b.deps(i as int)[k] == ds[p]);
            assert(rank(ds[p]) < rank(idx));
        } else {
            assert(a.has(i as int));
            assert(b.deps(i as int) == a.deps(i as int));
            assert(rank(a.deps(i as int)[k]) < rank(i));
        }
    }
    if a.has(j as int) {
        let g = (f - 1) as nat;
        let bs = b.deps(j as int);
        assert(b.has(j as int));
        lemma_eval_all_index(b, levers, bs, g);
        assert forall|k: int| 0 <= k < bs.len() implies #[trigger] b.eval_all(levers, bs, g)[k] == a.eval(levers,
            bs[k] as int, g) by {
            assert(rank(bs[k]) < rank(j));
            law_turning_not_keeps_settled_states(a, b, rank, levers, idx, on, bs[k], g);
        }
        if j == idx {
            let c: usize = if on { 1usize } else { 0usize };
            let q = 1 - p;
            assert(ds.len() == 2);
            assert(ds[q] == c) by {
                let m = choose|m: int| 0 <= m < ds.len() && ds[m] == c;
                assert(m != p);
            }
            a.lemma_consts();
            assert(rank(ds[0]) < rank(idx));
            lemma_eval_all_index(a, levers, ds, g);
            let s = a.eval_all(levers, ds, g);
            assert(s[q] == on);
            assert(b.eval(levers, j as int, f) == !a.eval(levers, ds[p] as int, g));
            assert(s[p] == a.eval(levers, ds[p] as int, g));
            assert(s.drop_last().drop_last() =~= Seq::<bool>::empty());
            assert(!parity(s.drop_last().drop_last()));
            assert(s.drop_last().last() == s[0]);
            assert(s.last() == s[1]);
            assert(parity(s.drop_last()) == s[0]);
            assert(parity(s) == (s[0] != s[1]));
            if all_true(s) {
                assert(s[p]);
            }
            if !s[p] {
                assert(!all_true(s));
            }
            if any_true(s) {
                let k = choose|k: int| 0 <= k < s.len() && s[k];
            }
            if s[p] {
                assert(any_true(s));
            }
            if on {
                assert forall|k: int| 0 <= k < s.len() && s[p] implies s[k] by {
                    if k != p {
                        assert(k == q);
                    }
                }
            }
        } else {
            lemma_eval_all_index(a, levers, bs, g);
            assert(bs == a.deps(j as int));
            assert(b.eval_all(levers, bs, g) =~= a.eval_all(levers, bs, g));
        }
    }
}

/// Where no dependency of `ds` is a non constant, all of them are constants and [non_consts]
/// keeps none.
proof fn lemma_all_consts(ds: Seq<usize>)
    requires
        last_non_const(ds) < 0,
    ensures
        forall|k: int| 0 <= k < ds.len() ==> #[trigger] ds[k] < 2,
        non_consts(ds) == Seq::<usize>::empty(),
    decreases ds.len(),
{
    if ds.len() > 0 {
        lemma_all_consts(ds.drop_last());
        assert forall|k: int| 0 <= k < ds.len() implies #[trigger] ds[k] < 2 by {
            if k < ds.len() - 1 {
                assert(ds.drop_last()[k] == ds[k]);
            }
        }
    }
}

/// A gate reading the constant of state `on` computes what its replacement for that constant
/// (see [const_replacement]) does, with any fuel above its rank.
proof fn lemma_replacement_state(a: &GateGraphBuilder, rank: spec_fn(usize) -> nat, levers: spec_fn(int) -> bool,
    idx: usize, on: bool, r: usize, g: nat)
    requires
        a.base_wf(),
        ranked(a, rank),
        a.has(idx as int),
        a.deps(idx as int).contains(if on { 1usize } else { 0usize }),
        a.ty(idx as int) is Not ==> a.deps(idx as int).len() == 1,
        const_replacement(a, idx, on) == Some(r),
        g > rank(idx),
    ensures
        a.eval(levers, r as int, g) == a.eval(levers, idx as int, g),
        r < 2 || rank(r) < rank(idx),
{
    let ds = a.deps(idx as int);
    let c: usize = if on { 1usize } else { 0usize };
    let h = (g - 1) as nat;
    let m = choose|m: int| 0 <= m < ds.len() && ds[m] == c;
    assert(rank(ds[m]) < rank(idx));
    a.lemma_consts();
    lemma_eval_all_index(a, levers, ds, h);
    lemma_last_non_const_bound(ds);
    let s = a.eval_all(levers, ds, h);
    assert(s[m] == on);
    let p = last_non_const(ds);
    let ty = a.ty(idx as int);
    assert(a.eval(levers, idx as int, g) == gate_output(ty, s, levers(idx as int)));
    if p >= 0 {
        assert(rank(ds[p]) < rank(idx));
    }
    if ty is Not {
        assert(m == 0);
        assert(a.eval(levers, r as int, g) == a.eval(levers, idx as int, g));
    } else if ty is Xor || ty is Xnor {
        if ds.len() == 1 {
            assert(s.drop_last() =~= Seq::<bool>::empty());
            assert(!parity(s.drop_last()));
            assert(a.eval(levers, r as int, g) == a.eval(levers, idx as int, g));
        } else if p < 0 {
            lemma_all_consts(ds);
            lemma_constant_inputs(a, levers, ds, h);
            assert(a.eval_all(levers, non_consts(ds), h) =~= Seq::<bool>::empty());
            assert(!parity(Seq::<bool>::empty()));
            assert(a.eval(levers, r as int, g) == a.eval(levers, idx as int, g));
        } else {
            assert(ds.len() == 2);
            assert(m != p);
            law_eval_settles(a, rank, levers, ds[p], h, g);
            assert(s.drop_last().drop_last() =~= Seq::<bool>::empty());
            assert(!parity(s.drop_last().drop_last()));
            assert(s.drop_last().last() == s[0]);
            assert(s.last() == s[1]);
            assert(parity(s.drop_last()) == s[0]);
            assert(parity(s) == (s[0] != s[1]));
            assert(a.eval(levers, r as int, g) == a.eval(levers, idx as int, g));
        }
    } else {
        a.lemma_gate_ok(idx as int);
        let sc: usize = if ty is And || ty is Nand { 0usize } else { 1usize };
        let neg = ty is Nand || ty is Nor;
        assert(ty is And || ty is Nand || ty is Or || ty is Nor);
        assert(const_replacement(a, idx, on) == and_or_replacement(ds, on, sc, neg));
        if on == (sc == 1) || ds.contains(sc) {
            let q = if on == (sc == 1) { m } else { choose|q: int| 0 <= q < ds.len() && ds[q] == sc };
            assert(s[q] == (sc == 1));
            if sc == 0 {
                assert(!all_true(s));
            } else {
                assert(any_true(s));
            }
            assert(a.eval(levers, r as int, g) == a.eval(levers, idx as int, g));
        } else if ds.len() == 1 || p < 0 {
            if p < 0 {
                lemma_all_consts(ds);
            }
            assert forall|k: int| 0 <= k < s.len() implies s[k] == (sc == 0) by {
                if ds.len() == 1 {
                    assert(k == m);
                } else {
                    assert(ds[k] < 2);
                    assert(ds[k] != sc);
                }
            }
            if sc == 1 && any_true(s) {
                let k = choose|k: int| 0 <= k < s.len() && s[k];
            }
            assert(a.eval(levers, r as int, g) == a.eval(levers, idx as int, g));
        } else {
            assert(ds.len() == 2);
            assert(m != p);
            law_eval_settles(a, rank, levers, ds[p], h, g);
            assert forall|k: int| 0 <= k < s.len() && k != p implies s[k] == (sc == 0) by {
                assert(k == m);
            }
            if sc == 0 {
                if s[p] {
                    assert forall|k: int| 0 <= k < s.len() implies s[k] by {
                        if k != p {
                            assert(s[k] == (sc == 0));
                        }
                    }
                }
            } else {
                if any_true(s) {
                    let k = choose|k: int| 0 <= k < s.len() && s[k];
                    if k != p {
                        assert(s[k] == (sc == 0));
                    }
                }
            }
            if all_true(s) {
                assert(s[p]);
            }
            if s[p] {
                assert(any_true(s));
            }
            assert(r == ds[p]);
            assert(a.eval(levers, r as int, g) == s[p]);
            assert(a.eval(levers, r as int, g) == a.eval(levers, idx as int, g));
        }
    }
}

/// Replacing a gate keeps what every other gate settles to: where gate `idx` of `a` reads the
/// constant of state `on`, every gate that reads it is listed among its dependents, a Not
/// reads nothing else, and `b` is `a` with `idx` replaced by its replacement for that
/// constant (see [const_replacement] and [replaced_by]), every other gate computes in `b` what
/// it computes in `a` with any fuel above its rank, whatever the levers, and the ranks, which
/// start from the constants, still order `b`.
pub proof fn law_replacing_keeps_settled_states(a: &GateGraphBuilder, b: &GateGraphBuilder, rank: spec_fn(usize) -> nat,
    levers: spec_fn(int) -> bool, idx: usize, on: bool, r: usize, j: usize, f: nat)
    requires
        a.base_wf(),
        ranked(a, rank),
        rank(0) == 0,
        rank(1) == 0,
        a.has(idx as int),
        a.deps(idx as int).contains(if on { 1usize } else { 0usize }),
        a.ty(idx as int) is Not ==> a.deps(idx as int).len() == 1,
        forall|i: usize| a.has(i as int) && #[trigger] a.deps(i as int).contains(idx) ==> a.dependents(idx as int).contains(i),
        const_replacement(a, idx, on) == Some(r),
        replaced_by(a, b, idx, r),
        j != idx,
        f > rank(j),
    ensures
        ranked(b, rank),
        b.eval(levers, j as int, f) == a.eval(levers, j as int, f),
    decreases rank(j),
{
    let levers0 = |i: int| false;
    lemma_replacement_state(a, rank, levers0, idx, on, r, rank(idx) + 1);
    assert forall|i: usize, k: int| b.has(i as int) && 0 <= k < b.deps(i as int).len() implies #[trigger] rank(
        b.deps(i as int)[k]) < rank(i) by {
        assert(i != idx);
        assert(a.has(i as int));
        assert(rank(a.deps(i as int)[k]) < rank(i));
        if a.dependents(idx as int).contains(i) && a.deps(i as int)[k] == idx {
            assert(b.deps(i as int)[k] == r);
        }
    }
    if a.has(j as int) {
        let g = (f - 1) as nat;
        let bs = b.deps(j as int);
        let ads = a.deps(j as int);
        assert(b.has(j as int));
        lemma_eval_all_index(b, levers, bs, g);
        lemma_eval_all_index(a, levers, ads, g);
        assert forall|k: int| 0 <= k < bs.len() implies #[trigger] b.eval_all(levers, bs, g)[k] == a.eval_all(levers, ads,
            g)[k] by {
            assert(rank(ads[k]) < rank(j));
            if ads[k] == idx {
                assert(a.deps(j as int).contains(idx));
                assert(bs[k] == r);
                lemma_replacement_state(a, rank, levers, idx, on, r, g);
                if r >= 2 {
                    assert(rank(r) < rank(idx));
                }
                assert(r != idx);
                law_replacing_keeps_settled_states(a, b, rank, levers, idx, on, r, r, g);
            } else {
                assert(bs[k] == ads[k]);
                law_replacing_keeps_settled_states(a, b, rank, levers, idx, on, r, ads[k], g);
            }
        }
        assert(b.eval_all(levers, bs, g) =~= a.eval_all(levers, ads, g));
    }
}

/// Replacing a gate keeps every reader listed: where every gate of `a` is listed among the
/// dependents of each gate it reads (see [readers_listed]) and `b` is `a` with gate `idx`
/// replaced by another gate `r` of `a` (see [replaced_by]), the same holds of `b`, so a
/// change of `r` reaches each gate that read `idx`.
pub proof fn law_replacing_keeps_readers_listed(a: &GateGraphBuilder, b: &GateGraphBuilder, idx: usize, r: usize)
    requires
        readers_listed(a),
        replaced_by(a, b, idx, r),
        a.has(r as int),
        r != idx,
    ensures
        readers_listed(b),
{
    assert forall|i: usize, x: usize| b.has(i as int) && b.has(x as int) && #[trigger] b.deps(i as int).contains(x)
        implies b.dependents(x as int).contains(i) by {
        assert(i != idx && x != idx);
        assert(a.has(i as int) && a.has(x as int));
        let m = choose|m: int| 0 <= m < b.deps(i as int).len() && b.deps(i as int)[m] == x;
        if a.dependents(idx as int).contains(i) && a.deps(i as int)[m] == idx {
            assert(b.deps(i as int)[m] == r);
        } else {
            assert(a.deps(i as int)[m] == x);
            assert(a.deps(i as int).contains(x));
            assert(a.dependents(x as int).contains(i));
        }
    }
}

/// Finds what an And, Nand, Or or Nor gate `idx` reached by a constant of state `on` can be
/// replaced with. `short_circuit` is the constant that decides such a gate (OFF for And and
/// Nand, ON for Or and Nor) and `negated` says whether its output is negated.
///
/// Returns a gate that can take its place, or `None` if it stays; a negated gate with one
/// constant and one other dependency becomes a Not of the other.
fn find_replacement(g: &mut GateGraphBuilder, idx: usize, on: bool, short_circuit: usize, negated: bool) -> (r: Option<usize>)
    requires
        old(g).base_wf(),
        old(g).has(idx as int),
        short_circuit < 2,
        negated ==> old(g).ty(idx as int) is Nand || old(g).ty(idx as int) is Nor,
        !(old(g).ty(idx as int) is Lever || old(g).ty(idx as int) is Off || old(g).ty(idx as int) is On),
    ensures
        final(g).optimized_from(old(g)),
        final(g).free() == old(g).free(),
        final(g).has(idx as int),
        !(final(g).ty(idx as int) is Lever || final(g).ty(idx as int) is Off || final(g).ty(idx as int) is On),
        r matches Some(x) ==> x < final(g).num_slots(),
        r == and_or_replacement(old(g).deps(idx as int), on, short_circuit, negated),
        and_or_becomes_not(old(g).deps(idx as int), on, short_circuit, negated) ==> final(g).ty(idx as int) is Not
            && final(g).deps(idx as int) == seq![old(g).deps(idx as int)[last_non_const(old(g).deps(idx as int))]],
        !and_or_becomes_not(old(g).deps(idx as int), on, short_circuit, negated) ==> *final(g) == *old(g),
        kept_except(old(g), final(g), idx as int),
        others_kept(old(g), final(g), idx),
        final(g).ty(idx as int) == old(g).ty(idx as int) || final(g).ty(idx as int) is Not,
{
    let short_circuit_output = if negated { opposite(short_circuit) } else { short_circuit };
    proof {
        g.lemma_optimized_refl();
        g.lemma_consts();
    }
    if on == (short_circuit == 1) {
        return Some(short_circuit_output);
    }
    let deps = g.dependencies_of(idx);
    let dependencies_len = deps.len();
    if dependencies_len == 1 {
        return Some(opposite(short_circuit_output));
    }
    let mut non_const_dependency: Option<(usize, usize)> = None;
    let mut i: usize = 0;
    while i < deps.len()
        invariant
            deps@ == g.deps(idx as int),
            *g == *old(g),
            g.free() == old(g).free(),
            short_circuit_output < 2,
            !(g.ty(idx as int) is Lever || g.ty(idx as int) is Off || g.ty(idx as int) is On),
            g.optimized_from(old(g)),
            g.has(0) && g.has(1),
            g.base_wf(),
            g.has(idx as int),
            i <= deps@.len(),
            non_const_dependency matches Some((d, p)) ==> p < deps@.len() && d == deps@[p as int],
            match non_const_dependency {
                Some((d, p)) => p == last_non_const(deps@.subrange(0, i as int)),
                None => last_non_const(deps@.subrange(0, i as int)) < 0,
            },
            !deps@.subrange(0, i as int).contains(short_circuit),
            on != (short_circuit == 1),
            deps@.len() != 1,
            short_circuit_output == (if negated { (1 - short_circuit) as usize } else { short_circuit }),
        decreases deps@.len() - i,
    {
        let dependency = deps[i];
        proof {
            lemma_prefix_step(deps@, i as int);
        }
        if dependency == short_circuit {
            proof {
                assert(deps@[i as int] == short_circuit);
            }
            return Some(short_circuit_output);
        }
        if !GateIndex::new(dependency).is_const() {
            non_const_dependency = Some((dependency, i));
        }
        proof {
            let pre = deps@.subrange(0, i as int);
            let post = deps@.subrange(0, i + 1);
            assert(post =~= pre.push(dependency));
            assert(!post.contains(short_circuit)) by {
                if post.contains(short_circuit) {
                    let j = choose|j: int| 0 <= j < post.len() && post[j] == short_circuit;
                    if j < i { assert(pre[j] == short_circuit); }
                }
            }
        }
        i = i + 1;
    }
    proof {
        assert(deps@.subrange(0, i as int) =~= deps@);
        lemma_last_non_const_bound(deps@);
    }
    proof {
        g.lemma_gate_ok(idx as int);
    }
    match non_const_dependency {
        Some((non_const_dependency, i)) => {
            proof {
                assert(g.deps(idx as int)[i as int] < g.num_slots());
            }
            if dependencies_len == 2 {
                if negated {
                    let removed_dep_idx: usize = if i == 0 { 1 } else { 0 };
                    let removed_dep = deps[removed_dep_idx];
                    let ghost a = *g;
                    g.remove_dependent(removed_dep, idx);
                    let ghost b = *g;
                    g.set_type(idx, GateType::Not);
                    let ghost c = *g;
                    g.remove_dependency_at(idx, removed_dep_idx);
                    proof {
                        GateGraphBuilder::lemma_optimized_trans(old(g), &a, &b);
                        GateGraphBuilder::lemma_optimized_trans(old(g), &b, &c);
                        GateGraphBuilder::lemma_optimized_trans(old(g), &c, g);
                        assert forall|j: int| j != idx as int && #[trigger] old(g).has(j) implies g.has(j) && g.ty(j) == old(g).ty(j) by {
                            assert(a.has(j));
                            if j != removed_dep as int { assert(b.slots()[j] == a.slots()[j]); }
                            assert(c.slots()[j] == b.slots()[j]);
                            assert(g.slots()[j] == c.slots()[j]);
                        }
                        assert forall|j: int| j != idx as int implies #[trigger] g.has(j) == old(g).has(j) by {
                            if 0 <= j < g.num_slots() {
                                if j != removed_dep as int { assert(b.slots()[j] == a.slots()[j]); }
                                assert(c.slots()[j] == b.slots()[j]);
                                assert(g.slots()[j] == c.slots()[j]);
                            }
                        }
                        assert forall|j: usize| j != idx && old(g).has(j as int) implies #[trigger] g.deps(j as int) == old(g).deps(j as int) by {
                            if j != removed_dep { assert(b.slots()[j as int] == a.slots()[j as int]); }
                            assert(c.slots()[j as int] == b.slots()[j as int]);
                            assert(g.slots()[j as int] == c.slots()[j as int]);
                        }
                    }
                    return None;
                } else {
                    return Some(non_const_dependency);
                }
            }
            None
        },
        None => Some(opposite(short_circuit_output)),
    }
}

/// Finds what an Xor or Xnor gate `idx` reached by a constant of state `on` can be replaced
/// with; `negated` says whether its output is negated.
///
/// Returns a gate that can take its place, or `None` if it stays; a gate with one constant
/// and one other dependency that negates the other becomes a Not of it.
fn find_replacement_xor(g: &mut GateGraphBuilder, idx: usize, on: bool, negated: bool) -> (r: Option<usize>)
    requires
        old(g).base_wf(),
        old(g).has(idx as int),
        !(old(g).ty(idx as int) is Lever || old(g).ty(idx as int) is Off || old(g).ty(idx as int) is On),
    ensures
        final(g).optimized_from(old(g)),
        final(g).free() == old(g).free(),
        final(g).has(idx as int),
        !(final(g).ty(idx as int) is Lever || final(g).ty(idx as int) is Off || final(g).ty(idx as int) is On),
        r matches Some(x) ==> x < final(g).num_slots(),
        r == xor_replacement(old(g).deps(idx as int), on, negated),
        xor_becomes_not(old(g).deps(idx as int), on, negated) ==> final(g).ty(idx as int) is Not
            && final(g).deps(idx as int) == seq![old(g).deps(idx as int)[last_non_const(old(g).deps(idx as int))]],
        !xor_becomes_not(old(g).deps(idx as int), on, negated) ==> *final(g) == *old(g),
        kept_except(old(g), final(g), idx as int),
        others_kept(old(g), final(g), idx),
        final(g).ty(idx as int) == old(g).ty(idx as int) || final(g).ty(idx as int) is Not,
{
    proof {
        g.lemma_optimized_refl();
        g.lemma_consts();
        g.lemma_gate_ok(idx as int);
    }
    let deps = g.dependencies_of(idx);
    let dependencies_len = deps.len();
    if dependencies_len == 1 {
        return Some(if negated != on { 1 } else { 0 });
    }
    let mut non_const_dependency: Option<(usize, usize)> = None;
    let mut output = negated;
    let mut i: usize = 0;
    while i < deps.len()
        invariant
            deps@ == g.deps(idx as int),
            *g == *old(g),
            i <= deps@.len(),
            non_const_dependency matches Some((d, p)) ==> p < deps@.len() && d == deps@[p as int],
            match non_const_dependency {
                Some((d, p)) => p == last_non_const(deps@.subrange(0, i as int)),
                None => last_non_const(deps@.subrange(0, i as int)) < 0,
            },
            last_non_const(deps@.subrange(0, i as int)) < 0 ==> output == (negated != odd_ons(deps@.subrange(0, i as int))),
        decreases deps@.len() - i,
    {
        let dependency = GateIndex::new(deps[i]);
        proof {
            lemma_prefix_step(deps@, i as int);
        }
        if dependency.is_const() {
            output = output != dependency.is_on();
        } else {
            non_const_dependency = Some((deps[i], i));
        }
        i = i + 1;
    }
    proof {
        assert(deps@.subrange(0, i as int) =~= deps@);
        lemma_last_non_const_bound(deps@);
        assert(deps@.subrange(0, 0) =~= Seq::<usize>::empty());
    }
    match non_const_dependency {
        Some((non_const_dependency, i)) => {
            proof {
                assert(g.deps(idx as int)[i as int] < g.num_slots());
            }
            if dependencies_len == 2 {
                if negated != on {
                    let removed_dep_idx: usize = if i == 0 { 1 } else { 0 };
                    let removed_dep = deps[removed_dep_idx];
                    let ghost a = *g;
                    g.remove_dependent(removed_dep, idx);
                    let ghost b = *g;
                    g.set_type(idx, GateType::Not);
                    let ghost c = *g;
                    g.remove_dependency_at(idx, removed_dep_idx);
                    proof {
                        GateGraphBuilder::lemma_optimized_trans(old(g), &a, &b);
                        GateGraphBuilder::lemma_optimized_trans(old(g), &b, &c);
                        GateGraphBuilder::lemma_optimized_trans(old(g), &c, g);
                        assert forall|j: int| j != idx as int && #[trigger] old(g).has(j) implies g.has(j) && g.ty(j) == old(g).ty(j) by {
                            assert(a.has(j));
                            if j != removed_dep as int { assert(b.slots()[j] == a.slots()[j]); }
                            assert(c.slots()[j] == b.slots()[j]);
                            assert(g.slots()[j] == c.slots()[j]);
                        }
                        assert forall|j: int| j != idx as int implies #[trigger] g.has(j) == old(g).has(j) by {
                            if 0 <= j < g.num_slots() {
                                if j != removed_dep as int { assert(b.slots()[j] == a.slots()[j]); }
                                assert(c.slots()[j] == b.slots()[j]);
                                assert(g.slots()[j] == c.slots()[j]);
                            }
                        }
                        assert forall|j: usize| j != idx && old(g).has(j as int) implies #[trigger] g.deps(j as int) == old(g).deps(j as int) by {
                            if j != removed_dep { assert(b.slots()[j as int] == a.slots()[j as int]); }
                            assert(c.slots()[j as int] == b.slots()[j as int]);
                            assert(g.slots()[j as int] == c.slots()[j as int]);
                        }
                    }
                    return None;
                } else {
                    return Some(non_const_dependency);
                }
            }
            None
        },
        None => Some(if output { 1 } else { 0 }),
    }
}

/// Traverses the graph forwards from the constants and from the gates with no dependencies,
/// replacing the gates they reach with simpler ones where the constant decides them.
///
/// The dependents of `OFF` and `ON` are first cleared and become work items, then those of
/// the gates without dependencies; the items are then handled last first, each as
/// [const_step] says, until none is left.
///
/// Among others, every gate that cannot be observed, that a constant lists among its
/// dependents and whose output that constant decides (a Not; an And or Nand listed by `OFF`;
/// an Or or Nor listed by `ON`) is replaced by a constant and removed.
#[verifier::rlimit(60)]
#[verifier::spinoff_prover]
pub fn const_propagation_pass(g: &mut GateGraphBuilder)
    requires
        old(g).base_wf(),
    ensures
        final(g).optimized_from(old(g)),
        forall|i: usize, on: bool| #[trigger] const_decided(old(g), i, on) ==> !final(g).has(i as int),
        exists|trace: Seq<(GateGraphBuilder, Seq<(usize, bool)>)>| #[trigger] const_run(trace)
            && constants_cleared(old(g), &trace[0].0) && trace[0].1 == first_items(old(g), &trace[0].0)
            && trace.last() == (*final(g), Seq::<(usize, bool)>::empty()),
        const_propagated(old(g), final(g)),
{
    proof {
        g.lemma_optimized_refl();
        g.lemma_consts();
    }
    let mut work: Vec<WorkItem> = Vec::new();
    let off_dependents = g.take_dependents(0);
    let ghost a = *g;
    let on_dependents = g.take_dependents(1);
    proof {
        GateGraphBuilder::lemma_optimized_trans(old(g), &a, g);
        assert(a.slots()[1] == old(g).slots()[1]);
        assert forall|i: int| #[trigger] old(g).has(i) implies g.has(i) && g.ty(i) == old(g).ty(i) by {
            if i != 0 { assert(a.slots()[i] == old(g).slots()[i]); }
            if i != 1 { assert(g.slots()[i] == a.slots()[i]); }
        }
        assert forall|j: int| j != 0 implies #[trigger] g.has(j) == old(g).has(j) by {
            if 0 <= j < g.num_slots() {
                assert(a.slots()[j] == old(g).slots()[j]);
                if j != 1 { assert(g.slots()[j] == a.slots()[j]); }
            }
        }
        assert forall|j: usize| j != 0 && old(g).has(j as int) implies #[trigger] g.deps(j as int) == old(g).deps(j as int) by {
            assert(a.slots()[j as int] == old(g).slots()[j as int]);
            if j != 1 { assert(g.slots()[j as int] == a.slots()[j as int]); }
        }
        assert forall|j: usize| j != 0 && old(g).has(j as int) implies #[trigger] g.ty(j as int) == old(g).ty(j as int) by {
            assert(a.slots()[j as int] == old(g).slots()[j as int]);
            if j != 1 { assert(g.slots()[j as int] == a.slots()[j as int]); }
        }
        assert forall|j: int| j != 0 && j != 1 && old(g).has(j) implies #[trigger] g.dependents(j) == old(g).dependents(j) by {
            assert(a.slots()[j] == old(g).slots()[j]);
            assert(g.slots()[j] == a.slots()[j]);
        }
        assert(g.slots()[0] == a.slots()[0]);
        assert(constants_cleared(old(g), g));
    }
    let ghost cleared = *g;
    let mut k: usize = 0;
    while k < off_dependents.len()
        invariant
            k <= off_dependents@.len(),
            forall|j: int| 0 <= j < k ==> in_work(work@, #[trigger] off_dependents@[j], false),
            item_view(work@) == items_for(off_dependents@.take(k as int), 0),
        decreases off_dependents@.len() - k,
    {
        let item = WorkItem { idx: off_dependents[k], on: false };
        let ghost prev = work@;
        work.push(item);
        proof {
            assert forall|j: int| 0 <= j < k + 1 implies in_work(work@, #[trigger] off_dependents@[j], false) by {
                if j < k { lemma_in_work_push(prev, item, off_dependents@[j], false); } else { assert(work@[prev.len() as int] == item); }
            }
            lemma_item_view_push(prev, item);
            lemma_items_take(off_dependents@, k as int, 0);
        }
        k = k + 1;
    }
    proof {
        assert(off_dependents@.take(off_dependents@.len() as int) =~= off_dependents@);
    }
    let mut k: usize = 0;
    while k < on_dependents.len()
        invariant
            k <= on_dependents@.len(),
            forall|j: int| 0 <= j < off_dependents@.len() ==> in_work(work@, #[trigger] off_dependents@[j], false),
            forall|j: int| 0 <= j < k ==> in_work(work@, #[trigger] on_dependents@[j], true),
            item_view(work@) == items_for(off_dependents@, 0) + items_for(on_dependents@.take(k as int), 1),
        decreases on_dependents@.len() - k,
    {
        let item = WorkItem { idx: on_dependents[k], on: true };
        let ghost prev = work@;
        work.push(item);
        proof {
            lemma_item_view_push(prev, item);
            lemma_items_take(on_dependents@, k as int, 1);
            assert(items_for(off_dependents@, 0) + items_for(on_dependents@.take(k + 1), 1)
                =~= (items_for(off_dependents@, 0) + items_for(on_dependents@.take(k as int), 1)).push((item.idx, item.on)));
            assert forall|j: int| 0 <= j < k + 1 implies in_work(work@, #[trigger] on_dependents@[j], true) by {
                if j < k { lemma_in_work_push(prev, item, on_dependents@[j], true); } else { assert(work@[prev.len() as int] == item); }
            }
            assert forall|j: int| 0 <= j < off_dependents@.len() implies in_work(work@, #[trigger] off_dependents@[j], false) by {
                lemma_in_work_push(prev, item, off_dependents@[j], false);
            }
        }
        k = k + 1;
    }
    proof {
        assert forall|i: usize, on: bool| #[trigger] const_decided(old(g), i, on) implies in_work(work@, i, on) by {
            if !on {
                let j = choose|j: int| 0 <= j < off_dependents@.len() && off_dependents@[j] == i;
                assert(in_work(work@, off_dependents@[j], false));
            } else {
                assert(on_dependents@ == old(g).dependents(1));
                let j = choose|j: int| 0 <= j < on_dependents@.len() && on_dependents@[j] == i;
                assert(in_work(work@, on_dependents@[j], true));
            }
        }
    }
    proof {
        assert(on_dependents@.take(on_dependents@.len() as int) =~= on_dependents@);
    }
    let ghost base = item_view(work@);
    let n = g.total_len();
    let mut i: usize = 0;
    while i < n
        invariant
            g.optimized_from(old(g)),
            n == g.num_slots(),
            forall|i: int| #[trigger] old(g).has(i) ==> g.has(i) && g.ty(i) == old(g).ty(i),
            forall|i: usize, on: bool| #[trigger] const_decided(old(g), i, on) ==> in_work(work@, i, on),
            *g == cleared,
            i <= n,
            item_view(work@) == base + empty_gate_items(g, i as nat),
        decreases n - i,
    {
        let ghost before_i = item_view(work@);
        match g.gate_type(i) {
            Some(ty) => {
                if !ty.is_lever() && g.dependencies_of(i).len() == 0 {
                    let dependents = g.dependents_of(i);
                    let mut k: usize = 0;
                    while k < dependents.len()
                        invariant
                            k <= dependents@.len(),
                            forall|i: usize, on: bool| #[trigger] const_decided(old(g), i, on) ==> in_work(work@, i, on),
                            item_view(work@) == before_i + items_for(dependents@.take(k as int), 0),
                        decreases dependents@.len() - k,
                    {
                        let item = WorkItem { idx: dependents[k], on: false };
                        let ghost prev = work@;
                        work.push(item);
                        proof {
                            assert forall|i: usize, on: bool| #[trigger] const_decided(old(g), i, on) implies in_work(work@, i, on) by {
                                lemma_in_work_push(prev, item, i, on);
                            }
                            lemma_item_view_push(prev, item);
                            lemma_items_take(dependents@, k as int, 0);
                            assert(before_i + items_for(dependents@.take(k + 1), 0)
                                =~= (before_i + items_for(dependents@.take(k as int), 0)).push((item.idx, item.on)));
                        }
                        k = k + 1;
                    }
                    proof {
                        assert(dependents@.take(dependents@.len() as int) =~= dependents@);
                    }
                } else {
                    proof {
                        assert(before_i + Seq::<(usize, bool)>::empty() =~= before_i);
                    }
                }
            },
            None => {
                proof {
                    assert(before_i + Seq::<(usize, bool)>::empty() =~= before_i);
                }
            },
        }
        proof {
            assert(base + empty_gate_items(g, (i + 1) as nat) =~= item_view(work@));
        }
        i = i + 1;
    }
    proof {
        g.lemma_consts();
        assert(item_view(work@) == first_items(old(g), &cleared));
    }
    let ghost mut trace: Seq<(GateGraphBuilder, Seq<(usize, bool)>)> = seq![(*g, item_view(work@))];
    while work.len() > 0
        invariant
            g.optimized_from(old(g)),
            g.free().len() < g.num_slots(),
            forall|i: usize, on: bool| #[trigger] const_decided(old(g), i, on) ==> !g.has(i as int)
                || (decides(g.ty(i as int), on) && in_work(work@, i, on)),
            const_run(trace),
            constants_cleared(old(g), &trace[0].0),
            trace[0].1 == first_items(old(g), &trace[0].0),
            trace.last() == (*g, item_view(work@)),
        decreases g.num_slots() - g.free().len(), work@.len(),
    {
        let ghost work0 = work@;
        let item = work.pop().unwrap();
        let idx = item.idx;
        let on = item.on;
        proof {
            assert(work0 == work@.push(item));
            lemma_item_view_pop(work0, work@, item);
            assert forall|i: usize, o: bool| #[trigger] const_decided(old(g), i, o) && g.has(i as int) && !(i == idx && o == on)
                implies in_work(work@, i, o) by {
                let k = choose|k: int| 0 <= k < work0.len() && work0[k].idx == i && work0[k].on == o;
                assert(k < work@.len());
                assert(work@[k] == work0[k]);
            }
        }
        let ty = match g.gate_type(idx) {
            None => {
                proof {
                    assert forall|i: usize, o: bool| #[trigger] const_decided(old(g), i, o) implies !g.has(i as int)
                        || (decides(g.ty(i as int), o) && in_work(work@, i, o)) by {
                    }
                    lemma_const_push(trace, (*g, item_view(work@)));
                    trace = trace.push((*g, item_view(work@)));
                }
                continue;
            },
            Some(ty) => ty,
        };
        if g.is_observable(idx) {
            proof {
                assert forall|i: usize, o: bool| #[trigger] const_decided(old(g), i, o) implies !g.has(i as int)
                    || (decides(g.ty(i as int), o) && in_work(work@, i, o)) by {
                    if g.has(i as int) && i == idx {
                        assert(g.output_set() == old(g).output_set());
                        assert(!(g.ty(i as int) is Lever));
                    }
                }
                lemma_const_push(trace, (*g, item_view(work@)));
                trace = trace.push((*g, item_view(work@)));
            }
            continue;
        }
        let ghost start = *g;
        let replacement = match ty {
            GateType::Off | GateType::On | GateType::Lever => None,
            GateType::Not => Some(if on { 0 } else { 1 }),
            GateType::And => find_replacement(g, idx, on, 0, false),
            GateType::Nand => find_replacement(g, idx, on, 0, true),
            GateType::Or => find_replacement(g, idx, on, 1, false),
            GateType::Nor => find_replacement(g, idx, on, 1, true),
            GateType::Xor => find_replacement_xor(g, idx, on, false),
            GateType::Xnor => find_replacement_xor(g, idx, on, true),
        };
        proof {
            start.lemma_consts();
            if ty is Off || ty is On || ty is Lever || ty is Not {
                g.lemma_optimized_refl();
            }
            GateGraphBuilder::lemma_optimized_trans(old(g), &start, g);
            g.lemma_consts();
            if decides(ty, on) {
                assert(replacement is Some);
            }
        }
        match replacement {
            None => {
                let ghost turned = *g;
                if trims(g, idx) {
                    proof {
                        assert(turned == start);
                    }
                    drop_constants(g, idx);
                    proof {
                        GateGraphBuilder::lemma_optimized_trans(old(g), &turned, g);
                        lemma_kept_trans(&start, &turned, g, idx as int);
                        g.lemma_consts();
                    }
                }
                proof {
                    assert forall|i: usize, o: bool| #[trigger] const_decided(old(g), i, o) implies !g.has(i as int)
                        || (decides(g.ty(i as int), o) && in_work(work@, i, o)) by {
                        if start.has(i as int) {
                            if i == idx {
                                assert(decides(start.ty(i as int), o));
                                assert(turned.ty(i as int) == start.ty(i as int) || turned.ty(i as int) is Not);
                                assert(!(o == on));
                            } else {
                                assert(g.has(i as int) && g.ty(i as int) == start.ty(i as int));
                            }
                        } else {
                            assert(!g.has(i as int));
                        }
                    }
                    assert(const_replacement(&start, idx, on) is None);
                    assert(const_step(trace.last(), (*g, item_view(work@))));
                    lemma_const_push(trace, (*g, item_view(work@)));
                    trace = trace.push((*g, item_view(work@)));
                }
            },
            Some(replacement) => {
                proof {
                    g.lemma_gate_ok(idx as int);
                }
                let ghost s_in = *g;
                let temp_dependents = g.dependents_of(idx);
                let temp_dependencies = g.dependencies_of(idx);
                let ghost s0 = *g;
                proof {
                    s0.lemma_optimized_refl();
                }
                let mut k: usize = 0;
                while k < temp_dependencies.len()
                    invariant
                        g.optimized_from(old(g)),
                        g.num_slots() == s0.num_slots(),
                        g.free() == s0.free(),
                        g.has(idx as int),
                        !g.observable(idx as int),
                        !(g.ty(idx as int) is Lever || g.ty(idx as int) is Off || g.ty(idx as int) is On),
                        replacement < g.num_slots(),
                        k <= temp_dependencies@.len(),
                        kept_except(&s0, g, idx as int),
                        g.optimized_from(&s0),
                        forall|j: int| #[trigger] g.has(j) == s0.has(j),
                        forall|j: usize| s0.has(j as int) ==> #[trigger] g.ty(j as int) == s0.ty(j as int),
                        forall|j: usize| s0.has(j as int) ==> #[trigger] g.deps(j as int) == s0.deps(j as int),
                        item_view(work@) == trace.last().1.drop_last(),
                        forall|x: usize, y: usize| y != idx && s0.has(x as int) && #[trigger] s0.dependents(x as int).contains(y)
                            ==> g.dependents(x as int).contains(y),
                    decreases temp_dependencies@.len() - k,
                {
                    let ghost before = *g;
                    g.remove_dependent(temp_dependencies[k], idx);
                    proof {
                        let at = temp_dependencies[k as int];
                        assert forall|j: int| #[trigger] g.has(j) == s0.has(j) by {
                            assert(before.has(j) == s0.has(j));
                            if j != at as int && 0 <= j < g.num_slots() { assert(g.slots()[j] == before.slots()[j]); }
                        }
                        assert forall|j: usize| s0.has(j as int) implies #[trigger] g.ty(j as int) == s0.ty(j as int) by {
                            assert(before.ty(j as int) == s0.ty(j as int));
                            if j != at { assert(g.slots()[j as int] == before.slots()[j as int]); }
                        }
                        assert forall|j: usize| s0.has(j as int) implies #[trigger] g.deps(j as int) == s0.deps(j as int) by {
                            assert(before.deps(j as int) == s0.deps(j as int));
                            if j != at { assert(g.slots()[j as int] == before.slots()[j as int]); }
                        }
                        GateGraphBuilder::lemma_optimized_trans(old(g), &before, g);
                        if temp_dependencies[k as int] != idx {
                            assert(g.slots()[idx as int] == before.slots()[idx as int]);
                        }
                        assert forall|j: int| j != idx as int && #[trigger] before.has(j) implies g.has(j) && g.ty(j) == before.ty(j) by {
                            if j != temp_dependencies[k as int] as int { assert(g.slots()[j] == before.slots()[j]); }
                        }
                        lemma_kept_trans(&s0, &before, g, idx as int);
                        GateGraphBuilder::lemma_optimized_trans(&s0, &before, g);
                        assert forall|x: usize, y: usize| y != idx && s0.has(x as int) && #[trigger] s0.dependents(
                            x as int).contains(y) implies g.dependents(x as int).contains(y) by {
                            assert(before.dependents(x as int).contains(y));
                            if x != at {
                                assert(g.slots()[x as int] == before.slots()[x as int]);
                            } else {
                                lemma_swap_remove_keeps(before.dependents(x as int), idx, y);
                            }
                        }
                    }
                    k = k + 1;
                }
                let ghost rest = item_view(work@);
                if replacement < 2 {
                    let mut k: usize = 0;
                    while k < temp_dependents.len()
                        invariant
                            k <= temp_dependents@.len(),
                            forall|i: usize, o: bool| #[trigger] const_decided(old(g), i, o) && start.has(i as int) && i != idx ==> in_work(work@, i, o),
                            item_view(work@) == rest + items_for(temp_dependents@.take(k as int), replacement),
                        decreases temp_dependents@.len() - k,
                    {
                        let item = WorkItem { idx: temp_dependents[k], on: replacement == 1 };
                        let ghost prev = work@;
                        work.push(item);
                        proof {
                            assert forall|i: usize, o: bool| #[trigger] const_decided(old(g), i, o) && start.has(i as int) && i != idx implies in_work(work@, i, o) by {
                                lemma_in_work_push(prev, item, i, o);
                            }
                            lemma_item_view_push(prev, item);
                            lemma_items_take(temp_dependents@, k as int, replacement);
                            assert(rest + items_for(temp_dependents@.take(k + 1), replacement)
                                =~= (rest + items_for(temp_dependents@.take(k as int), replacement)).push((item.idx, item.on)));
                        }
                        k = k + 1;
                    }
                    proof {
                        assert(temp_dependents@.take(temp_dependents@.len() as int) =~= temp_dependents@);
                    }
                }
                let ghost s1 = *g;
                let mut k: usize = 0;
                while k < temp_dependents.len()
                    invariant
                        g.optimized_from(old(g)),
                        g.num_slots() == s0.num_slots(),
                        g.free() == s0.free(),
                        g.has(idx as int),
                        !g.observable(idx as int),
                        !(g.ty(idx as int) is Lever || g.ty(idx as int) is Off || g.ty(idx as int) is On),
                        replacement < g.num_slots(),
                        temp_dependents@ == s0.dependents(idx as int),
                        s0.gate_ok(idx as int),
                        k <= temp_dependents@.len(),
                        kept_except(&s0, g, idx as int),
                        g.optimized_from(&s0),
                        forall|j: int| #[trigger] g.has(j) == s1.has(j),
                        forall|j: usize| s1.has(j as int) ==> #[trigger] g.ty(j as int) == s1.ty(j as int),
                        forall|j: usize| s1.has(j as int) ==> #[trigger] g.deps(j as int) == (if temp_dependents@.take(k as int).contains(j) {
                            swapped(s1.deps(j as int), idx, replacement)
                        } else {
                            s1.deps(j as int)
                        }),
                        forall|x: usize, y: usize| y != idx && s0.has(x as int) && #[trigger] s0.dependents(x as int).contains(y)
                            ==> g.dependents(x as int).contains(y),
                        s0.has(replacement as int) && replacement != idx ==> forall|q: int| 0 <= q < k && temp_dependents@[q]
                            != idx ==> g.dependents(replacement as int).contains(#[trigger] temp_dependents@[q]),
                    decreases temp_dependents@.len() - k,
                {
                    let dependent = temp_dependents[k];
                    proof {
                        assert(s0.dependents(idx as int)[k as int] < s0.num_slots());
                    }
                    let ghost before = *g;
                    g.swap_dependency_of(dependent, idx, replacement);
                    let ghost mid = *g;
                    g.insert_dependent(replacement, dependent);
                    proof {
                        GateGraphBuilder::lemma_optimized_trans(old(g), &before, &mid);
                        GateGraphBuilder::lemma_optimized_trans(old(g), &mid, g);
                        GateGraphBuilder::lemma_optimized_trans(&s0, &before, &mid);
                        GateGraphBuilder::lemma_optimized_trans(&s0, &mid, g);
                        if dependent != idx {
                            assert(mid.slots()[idx as int] == before.slots()[idx as int]);
                        }
                        if replacement != idx {
                            assert(g.slots()[idx as int] == mid.slots()[idx as int]);
                        }
                        assert forall|j: int| j != idx as int && #[trigger] before.has(j) implies g.has(j) && g.ty(j) == before.ty(j) by {
                            if j != dependent as int { assert(mid.slots()[j] == before.slots()[j]); }
                            if j != replacement as int { assert(g.slots()[j] == mid.slots()[j]); }
                        }
                        lemma_kept_trans(&s0, &before, g, idx as int);
                        assert forall|j: int| #[trigger] g.has(j) == s1.has(j) by {
                            assert(before.has(j) == s1.has(j));
                            if 0 <= j < g.num_slots() {
                                if j != dependent as int { assert(mid.slots()[j] == before.slots()[j]); }
                                if j != replacement as int { assert(g.slots()[j] == mid.slots()[j]); }
                            }
                        }
                        assert forall|j: usize| s1.has(j as int) implies #[trigger] g.ty(j as int) == s1.ty(j as int) by {
                            assert(before.has(j as int));
                            assert(before.ty(j as int) == s1.ty(j as int));
                            if j != dependent { assert(mid.slots()[j as int] == before.slots()[j as int]); }
                            if j != replacement { assert(g.slots()[j as int] == mid.slots()[j as int]); }
                        }
                        assert forall|j: usize| s1.has(j as int) implies #[trigger] g.deps(j as int) == (if temp_dependents@.take(k + 1).contains(j) {
                            swapped(s1.deps(j as int), idx, replacement)
                        } else {
                            s1.deps(j as int)
                        }) by {
                            assert(before.has(j as int));
                            assert(temp_dependents@.take(k + 1) =~= temp_dependents@.take(k as int).push(dependent));
                            assert(before.deps(j as int) == (if temp_dependents@.take(k as int).contains(j) {
                                swapped(s1.deps(j as int), idx, replacement)
                            } else {
                                s1.deps(j as int)
                            }));
                            if j != dependent {
                                assert(mid.slots()[j as int] == before.slots()[j as int]);
                                assert(temp_dependents@.take(k + 1).contains(j) == temp_dependents@.take(k as int).contains(j));
                            } else {
                                assert(temp_dependents@.take(k + 1)[k as int] == j);
                                assert(swapped(swapped(s1.deps(j as int), idx, replacement), idx, replacement)
                                    =~= swapped(s1.deps(j as int), idx, replacement));
                                assert(swapped(before.deps(j as int), idx, replacement) =~= before.deps(j as int).map_values(
                                    |d: usize| if d == idx { replacement } else { d }));
                                if !temp_dependents@.take(k as int).contains(j) {
                                    assert(before.deps(j as int) == s1.deps(j as int));
                                }
                            }
                            if j != replacement { assert(g.slots()[j as int] == mid.slots()[j as int]); }
                        }
                        assert forall|x: usize, y: usize| y != idx && s0.has(x as int) && #[trigger] s0.dependents(
                            x as int).contains(y) implies g.dependents(x as int).contains(y) by {
                            assert(before.has(x as int));
                            assert(before.dependents(x as int).contains(y));
                            if x != dependent { assert(mid.slots()[x as int] == before.slots()[x as int]); }
                            assert(mid.dependents(x as int) == before.dependents(x as int));
                            if x != replacement {
                                assert(g.slots()[x as int] == mid.slots()[x as int]);
                            } else {
                                lemma_set_insert_keeps(mid.dependents(x as int), dependent, y);
                            }
                        }
                        if s0.has(replacement as int) && replacement != idx {
                            let f = replacement as int;
                            assert(before.has(f) && mid.has(f));
                            if replacement != dependent { assert(mid.slots()[f] == before.slots()[f]); }
                            assert(mid.dependents(f) == before.dependents(f));
                            assert forall|q: int| 0 <= q < k + 1 && temp_dependents@[q] != idx implies g.dependents(
                                replacement as int).contains(#[trigger] temp_dependents@[q]) by {
                                if q < k {
                                    assert(before.dependents(f).contains(temp_dependents@[q]));
                                }
                                lemma_set_insert_keeps(mid.dependents(f), dependent, temp_dependents@[q]);
                            }
                        }
                    }
                    k = k + 1;
                }
                proof {
                    g.lemma_consts();
                    assert(temp_dependents@.take(temp_dependents@.len() as int) =~= temp_dependents@);
                }
                let ghost swapped_all = *g;
                let ghost before = *g;
                g.remove_gate(idx);
                proof {
                    GateGraphBuilder::lemma_optimized_trans(old(g), &before, g);
                    g.lemma_consts();
                    assert forall|j: int| j != idx as int && #[trigger] before.has(j) implies g.has(j) && g.ty(j) == before.ty(j) by {
                        assert(g.slots()[j] == before.slots()[j]);
                    }
                    lemma_kept_trans(&s0, &before, g, idx as int);
                    assert(s0 == s_in);
                    lemma_kept_trans(&start, &s0, g, idx as int);
                    GateGraphBuilder::lemma_optimized_trans(&s0, &before, g);
                    GateGraphBuilder::lemma_optimized_trans(&start, &s0, g);
                    assert forall|i: usize, o: bool| #[trigger] const_decided(old(g), i, o) implies !g.has(i as int)
                        || (decides(g.ty(i as int), o) && in_work(work@, i, o)) by {
                        if i != idx && start.has(i as int) {
                            assert(g.has(i as int) && g.ty(i as int) == start.ty(i as int));
                        } else if i != idx {
                            assert(!g.has(i as int)) by {
                                assert(!s0.has(i as int));
                            }
                        }
                    }
                    assert(start == s_in);
                    assert forall|j: int| j != idx as int implies #[trigger] g.has(j) == start.has(j) by {
                        assert(swapped_all.has(j) == s1.has(j));
                        assert(s1.has(j) == s0.has(j));
                        if 0 <= j < g.num_slots() { assert(g.slots()[j] == swapped_all.slots()[j]); }
                    }
                    assert forall|j: usize| #![trigger g.ty(j as int)] #![trigger g.deps(j as int)]
                        j != idx && start.has(j as int) implies g.ty(j as int) == start.ty(j as int)
                        && g.deps(j as int) == (if start.dependents(idx as int).contains(j) {
                            swapped(start.deps(j as int), idx, replacement)
                        } else {
                            start.deps(j as int)
                        }) by {
                        assert(s1.has(j as int) == s0.has(j as int));
                        assert(s1.ty(j as int) == s0.ty(j as int));
                        assert(s1.deps(j as int) == s0.deps(j as int));
                        assert(swapped_all.ty(j as int) == s1.ty(j as int));
                        assert(swapped_all.deps(j as int) == (if temp_dependents@.take(temp_dependents@.len() as int).contains(j) {
                            swapped(s1.deps(j as int), idx, replacement)
                        } else {
                            s1.deps(j as int)
                        }));
                        assert(g.slots()[j as int] == swapped_all.slots()[j as int]);
                    }
                    assert forall|x: usize, y: usize| x != idx && y != idx && start.has(x as int)
                        && #[trigger] start.dependents(x as int).contains(y) implies g.dependents(x as int).contains(y) by {
                        assert(swapped_all.dependents(x as int).contains(y));
                        assert(g.slots()[x as int] == swapped_all.slots()[x as int]);
                    }
                    if start.has(replacement as int) && replacement != idx {
                        assert forall|y: usize| y != idx && #[trigger] start.dependents(idx as int).contains(y)
                            implies g.dependents(replacement as int).contains(y) by {
                            let q = choose|q: int| 0 <= q < temp_dependents@.len() && temp_dependents@[q] == y;
                            assert(swapped_all.dependents(replacement as int).contains(temp_dependents@[q]));
                            assert(g.slots()[replacement as int] == swapped_all.slots()[replacement as int]);
                        }
                    }
                    assert(replaced_by(&start, g, idx, replacement));
                    assert(item_view(work@) == (if replacement < 2 {
                        trace.last().1.drop_last() + items_for(start.dependents(idx as int), replacement)
                    } else {
                        trace.last().1.drop_last()
                    }));
                    assert(const_step(trace.last(), (*g, item_view(work@))));
                    lemma_const_push(trace, (*g, item_view(work@)));
                    trace = trace.push((*g, item_view(work@)));
                }
            },
        }
    }
    proof {
        assert(item_view(work@) =~= Seq::<(usize, bool)>::empty());
        assert(const_run(trace) && constants_cleared(old(g), &trace[0].0) && trace[0].1 == first_items(old(g), &trace[0].0)
            && trace.last() == (*g, Seq::<(usize, bool)>::empty()));
        assert(const_propagated(old(g), g));
    }
}

} // verus!
