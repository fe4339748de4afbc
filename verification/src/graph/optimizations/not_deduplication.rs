use crate::graph::gate::GateType;
use crate::graph::graph_builder::GateGraphBuilder;
use crate::graph::optimizations::single_dependency_collapsing::swapped;
use crate::graph::optimizations::dead_code_elimination::lemma_swap_remove_keeps;
use crate::graph::optimizations::settling::{lemma_eval_all_index, lemma_set_insert_keeps, readers_listed};
use vstd::prelude::*;

verus! {

/// A gate read by several not gates, and the first of them.
struct WorkItem {
    gate: usize,
    first_not: usize,
}

/// True if `d` is a not gate of `g`.
pub open spec fn is_not_gate(g: &GateGraphBuilder, d: usize) -> bool {
    g.has(d as int) && g.ty(d as int) is Not
}

/// Returns the first not gate among the dependents of `gate`, if it has two or more of them.
fn first_of_many_nots(g: &GateGraphBuilder, gate: usize) -> (r: Option<usize>)
    requires
        g.base_wf(),
        g.has(gate as int),
    ensures
        r is Some <==> exists|a: int, b: int| 0 <= a < b < g.dependents(gate as int).len()
            && #[trigger] is_not_gate(g, g.dependents(gate as int)[a]) && #[trigger] is_not_gate(g, g.dependents(gate as int)[b]),
        r matches Some(x) ==> exists|a: int| 0 <= a < g.dependents(gate as int).len()
            && g.dependents(gate as int)[a] == x && #[trigger] is_not_gate(g, x)
            && forall|c: int| 0 <= c < a ==> !#[trigger] is_not_gate(g, g.dependents(gate as int)[c]),
        r matches Some(x) ==> x < g.num_slots(),
{
    proof {
        g.lemma_gate_ok(gate as int);
    }
    let dependents = g.dependents_of(gate);
    let ghost ds = dependents@;
    let mut first_not: Option<usize> = None;
    let mut k: usize = 0;
    while k < dependents.len()
        invariant
            dependents@ == g.dependents(gate as int),
            ds == dependents@,
            g.gate_ok(gate as int),
            g.base_wf(),
            k <= dependents@.len(),
            first_not matches Some(x) ==> x < g.num_slots(),
            first_not is None ==> forall|c: int| 0 <= c < k ==> !#[trigger] is_not_gate(g, ds[c]),
            first_not matches Some(x) ==> exists|a: int| 0 <= a < k && ds[a] == x && #[trigger] is_not_gate(g, x)
                && forall|c: int| 0 <= c < a ==> !#[trigger] is_not_gate(g, ds[c]),
            forall|a: int, b: int| 0 <= a < b < k ==> !(#[trigger] is_not_gate(g, ds[a]) && #[trigger] is_not_gate(g, ds[b])),
        decreases dependents@.len() - k,
    {
        let dependent = dependents[k];
        proof {
            assert(g.dependents(gate as int)[k as int] < g.num_slots());
        }
        let is_not = match g.gate_type(dependent) {
            Some(ty) => ty.is_not(),
            None => false,
        };
        assert(is_not == is_not_gate(g, ds[k as int]));
        if is_not {
            match first_not {
                Some(x) => {
                    proof {
                        let a = choose|a: int| 0 <= a < k && ds[a] == x && #[trigger] is_not_gate(g, x)
                            && forall|c: int| 0 <= c < a ==> !#[trigger] is_not_gate(g, ds[c]);
                        assert(is_not_gate(g, ds[a]) && is_not_gate(g, ds[k as int]));
                        assert(a < k && k < ds.len());
                    }
                    return first_not;
                },
                None => {
                    first_not = Some(dependent);
                    proof {
                        assert(ds[k as int] == dependent);
                    }
                },
            }
        }
        k = k + 1;
    }
    proof {
        assert forall|a: int, b: int| 0 <= a < b < ds.len() implies !(#[trigger] is_not_gate(g, ds[a]) && #[trigger] is_not_gate(g, ds[b])) by {}
    }
    None
}

/// True if `n` is a not gate that cannot be observed and that gate `gate` of `g` lists
/// among its dependents, other than `gate` itself.
pub open spec fn listed_not(g: &GateGraphBuilder, gate: usize, n: usize) -> bool {
    &&& g.dependents(gate as int).contains(n)
    &&& is_not_gate(g, n)
    &&& !g.observable(n as int)
    &&& n != gate
}

/// True if, should gate `gate` be in `g`, at most one of the not gates listed by it in `g0`
/// (see [listed_not]) is still in `g`.
pub open spec fn keeps_one_not(g0: &GateGraphBuilder, g: &GateGraphBuilder, gate: usize) -> bool {
    g.has(gate as int) ==> forall|n1: usize, n2: usize| #[trigger] listed_not(g0, gate, n1)
        && #[trigger] listed_not(g0, gate, n2) && n1 != n2 ==> !(g.has(n1 as int) && g.has(n2 as int))
}

/// True if no two of the dependents of gate `gate` of `g` are not gates.
spec fn few_nots(g: &GateGraphBuilder, gate: usize) -> bool {
    !exists|a: int, b: int| 0 <= a < b < g.dependents(gate as int).len()
        && #[trigger] is_not_gate(g, g.dependents(gate as int)[a]) && #[trigger] is_not_gate(g, g.dependents(gate as int)[b])
}

/// True if one of `items` is for gate `gate`.
spec fn has_item(items: Seq<WorkItem>, gate: usize) -> bool {
    exists|j: int| 0 <= j < items.len() && items[j].gate == gate
}

/// A gate with fewer than two not gates among its dependents keeps at most one of them.
proof fn lemma_few_nots(g0: &GateGraphBuilder, g: &GateGraphBuilder, gate: usize)
    requires
        few_nots(g0, gate),
    ensures
        keeps_one_not(g0, g, gate),
{
    let ds = g0.dependents(gate as int);
    assert forall|n1: usize, n2: usize| #[trigger] listed_not(g0, gate, n1)
        && #[trigger] listed_not(g0, gate, n2) && n1 != n2 implies !(g.has(n1 as int) && g.has(n2 as int)) by {
        let a = choose|a: int| 0 <= a < ds.len() && ds[a] == n1;
        let b = choose|b: int| 0 <= b < ds.len() && ds[b] == n2;
        if a < b {
            assert(is_not_gate(g0, ds[a]) && is_not_gate(g0, ds[b]));
        } else {
            assert(is_not_gate(g0, ds[b]) && is_not_gate(g0, ds[a]));
        }
    }
}

/// Removing gates keeps at most one listed not gate.
proof fn lemma_keeps_fewer(g0: &GateGraphBuilder, g: &GateGraphBuilder, h: &GateGraphBuilder, gate: usize)
    requires
        keeps_one_not(g0, g, gate),
        forall|i: int| #[trigger] h.has(i) ==> g.has(i),
    ensures
        keeps_one_not(g0, h, gate),
{
    if h.has(gate as int) {
        assert(g.has(gate as int));
        assert forall|n1: usize, n2: usize| #[trigger] listed_not(g0, gate, n1)
            && #[trigger] listed_not(g0, gate, n2) && n1 != n2 implies !(h.has(n1 as int) && h.has(n2 as int)) by {
            if h.has(n1 as int) { assert(g.has(n1 as int)); }
            if h.has(n2 as int) { assert(g.has(n2 as int)); }
        }
    }
}

/// True if `first` is the first not gate among the dependents of gate `gate` of `g`, and
/// another not gate follows it there.
pub open spec fn first_not_of(g: &GateGraphBuilder, gate: usize, first: usize) -> bool {
    exists|a: int, b: int| #![trigger g.dependents(gate as int)[a], g.dependents(gate as int)[b]]
        0 <= a < b < g.dependents(gate as int).len()
        && g.dependents(gate as int)[a] == first && is_not_gate(g, first)
        && is_not_gate(g, g.dependents(gate as int)[b])
        && forall|c: int| 0 <= c < a ==> !#[trigger] is_not_gate(g, g.dependents(gate as int)[c])
}

/// True if `b` is `a` without the not gate `not`, each gate that `a` lists as a dependent of
/// `not` reading `first` where it read `not` and listed among the dependents of `first`,
/// every other gate unchanged in type and dependencies, and no gate losing a dependent but
/// `not`.
pub open spec fn not_replaced(a: &GateGraphBuilder, b: &GateGraphBuilder, not: usize, first: usize) -> bool {
    &&& a.has(not as int)
    &&& !b.has(not as int)
    &&& forall|j: int| j != not ==> #[trigger] b.has(j) == a.has(j)
    &&& forall|j: usize| j != not && a.has(j as int) ==> #[trigger] b.ty(j as int) == a.ty(j as int)
    &&& forall|j: usize| j != not && a.has(j as int) ==> #[trigger] b.deps(j as int) == (if a.dependents(not as int).contains(j) {
        swapped(a.deps(j as int), not, first)
    } else {
        a.deps(j as int)
    })
    &&& a.has(first as int) ==> forall|y: usize| y != not && #[trigger] a.dependents(not as int).contains(y)
        ==> b.dependents(first as int).contains(y)
    &&& forall|x: usize, y: usize| x != not && y != not && a.has(x as int) && #[trigger] a.dependents(x as int).contains(y)
        ==> b.dependents(x as int).contains(y)
}

/// Merging a Not gate into an equal one keeps what every other gate computes: where `not`
/// and `first` are Not gates of `a` reading the same gates, every gate that reads `not` is
/// listed among its dependents, and `b` is `a` with `not` replaced by `first` (see
/// [not_replaced]), every gate but `not` computes in `b` what it computes in `a`, at every
/// depth and whatever the levers.
pub proof fn law_not_merge_keeps_eval(a: &GateGraphBuilder, b: &GateGraphBuilder, levers: spec_fn(int) -> bool,
    not: usize, first: usize, j: usize, f: nat)
    requires
        not != first,
        is_not_gate(a, not),
        is_not_gate(a, first),
        a.deps(not as int) == a.deps(first as int),
        forall|i: usize| a.has(i as int) && #[trigger] a.deps(i as int).contains(not) ==> a.dependents(not as int).contains(i),
        not_replaced(a, b, not, first),
        j != not,
    ensures
        b.eval(levers, j as int, f) == a.eval(levers, j as int, f),
    decreases f,
{
    if f > 0 && a.has(j as int) {
        let g = (f - 1) as nat;
        let bs = b.deps(j as int);
        let ads = a.deps(j as int);
        lemma_eval_all_index(b, levers, bs, g);
        lemma_eval_all_index(a, levers, ads, g);
        assert(a.eval_all(levers, a.deps(not as int), (g - 1) as nat) == a.eval_all(levers, a.deps(first as int), (g
            - 1) as nat));
        assert forall|k: int| 0 <= k < bs.len() implies #[trigger] b.eval_all(levers, bs, g)[k] == a.eval_all(levers, ads,
            g)[k] by {
            if ads[k] == not {
                assert(a.deps(j as int).contains(not));
                assert(bs[k] == first);
                law_not_merge_keeps_eval(a, b, levers, not, first, first, g);
            } else {
                assert(bs[k] == ads[k]);
                law_not_merge_keeps_eval(a, b, levers, not, first, ads[k], g);
            }
        }
        assert(b.eval_all(levers, bs, g) =~= a.eval_all(levers, ads, g));
    }
}

/// Merging a Not gate into another keeps every reader listed: where every gate of `a` is
/// listed among the dependents of each gate it reads (see [readers_listed]) and `b` is `a`
/// with `not` replaced by `first` (see [not_replaced]), the same holds of `b`, so a change
/// of `first` reaches each gate that read `not`.
pub proof fn law_not_merge_keeps_readers_listed(a: &GateGraphBuilder, b: &GateGraphBuilder, not: usize, first: usize)
    requires
        readers_listed(a),
        not_replaced(a, b, not, first),
        not != first,
    ensures
        readers_listed(b),
{
    assert forall|i: usize, x: usize| b.has(i as int) && b.has(x as int) && #[trigger] b.deps(i as int).contains(x)
        implies b.dependents(x as int).contains(i) by {
        assert(i != not && x != not);
        assert(a.has(i as int) && a.has(x as int));
        let m = choose|m: int| 0 <= m < b.deps(i as int).len() && b.deps(i as int)[m] == x;
        if a.dependents(not as int).contains(i) && a.deps(i as int)[m] == not {
            assert(b.deps(i as int)[m] == first);
            assert(a.has(first as int));
        } else {
            assert(a.deps(i as int)[m] == x);
            assert(a.deps(i as int).contains(x));
            assert(a.dependents(x as int).contains(i));
        }
    }
}

/// True if `b` follows `a` by merging a not gate into another: a not gate `not` of `g0` that
/// cannot be observed gives way to `first`, the first of several not gates that a gate of
/// `g0` lists as dependents (see [first_not_of]).
pub open spec fn merge_step(g0: &GateGraphBuilder, a: &GateGraphBuilder, b: &GateGraphBuilder) -> bool {
    exists|gate: usize, not: usize, first: usize| #![trigger not_replaced(a, b, not, first), first_not_of(g0, gate, first)]
        not_replaced(a, b, not, first) && first_not_of(g0, gate, first) && not != first
        && is_not_gate(g0, not) && !g0.observable(not as int)
}

/// True if each graph of `trace` follows the one before it by a merge of not gates of `g0`.
pub open spec fn merge_run(g0: &GateGraphBuilder, trace: Seq<GateGraphBuilder>) -> bool {
    &&& trace.len() >= 1
    &&& forall|k: int| 0 <= k < trace.len() - 1 ==> #[trigger] merge_step(g0, &trace[k], &trace[k + 1])
}

/// True if `b` can come out of [not_deduplication_pass] run on `a`.
pub open spec fn nots_merged(a: &GateGraphBuilder, b: &GateGraphBuilder) -> bool {
    &&& b.optimized_from(a)
    &&& forall|gate: usize| #[trigger] keeps_one_not(a, b, gate)
    &&& exists|trace: Seq<GateGraphBuilder>| #[trigger] merge_run(a, trace) && trace[0] == *a && trace.last() == *b
}

/// The first `k` merges of a run keep every reader listed.
proof fn lemma_merge_run_keeps_readers_listed(g0: &GateGraphBuilder, trace: Seq<GateGraphBuilder>, k: int)
    requires
        merge_run(g0, trace),
        readers_listed(&trace[0]),
        0 <= k < trace.len(),
    ensures
        readers_listed(&trace[k]),
    decreases k,
{
    if k > 0 {
        lemma_merge_run_keeps_readers_listed(g0, trace, k - 1);
        assert(merge_step(g0, &trace[k - 1], &trace[(k - 1) + 1]));
        let (gate, not, first) = choose|gate: usize, not: usize, first: usize|
            #![trigger not_replaced(&trace[k - 1], &trace[k], not, first), first_not_of(g0, gate, first)]
            not_replaced(&trace[k - 1], &trace[k], not, first) && first_not_of(g0, gate, first) && not != first
            && is_not_gate(g0, not) && !g0.observable(not as int);
        law_not_merge_keeps_readers_listed(&trace[k - 1], &trace[k], not, first);
    }
}

/// Not deduplication keeps every reader listed: where every gate of `a` is listed among the
/// dependents of each gate it reads (see [readers_listed]), so is every gate of what
/// [not_deduplication_pass] makes of `a`, and a change of a gate reaches every gate that reads
/// it.
pub proof fn law_not_deduplication_keeps_readers_listed(a: &GateGraphBuilder, b: &GateGraphBuilder)
    requires
        readers_listed(a),
        nots_merged(a, b),
    ensures
        readers_listed(b),
{
    let trace = choose|trace: Seq<GateGraphBuilder>| #[trigger] merge_run(a, trace) && trace[0] == *a && trace.last() == *b;
    lemma_merge_run_keeps_readers_listed(a, trace, trace.len() - 1);
}

/// A run of merges followed by one more merge is a run of merges.
proof fn lemma_merge_push(g0: &GateGraphBuilder, t: Seq<GateGraphBuilder>, b: GateGraphBuilder)
    requires
        merge_run(g0, t),
        merge_step(g0, &t.last(), &b),
    ensures
        merge_run(g0, t.push(b)),
        t.push(b)[0] == t[0],
        t.push(b).last() == b,
{
    let c = t.push(b);
    assert forall|k: int| 0 <= k < c.len() - 1 implies #[trigger] merge_step(g0, &c[k], &c[k + 1]) by {
        if k < t.len() - 1 {
            assert(c[k] == t[k] && c[k + 1] == t[k + 1]);
        } else {
            assert(c[k] == t.last());
        }
    }
}

/// Makes every gate that reads several not gates of the same gate read the first of them
/// instead, and removes the others: afterwards every gate keeps at most one of the not gates
/// that it listed as dependents and that cannot be observed. Each removal is a merge (see
/// [merge_step]): the gates listed as dependents of the removed not gate read the first not
/// gate in its place.
pub fn not_deduplication_pass(g: &mut GateGraphBuilder)
    requires
        old(g).base_wf(),
    ensures
        final(g).optimized_from(old(g)),
        forall|gate: usize| #[trigger] keeps_one_not(old(g), final(g), gate),
        exists|trace: Seq<GateGraphBuilder>| #[trigger] merge_run(old(g), trace) && trace[0] == *old(g)
            && trace.last() == *final(g),
        nots_merged(old(g), final(g)),
{
    proof {
        g.lemma_optimized_refl();
    }
    let mut work: Vec<WorkItem> = Vec::new();
    let n = g.total_len();
    let mut i: usize = 0;
    while i < n
        invariant
            g.base_wf(),
            *g == *old(g),
            n == g.num_slots(),
            i <= n,
            forall|k: int| 0 <= k < work@.len() ==> #[trigger] work@[k].first_not < g.num_slots(),
            forall|k: int| 0 <= k < work@.len() ==> #[trigger] work@[k].gate < i,
            forall|a: int, b: int| 0 <= a < b < work@.len() ==> work@[a].gate < work@[b].gate,
            forall|gate: usize| gate < i ==> !old(g).has(gate as int) || few_nots(old(g), gate) || #[trigger] has_item(work@, gate),
            forall|k: int| 0 <= k < work@.len() ==> #[trigger] first_not_of(old(g), work@[k].gate, work@[k].first_not),
        decreases n - i,
    {
        let ghost prev = work@;
        if let Some(_) = g.gate_type(i) {
            if let Some(first_not) = first_of_many_nots(g, i) {
                work.push(WorkItem { gate: i, first_not });
                proof {
                    assert(work@[prev.len() as int].gate == i);
                    let ds = g.dependents(i as int);
                    let a = choose|a: int| 0 <= a < ds.len() && ds[a] == first_not && #[trigger] is_not_gate(g, first_not)
                        && forall|c: int| 0 <= c < a ==> !#[trigger] is_not_gate(g, ds[c]);
                    let (a0, b0) = choose|a0: int, b0: int| 0 <= a0 < b0 < ds.len()
                        && #[trigger] is_not_gate(g, ds[a0]) && #[trigger] is_not_gate(g, ds[b0]);
                    assert(a <= a0);
                    assert(first_not_of(old(g), i, first_not));
                }
            }
        }
        proof {
            assert forall|k: int| 0 <= k < work@.len() implies #[trigger] work@[k].first_not < g.num_slots() by {
                if k < prev.len() { assert(work@[k] == prev[k]); }
            }
            assert forall|k: int| 0 <= k < work@.len() implies #[trigger] first_not_of(old(g), work@[k].gate, work@[k].first_not) by {
                if k < prev.len() { assert(work@[k] == prev[k]); }
            }
            assert forall|k: int| 0 <= k < work@.len() implies #[trigger] work@[k].gate < i + 1 by {
                if k < prev.len() { assert(work@[k] == prev[k]); }
            }
            assert forall|a: int, b: int| 0 <= a < b < work@.len() implies work@[a].gate < work@[b].gate by {
                assert(work@[a] == prev[a]);
                if b < prev.len() { assert(work@[b] == prev[b]); }
            }
            assert forall|gate: usize| gate < i + 1 implies !old(g).has(gate as int) || few_nots(old(g), gate)
                || #[trigger] has_item(work@, gate) by {
                if gate < i {
                    if has_item(prev, gate) {
                        let j = choose|j: int| 0 <= j < prev.len() && prev[j].gate == gate;
                        assert(work@[j] == prev[j]);
                    }
                } else if work@.len() > prev.len() {
                    assert(work@[prev.len() as int].gate == i);
                }
            }
        }
        i = i + 1;
    }
    let ghost items = work@;
    let ghost mut trace: Seq<GateGraphBuilder> = seq![*g];
    while work.len() > 0
        invariant
            g.optimized_from(old(g)),
            n == old(g).num_slots(),
            work@ == items.subrange(0, work@.len() as int),
            work@.len() <= items.len(),
            forall|k: int| 0 <= k < items.len() ==> #[trigger] items[k].first_not < n,
            forall|a: int, b: int| 0 <= a < b < items.len() ==> items[a].gate < items[b].gate,
            forall|gate: usize| gate < n ==> !old(g).has(gate as int) || few_nots(old(g), gate) || #[trigger] has_item(items, gate),
            forall|i: int| #[trigger] g.has(i) ==> g.ty(i) == old(g).ty(i),
            forall|j: int| work@.len() <= j < items.len() ==> #[trigger] keeps_one_not(old(g), g, items[j].gate),
            forall|j: int, x: usize| 0 <= j < work@.len() && g.has(items[j].gate as int)
                && #[trigger] old(g).dependents(items[j].gate as int).contains(x)
                ==> g.dependents(items[j].gate as int).contains(x),
            forall|k: int| 0 <= k < items.len() ==> #[trigger] first_not_of(old(g), items[k].gate, items[k].first_not),
            merge_run(old(g), trace),
            trace[0] == *old(g),
            trace.last() == *g,
        decreases work@.len(),
    {
        let ghost l = (work@.len() - 1) as int;
        let item = work.pop().unwrap();
        let gate = item.gate;
        let first_not = item.first_not;
        let ghost s_start = *g;
        proof {
            assert(item == items[l]);
            assert(work@ =~= items.subrange(0, l));
            s_start.lemma_optimized_refl();
        }
        if let None = g.gate_type(gate) {
            continue;
        }
        let candidates = g.dependents_of(gate);
        let mut nots: Vec<usize> = Vec::new();
        let mut k: usize = 0;
        while k < candidates.len()
            invariant
                *g == s_start,
                g.optimized_from(old(g)),
                k <= candidates@.len(),
                candidates@ == s_start.dependents(gate as int),
                s_start.base_wf(),
                forall|j: int| 0 <= j < nots@.len() ==> #[trigger] is_not_gate(old(g), nots@[j]),
                forall|j: int| 0 <= j < nots@.len() ==> !old(g).observable(#[trigger] nots@[j] as int),
                forall|i: int| #[trigger] g.has(i) ==> g.ty(i) == old(g).ty(i),
                s_start.output_set() == old(g).output_set(),
                forall|j: int| 0 <= j < nots@.len() ==> nots@[j] != gate,
                forall|j: int| 0 <= j < nots@.len() ==> nots@[j] != first_not,
                forall|j: int| 0 <= j < k && candidates@[j] != first_not && candidates@[j] != gate
                    && s_start.has(#[trigger] candidates@[j] as int) && s_start.ty(candidates@[j] as int) is Not
                    && !s_start.observable(candidates@[j] as int) ==> nots@.contains(candidates@[j]),
            decreases candidates@.len() - k,
        {
            let dependent = candidates[k];
            let ghost prev = nots@;
            if dependent != first_not && dependent != gate {
                if let Some(ty) = g.gate_type(dependent) {
                    if !g.is_observable(dependent) && ty.is_not() {
                        nots.push(dependent);
                        proof {
                            assert(nots@[prev.len() as int] == dependent);
                        }
                    }
                }
            }
            proof {
                assert forall|j: int| 0 <= j < nots@.len() implies #[trigger] is_not_gate(old(g), nots@[j]) by {
                    if j < prev.len() {
                        assert(nots@[j] == prev[j]);
                    } else {
                        assert(nots@[j] == dependent);
                        assert(old(g).has(dependent as int));
                        assert(s_start.ty(dependent as int) == old(g).ty(dependent as int));
                    }
                }
                assert forall|j: int| 0 <= j < nots@.len() implies !old(g).observable(#[trigger] nots@[j] as int) by {
                    if j < prev.len() {
                        assert(nots@[j] == prev[j]);
                    } else {
                        assert(nots@[j] == dependent);
                        assert(old(g).has(dependent as int));
                        assert(s_start.ty(dependent as int) == old(g).ty(dependent as int));
                    }
                }
                assert forall|j: int| 0 <= j < nots@.len() implies nots@[j] != gate by {
                    if j < prev.len() { assert(nots@[j] == prev[j]); }
                }
                assert forall|j: int| 0 <= j < k + 1 && candidates@[j] != first_not && candidates@[j] != gate
                    && s_start.has(#[trigger] candidates@[j] as int) && s_start.ty(candidates@[j] as int) is Not
                    && !s_start.observable(candidates@[j] as int) implies nots@.contains(candidates@[j]) by {
                    if j < k {
                        let q = choose|q: int| 0 <= q < prev.len() && prev[q] == candidates@[j];
                        assert(nots@[q] == prev[q]);
                    } else {
                        assert(nots@[prev.len() as int] == dependent);
                    }
                }
            }
            k = k + 1;
        }
        let mut m: usize = 0;
        while m < nots.len()
            invariant
                g.optimized_from(old(g)),
                g.optimized_from(&s_start),
                n == old(g).num_slots(),
                first_not < g.num_slots(),
                m <= nots@.len(),
                work@ == items.subrange(0, l),
                0 <= l < items.len(),
                gate == items[l].gate,
                forall|a: int, b: int| 0 <= a < b < items.len() ==> items[a].gate < items[b].gate,
                forall|i: int| #[trigger] g.has(i) ==> g.ty(i) == old(g).ty(i),
                forall|j: int| 0 <= j < nots@.len() ==> #[trigger] is_not_gate(old(g), nots@[j]),
                forall|j: int| 0 <= j < nots@.len() ==> !old(g).observable(#[trigger] nots@[j] as int),
                forall|j: int| 0 <= j < nots@.len() ==> nots@[j] != gate,
                forall|j: int| 0 <= j < nots@.len() ==> nots@[j] != first_not,
                first_not_of(old(g), gate, first_not),
                merge_run(old(g), trace),
                trace[0] == *old(g),
                trace.last() == *g,
                forall|j: int| 0 <= j < m ==> !g.has(#[trigger] nots@[j] as int),
                forall|j: int, x: usize| 0 <= j < l && g.has(items[j].gate as int)
                    && #[trigger] old(g).dependents(items[j].gate as int).contains(x)
                    ==> g.dependents(items[j].gate as int).contains(x),
            decreases nots@.len() - m,
        {
            let not = nots[m];
            let ghost m0 = m as int;
            m = m + 1;
            let present = match g.gate_type(not) {
                Some(ty) => ty.is_not() && !g.is_observable(not),
                None => false,
            };
            if !present {
                proof {
                    assert(is_not_gate(old(g), nots@[m0]));
                    assert(!old(g).observable(nots@[m0] as int));
                    if g.has(not as int) {
                        assert(g.ty(not as int) == old(g).ty(not as int));
                        assert(g.output_set() == old(g).output_set());
                    }
                }
                continue;
            }
            proof {
                g.lemma_gate_ok(not as int);
                g.lemma_consts();
            }
            let temp_deps = g.dependents_of(not);
            let ghost s0 = *g;
            let mut k: usize = 0;
            while k < temp_deps.len()
                invariant
                    g.optimized_from(old(g)),
                    g.optimized_from(&s_start),
                    g.num_slots() == s0.num_slots(),
                    g.free() == s0.free(),
                    g.has(not as int),
                    g.ty(not as int) is Not,
                    !g.observable(not as int),
                    first_not < g.num_slots(),
                    temp_deps@ == s0.dependents(not as int),
                    s0.gate_ok(not as int),
                    k <= temp_deps@.len(),
                    forall|i: int| #[trigger] g.has(i) == s0.has(i),
                    forall|i: int| #[trigger] g.has(i) ==> g.ty(i) == old(g).ty(i),
                    not != first_not,
                    forall|j: usize| s0.has(j as int) ==> #[trigger] g.ty(j as int) == s0.ty(j as int),
                    forall|j: usize| s0.has(j as int) ==> #[trigger] g.deps(j as int) == (if temp_deps@.take(k as int).contains(j) {
                        swapped(s0.deps(j as int), not, first_not)
                    } else {
                        s0.deps(j as int)
                    }),
                    forall|j: int, x: usize| 0 <= j < l && g.has(items[j].gate as int)
                        && #[trigger] old(g).dependents(items[j].gate as int).contains(x)
                        ==> g.dependents(items[j].gate as int).contains(x),
                    forall|x: usize, y: usize| s0.has(x as int) && #[trigger] s0.dependents(x as int).contains(y)
                        ==> g.dependents(x as int).contains(y),
                    s0.has(first_not as int) ==> forall|q: int| 0 <= q < k ==> g.dependents(first_not as int).contains(
                        #[trigger] temp_deps@[q]),
                decreases temp_deps@.len() - k,
            {
                let dependent = temp_deps[k];
                proof {
                    assert(s0.dependents(not as int)[k as int] < s0.num_slots());
                }
                let ghost before = *g;
                g.swap_dependency_of(dependent, not, first_not);
                let ghost mid = *g;
                g.insert_dependent(first_not, dependent);
                proof {
                    GateGraphBuilder::lemma_optimized_trans(old(g), &before, &mid);
                    GateGraphBuilder::lemma_optimized_trans(old(g), &mid, g);
                    GateGraphBuilder::lemma_optimized_trans(&s_start, &before, &mid);
                    GateGraphBuilder::lemma_optimized_trans(&s_start, &mid, g);
                    if dependent != not {
                        assert(mid.slots()[not as int] == before.slots()[not as int]);
                    }
                    if first_not != not {
                        assert(g.slots()[not as int] == mid.slots()[not as int]);
                    }
                    assert forall|j: usize| s0.has(j as int) implies #[trigger] g.ty(j as int) == s0.ty(j as int) by {
                        assert(before.ty(j as int) == s0.ty(j as int));
                        if j != dependent { assert(mid.slots()[j as int] == before.slots()[j as int]); }
                        if j != first_not { assert(g.slots()[j as int] == mid.slots()[j as int]); }
                    }
                    assert forall|j: usize| s0.has(j as int) implies #[trigger] g.deps(j as int) == (if temp_deps@.take(k + 1).contains(j) {
                        swapped(s0.deps(j as int), not, first_not)
                    } else {
                        s0.deps(j as int)
                    }) by {
                        assert(temp_deps@.take(k + 1) =~= temp_deps@.take(k as int).push(dependent));
                        assert(before.deps(j as int) == (if temp_deps@.take(k as int).contains(j) {
                            swapped(s0.deps(j as int), not, first_not)
                        } else {
                            s0.deps(j as int)
                        }));
                        if j != dependent {
                            assert(mid.slots()[j as int] == before.slots()[j as int]);
                            assert(temp_deps@.take(k + 1).contains(j) == temp_deps@.take(k as int).contains(j));
                        } else {
                            assert(temp_deps@.take(k + 1)[k as int] == j);
                            assert(swapped(swapped(s0.deps(j as int), not, first_not), not, first_not)
                                =~= swapped(s0.deps(j as int), not, first_not));
                            assert(swapped(s0.deps(j as int), not, first_not) =~= s0.deps(j as int).map_values(
                                |d: usize| if d == not { first_not } else { d }));
                        }
                        if j != first_not { assert(g.slots()[j as int] == mid.slots()[j as int]); }
                    }
                    assert forall|i: int| #[trigger] g.has(i) == s0.has(i) by {
                        assert(before.has(i) == s0.has(i));
                        if i != dependent as int && 0 <= i < g.num_slots() { assert(mid.slots()[i] == before.slots()[i]); }
                        if i != first_not as int && 0 <= i < g.num_slots() { assert(g.slots()[i] == mid.slots()[i]); }
                    }
                    assert forall|i: int| #[trigger] g.has(i) implies g.ty(i) == old(g).ty(i) by {
                        assert(before.has(i));
                        if i != dependent as int { assert(mid.slots()[i] == before.slots()[i]); }
                        if i != first_not as int { assert(g.slots()[i] == mid.slots()[i]); }
                    }
                    assert forall|j: int, x: usize| 0 <= j < l && g.has(items[j].gate as int)
                        && #[trigger] old(g).dependents(items[j].gate as int).contains(x)
                        implies g.dependents(items[j].gate as int).contains(x) by {
                        let gj = items[j].gate as int;
                        assert(before.has(gj));
                        assert(before.dependents(gj).contains(x));
                        if gj != dependent as int { assert(mid.slots()[gj] == before.slots()[gj]); }
                        assert(mid.dependents(gj) == before.dependents(gj));
                        if gj != first_not as int {
                            assert(g.slots()[gj] == mid.slots()[gj]);
                        } else {
                            let md = mid.dependents(gj);
                            if !md.contains(dependent) {
                                let q = choose|q: int| 0 <= q < md.len() && md[q] == x;
                                assert(md.push(dependent)[q] == x);
                            }
                        }
                    }
                    assert forall|x: usize, y: usize| s0.has(x as int) && #[trigger] s0.dependents(x as int).contains(y)
                        implies g.dependents(x as int).contains(y) by {
                        assert(before.has(x as int));
                        assert(before.dependents(x as int).contains(y));
                        if x != dependent { assert(mid.slots()[x as int] == before.slots()[x as int]); }
                        assert(mid.dependents(x as int) == before.dependents(x as int));
                        if x != first_not {
                            assert(g.slots()[x as int] == mid.slots()[x as int]);
                        } else {
                            lemma_set_insert_keeps(mid.dependents(x as int), dependent, y);
                        }
                    }
                    if s0.has(first_not as int) {
                        let f = first_not as int;
                        assert(before.has(f) && mid.has(f));
                        if first_not != dependent { assert(mid.slots()[f] == before.slots()[f]); }
                        assert(mid.dependents(f) == before.dependents(f));
                        assert forall|q: int| 0 <= q < k + 1 implies g.dependents(first_not as int).contains(
                            #[trigger] temp_deps@[q]) by {
                            if q < k {
                                assert(before.dependents(f).contains(temp_deps@[q]));
                            }
                            lemma_set_insert_keeps(mid.dependents(f), dependent, temp_deps@[q]);
                        }
                    }
                }
                k = k + 1;
            }
            proof {
                assert(not >= 2) by {
                    g.lemma_consts();
                }
                assert(temp_deps@.take(temp_deps@.len() as int) =~= temp_deps@);
            }
            let ghost replaced = *g;
            let ghost before = *g;
            g.remove_gate(not);
            let ghost mid = *g;
            g.remove_dependent(gate, not);
            proof {
                GateGraphBuilder::lemma_optimized_trans(old(g), &before, &mid);
                GateGraphBuilder::lemma_optimized_trans(old(g), &mid, g);
                GateGraphBuilder::lemma_optimized_trans(&s_start, &before, &mid);
                GateGraphBuilder::lemma_optimized_trans(&s_start, &mid, g);
                assert forall|i: int| #[trigger] g.has(i) implies g.ty(i) == old(g).ty(i) by {
                    assert(mid.has(i));
                    assert(before.has(i));
                    if i != not as int { assert(mid.slots()[i] == before.slots()[i]); }
                    if i != gate as int { assert(g.slots()[i] == mid.slots()[i]); }
                }
                assert forall|j: int| 0 <= j < m implies !g.has(#[trigger] nots@[j] as int) by {
                    if j < m0 {
                        assert(!s0.has(nots@[j] as int));
                        assert(!before.has(nots@[j] as int));
                        assert(!mid.has(nots@[j] as int));
                    } else {
                        assert(!mid.has(not as int));
                        assert(nots@[j] != gate);
                        assert(g.slots()[not as int] == mid.slots()[not as int]);
                    }
                }
                assert forall|j: int, x: usize| 0 <= j < l && g.has(items[j].gate as int)
                    && #[trigger] old(g).dependents(items[j].gate as int).contains(x)
                    implies g.dependents(items[j].gate as int).contains(x) by {
                    let gj = items[j].gate as int;
                    assert(items[j].gate < items[l].gate);
                    assert(mid.has(gj));
                    assert(before.has(gj));
                    assert(gj != not as int);
                    assert(mid.slots()[gj] == before.slots()[gj]);
                    assert(g.slots()[gj] == mid.slots()[gj]);
                }
                assert(s0 == trace.last());
                assert forall|j: int| j != not implies #[trigger] g.has(j) == s0.has(j) by {
                    assert(replaced.has(j) == s0.has(j));
                    if 0 <= j < g.num_slots() {
                        assert(mid.slots()[j] == before.slots()[j]);
                        if j != gate as int { assert(g.slots()[j] == mid.slots()[j]); }
                    }
                }
                assert forall|j: usize| #![trigger g.ty(j as int)] #![trigger g.deps(j as int)]
                    j != not && s0.has(j as int) implies g.ty(j as int) == s0.ty(j as int)
                    && g.deps(j as int) == (if s0.dependents(not as int).contains(j) {
                        swapped(s0.deps(j as int), not, first_not)
                    } else {
                        s0.deps(j as int)
                    }) by {
                    assert(replaced.ty(j as int) == s0.ty(j as int));
                    assert(replaced.deps(j as int) == (if temp_deps@.take(temp_deps@.len() as int).contains(j) {
                        swapped(s0.deps(j as int), not, first_not)
                    } else {
                        s0.deps(j as int)
                    }));
                    assert(mid.slots()[j as int] == before.slots()[j as int]);
                    if j != gate { assert(g.slots()[j as int] == mid.slots()[j as int]); }
                }
                assert forall|x: usize, y: usize| x != not && y != not && s0.has(x as int)
                    && #[trigger] s0.dependents(x as int).contains(y) implies g.dependents(x as int).contains(y) by {
                    assert(replaced.dependents(x as int).contains(y));
                    assert(mid.slots()[x as int] == before.slots()[x as int]);
                    if x != gate {
                        assert(g.slots()[x as int] == mid.slots()[x as int]);
                    } else {
                        assert(mid.has(x as int));
                        lemma_swap_remove_keeps(mid.dependents(x as int), not, y);
                    }
                }
                if s0.has(first_not as int) {
                    let f = first_not as int;
                    assert forall|y: usize| y != not && #[trigger] s0.dependents(not as int).contains(y)
                        implies g.dependents(f).contains(y) by {
                        let q = choose|q: int| 0 <= q < temp_deps@.len() && temp_deps@[q] == y;
                        assert(replaced.dependents(f).contains(temp_deps@[q]));
                        assert(mid.slots()[f] == before.slots()[f]);
                        if first_not != gate {
                            assert(g.slots()[f] == mid.slots()[f]);
                        } else {
                            assert(mid.has(f));
                            lemma_swap_remove_keeps(mid.dependents(f), not, y);
                        }
                    }
                }
                assert(not_replaced(&s0, g, not, first_not));
                assert(is_not_gate(old(g), nots@[m0]));
                assert(merge_step(old(g), &trace.last(), g));
                lemma_merge_push(old(g), trace, *g);
                trace = trace.push(*g);
            }
        }
        proof {
            assert forall|j: int| work@.len() <= j < items.len() implies #[trigger] keeps_one_not(old(g), g, items[j].gate) by {
                if j > l {
                    assert(keeps_one_not(old(g), &s_start, items[j].gate));
                    lemma_keeps_fewer(old(g), &s_start, g, items[j].gate);
                } else {
                    if g.has(gate as int) {
                        assert(s_start.has(gate as int));
                        assert forall|n1: usize, n2: usize| #[trigger] listed_not(old(g), gate, n1)
                            && #[trigger] listed_not(old(g), gate, n2) && n1 != n2
                            implies !(g.has(n1 as int) && g.has(n2 as int)) by {
                            let x = if n1 != first_not { n1 } else { n2 };
                            assert(listed_not(old(g), gate, x));
                            assert(old(g).dependents(gate as int).contains(x));
                            assert(s_start.dependents(gate as int).contains(x));
                            if g.has(x as int) {
                                assert(s_start.has(x as int));
                                assert(s_start.ty(x as int) == old(g).ty(x as int));
                                assert(s_start.output_set() == old(g).output_set());
                                let q = choose|q: int| 0 <= q < candidates@.len() && candidates@[q] == x;
                                assert(nots@.contains(candidates@[q]));
                                let r = choose|r: int| 0 <= r < nots@.len() && nots@[r] == x;
                                assert(!g.has(nots@[r] as int));
                            }
                        }
                    }
                }
            }
        }
    }
    proof {
        assert forall|gate: usize| #[trigger] keeps_one_not(old(g), g, gate) by {
            if gate < n && has_item(items, gate) {
                let j = choose|j: int| 0 <= j < items.len() && items[j].gate == gate;
                assert(keeps_one_not(old(g), g, items[j].gate));
            } else if gate < n && old(g).has(gate as int) {
                assert(few_nots(old(g), gate));
                lemma_few_nots(old(g), g, gate);
            } else {
                assert(!g.has(gate as int));
            }
        }
    }
}

} // verus!
