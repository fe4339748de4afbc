use crate::graph::edges::{dedup_seq, sorted};
use crate::graph::gate::{all_true, any_true, gate_output, parity, GateType};
use crate::graph::graph_builder::{lemma_dedup, GateGraphBuilder};
use vstd::prelude::*;

verus! {

/// True if no item of `s` is repeated.
pub open spec fn unique(s: Seq<usize>) -> bool {
    forall|a: int, b: int| 0 <= a < s.len() && 0 <= b < s.len() && a != b ==> s[a] != s[b]
}

/// True if gate `i` of `g` is an And, Nand, Or or Nor gate.
pub open spec fn is_idempotent(ty: GateType) -> bool {
    ty is And || ty is Nand || ty is Or || ty is Nor
}

/// Taking one item out of `s` flips the parity of `s` under `e` by the value of that item.
proof fn lemma_parity_remove(s: Seq<usize>, e: spec_fn(usize) -> bool, k: int)
    requires
        0 <= k < s.len(),
    ensures
        parity(s.map_values(e)) == (parity(s.remove(k).map_values(e)) != e(s[k])),
    decreases s.len(),
{
    let m = s.map_values(e);
    if k == s.len() - 1 {
        assert(s.remove(k).map_values(e) =~= m.drop_last());
    } else {
        let t = s.drop_last();
        lemma_parity_remove(t, e, k);
        assert(t.map_values(e) =~= m.drop_last());
        let r = s.remove(k).map_values(e);
        assert(r.drop_last() =~= t.remove(k).map_values(e));
        assert(r.last() == e(s.last()));
    }
}

/// The number of times `v` occurs in `s` without the item at `k`.
proof fn lemma_count_remove(s: Seq<usize>, k: int, v: usize)
    requires
        0 <= k < s.len(),
    ensures
        s.remove(k).to_multiset().count(v) == s.to_multiset().count(v) - (if s[k] == v { 1int } else { 0int }),
{
    broadcast use vstd::multiset::group_multiset_axioms;
    vstd::seq_lib::to_multiset_remove(s, k);
    s.to_multiset_ensures();
    assert(s.contains(s[k]));
}

/// Two sequences in which every item occurs an even or an odd number of times alike have
/// the same parity under any valuation.
proof fn lemma_parity_counts(s1: Seq<usize>, s2: Seq<usize>, e: spec_fn(usize) -> bool)
    requires
        forall|v: usize| #[trigger] s1.to_multiset().count(v) % 2 == s2.to_multiset().count(v) % 2,
    ensures
        parity(s1.map_values(e)) == parity(s2.map_values(e)),
    decreases s1.len() + s2.len(),
{
    if s1.len() > 0 {
        let x = s1.last();
        let l = s1.len() - 1;
        s1.to_multiset_ensures();
        s2.to_multiset_ensures();
        assert(s1.contains(x));
        if s2.contains(x) {
            let j = s2.index_of(x);
            let t1 = s1.remove(l);
            let t2 = s2.remove(j);
            assert forall|v: usize| #[trigger] t1.to_multiset().count(v) % 2 == t2.to_multiset().count(v) % 2 by {
                lemma_count_remove(s1, l, v);
                lemma_count_remove(s2, j, v);
                assert(s1.to_multiset().count(v) % 2 == s2.to_multiset().count(v) % 2);
            }
            lemma_parity_counts(t1, t2, e);
            lemma_parity_remove(s1, e, l);
            lemma_parity_remove(s2, e, j);
        } else {
            assert(s2.to_multiset().count(x) == 0);
            let t1 = s1.remove(l);
            lemma_count_remove(s1, l, x);
            assert(t1.to_multiset().count(x) > 0);
            t1.to_multiset_ensures();
            assert(t1.contains(x));
            let j = t1.index_of(x);
            let u1 = t1.remove(j);
            assert forall|v: usize| #[trigger] u1.to_multiset().count(v) % 2 == s2.to_multiset().count(v) % 2 by {
                lemma_count_remove(s1, l, v);
                lemma_count_remove(t1, j, v);
                assert(s1.to_multiset().count(v) % 2 == s2.to_multiset().count(v) % 2);
            }
            lemma_parity_counts(u1, s2, e);
            lemma_parity_remove(s1, e, l);
            lemma_parity_remove(t1, e, j);
        }
    } else if s2.len() > 0 {
        let x = s2.last();
        let l = s2.len() - 1;
        s1.to_multiset_ensures();
        s2.to_multiset_ensures();
        assert(s2.contains(x));
        assert(s1.to_multiset().count(x) == 0) by {
            assert(!s1.contains(x));
        }
        let t2 = s2.remove(l);
        lemma_count_remove(s2, l, x);
        t2.to_multiset_ensures();
        assert(t2.contains(x));
        let j = t2.index_of(x);
        let u2 = t2.remove(j);
        assert forall|v: usize| #[trigger] s1.to_multiset().count(v) % 2 == u2.to_multiset().count(v) % 2 by {
            lemma_count_remove(s2, l, v);
            lemma_count_remove(t2, j, v);
            assert(s1.to_multiset().count(v) % 2 == s2.to_multiset().count(v) % 2);
        }
        lemma_parity_counts(s1, u2, e);
        lemma_parity_remove(s2, e, l);
        lemma_parity_remove(t2, e, j);
    } else {
        assert(s1.map_values(e) =~= s2.map_values(e));
    }
}

/// Two sequences with the same items have the same conjunction and disjunction under any
/// valuation.
proof fn lemma_all_any_same(s1: Seq<usize>, s2: Seq<usize>, e: spec_fn(usize) -> bool)
    requires
        forall|v: usize| #[trigger] s1.contains(v) <==> s2.contains(v),
    ensures
        all_true(s1.map_values(e)) == all_true(s2.map_values(e)),
        any_true(s1.map_values(e)) == any_true(s2.map_values(e)),
{
    let m1 = s1.map_values(e);
    let m2 = s2.map_values(e);
    if all_true(m1) {
        assert forall|k: int| 0 <= k < m2.len() implies m2[k] by {
            assert(s2.contains(s2[k]));
            assert(s1.contains(s2[k]));
            let j = choose|j: int| 0 <= j < s1.len() && s1[j] == s2[k];
            assert(m1[j]);
        }
    }
    if all_true(m2) {
        assert forall|k: int| 0 <= k < m1.len() implies m1[k] by {
            assert(s1.contains(s1[k]));
            assert(s2.contains(s1[k]));
            let j = choose|j: int| 0 <= j < s2.len() && s2[j] == s1[k];
            assert(m2[j]);
        }
    }
    if any_true(m1) {
        let k = choose|k: int| 0 <= k < m1.len() && m1[k];
        assert(s1.contains(s1[k]));
        assert(s2.contains(s1[k]));
        let j = choose|j: int| 0 <= j < s2.len() && s2[j] == s1[k];
        assert(m2[j]);
    }
    if any_true(m2) {
        let k = choose|k: int| 0 <= k < m2.len() && m2[k];
        assert(s2.contains(s2[k]));
        assert(s1.contains(s2[k]));
        let j = choose|j: int| 0 <= j < s1.len() && s1[j] == s2[k];
        assert(m1[j]);
    }
}

/// What `g` computes for the gates `ds`, `fuel` levels deep, is `ds` under `e`, when `e`
/// gives what `g` computes for each gate.
proof fn lemma_eval_all_is_map(g: &GateGraphBuilder, levers: spec_fn(int) -> bool, ds: Seq<usize>, fuel: nat,
    e: spec_fn(usize) -> bool)
    requires
        forall|d: usize| #[trigger] e(d) == g.eval(levers, d as int, fuel),
    ensures
        g.eval_all(levers, ds, fuel) == ds.map_values(e),
    decreases ds.len(),
{
    if ds.len() > 0 {
        lemma_eval_all_is_map(g, levers, ds.drop_last(), fuel, e);
        assert(ds.map_values(e) =~= ds.drop_last().map_values(e).push(e(ds.last())));
    } else {
        assert(ds.map_values(e) =~= Seq::<bool>::empty());
    }
}

/// Deduplicating dependencies keeps what every gate computes: where `g` has the gates of
/// `g0`, of the same types, with the dependencies that deduplication leaves of theirs (see
/// [deduped]), every gate computes in `g` what it computes in `g0`, at every depth and
/// whatever the levers.
pub proof fn law_dedup_keeps_eval(g0: &GateGraphBuilder, g: &GateGraphBuilder, levers: spec_fn(int) -> bool, i: int,
    fuel: nat)
    requires
        g0.base_wf(),
        g.base_wf(),
        forall|j: int| #[trigger] g.has(j) == g0.has(j),
        forall|j: int| #[trigger] g0.has(j) ==> g.ty(j) == g0.ty(j) && deduped(g0, g, j),
        forall|j: int| #[trigger] g0.has(j) && !is_idempotent(g0.ty(j)) && !(g0.ty(j) is Xor || g0.ty(j) is Xnor)
            ==> g.deps(j) == g0.deps(j),
    ensures
        g.eval(levers, i, fuel) == g0.eval(levers, i, fuel),
    decreases fuel,
{
    if fuel > 0 && g0.has(i) {
        let f = (fuel - 1) as nat;
        let e = |d: usize| g0.eval(levers, d as int, f);
        assert forall|d: usize| #[trigger] e(d) == g.eval(levers, d as int, f) by {
            law_dedup_keeps_eval(g0, g, levers, d as int, f);
        }
        lemma_eval_all_is_map(g, levers, g.deps(i), f, e);
        lemma_eval_all_is_map(g0, levers, g0.deps(i), f, e);
        let s0 = g0.deps(i);
        let s1 = g.deps(i);
        let ty = g0.ty(i);
        assert(deduped(g0, g, i));
        assert(g.has(i));
        if is_idempotent(ty) {
            assert forall|v: usize| #[trigger] s1.contains(v) <==> s0.contains(v) by {
                s0.to_multiset_ensures();
                s1.to_multiset_ensures();
                assert(s1.to_multiset().count(v) == dedup_count(ty, s0.to_multiset().count(v)));
            }
            lemma_all_any_same(s1, s0, e);
        } else if ty is Xor || ty is Xnor {
            assert forall|v: usize| #[trigger] s1.to_multiset().count(v) % 2 == s0.to_multiset().count(v) % 2 by {
                assert(s1.to_multiset().count(v) == dedup_count(ty, s0.to_multiset().count(v)));
            }
            lemma_parity_counts(s1, s0, e);
        } else {
            assert(s1 == s0);
        }
    }
}

/// True if `b` can come out of [dependency_deduplication_pass] run on `a`.
pub open spec fn deps_deduplicated(a: &GateGraphBuilder, b: &GateGraphBuilder) -> bool {
    &&& b.optimized_from(a)
    &&& forall|i: int| #[trigger] b.has(i) == a.has(i)
    &&& forall|i: int| #[trigger] a.has(i) ==> b.ty(i) == a.ty(i) && deduped(a, b, i)
    &&& forall|i: int| #[trigger] a.has(i) ==> b.dependents(i) == a.dependents(i)
    &&& forall|i: int| #[trigger] a.has(i) && !is_idempotent(a.ty(i)) && !(a.ty(i) is Xor || a.ty(i) is Xnor)
        ==> b.deps(i) == a.deps(i)
}

/// Returns true if an item of `deps` is repeated.
fn has_duplicate(deps: &Vec<usize>) -> (r: bool)
    ensures
        r == !unique(deps@),
{
    let mut a: usize = 0;
    while a < deps.len()
        invariant
            a <= deps@.len(),
            forall|x: int, y: int| 0 <= x < a && 0 <= y < deps@.len() && x != y ==> deps@[x] != deps@[y],
        decreases deps@.len() - a,
    {
        let mut b: usize = 0;
        while b < deps.len()
            invariant
                a < deps@.len(),
                b <= deps@.len(),
                forall|x: int, y: int| 0 <= x < a && 0 <= y < deps@.len() && x != y ==> deps@[x] != deps@[y],
                forall|y: int| 0 <= y < b && y != a ==> deps@[a as int] != deps@[y],
            decreases deps@.len() - b,
        {
            if a != b && deps[a] == deps[b] {
                return true;
            }
            b = b + 1;
        }
        a = a + 1;
    }
    false
}

/// Dropping consecutive repeats of a sorted sequence leaves it strictly increasing, with the
/// same last item.
pub proof fn lemma_dedup_sorted(s: Seq<usize>)
    requires
        sorted(s),
    ensures
        forall|a: int, b: int| 0 <= a < b < dedup_seq(s).len() ==> dedup_seq(s)[a] < dedup_seq(s)[b],
        s.len() > 0 ==> dedup_seq(s).len() > 0 && dedup_seq(s).last() == s.last(),
    decreases s.len(),
{
    if s.len() > 1 {
        let t = s.drop_last();
        assert(sorted(t));
        lemma_dedup_sorted(t);
        let r = dedup_seq(t);
        assert(r.last() == t.last());
        assert(t.last() == s[s.len() - 2]);
        if s.last() != s[s.len() - 2] {
            assert(s[s.len() - 2] <= s[s.len() - 1]);
            assert forall|a: int, b: int| 0 <= a < b < dedup_seq(s).len() implies dedup_seq(s)[a] < dedup_seq(s)[b] by {
                if b == dedup_seq(s).len() - 1 {
                    if a < r.len() - 1 {
                        assert(r[a] < r[r.len() - 1]);
                    }
                    assert(dedup_seq(s)[a] == r[a]);
                } else {
                    assert(dedup_seq(s)[a] == r[a] && dedup_seq(s)[b] == r[b]);
                }
            }
        }
    }
}

/// A strictly increasing sequence has no repeated item.
proof fn lemma_increasing_unique(s: Seq<usize>)
    requires
        forall|a: int, b: int| 0 <= a < b < s.len() ==> s[a] < s[b],
    ensures
        unique(s),
{
    assert forall|a: int, b: int| 0 <= a < s.len() && 0 <= b < s.len() && a != b implies s[a] != s[b] by {
        if a < b { assert(s[a] < s[b]); } else { assert(s[b] < s[a]); }
    }
}

/// How many copies of a dependency that a gate of type `ty` holds `c` times are left after
/// deduplication: one for an And, Nand, Or or Nor gate; one or two, as `c` is odd or even,
/// for an Xor or Xnor gate; all of them for other gates.
pub open spec fn dedup_count(ty: GateType, c: nat) -> nat {
    if c == 0 {
        0
    } else if is_idempotent(ty) {
        1
    } else if ty is Xor || ty is Xnor {
        if c % 2 == 0 { 2 } else { 1 }
    } else {
        c
    }
}

/// True if every dependency of gate `i` of `g` occurs as many times as deduplication leaves
/// of it in gate `i` of `g0`.
pub open spec fn deduped(g0: &GateGraphBuilder, g: &GateGraphBuilder, i: int) -> bool {
    forall|v: usize| #[trigger] g.deps(i).to_multiset().count(v)
        == dedup_count(g0.ty(i), g0.deps(i).to_multiset().count(v))
}

/// A sequence with no repeated item holds each item at most once.
proof fn lemma_unique_count(s: Seq<usize>, v: usize)
    requires
        unique(s),
    ensures
        s.to_multiset().count(v) <= 1,
    decreases s.len(),
{
    if s.len() > 0 {
        let t = s.drop_last();
        assert(t.push(s.last()) =~= s);
        t.to_multiset_ensures();
        assert(unique(t)) by {
            assert forall|a: int, b: int| 0 <= a < t.len() && 0 <= b < t.len() && a != b implies t[a] != t[b] by {
                assert(s[a] != s[b]);
            }
        }
        lemma_unique_count(t, v);
        if s.last() == v && t.contains(v) {
            let j = choose|j: int| 0 <= j < t.len() && t[j] == v;
            assert(s[j] == s[s.len() - 1]);
        }
    } else {
        s.to_multiset_ensures();
    }
}

/// Dropping consecutive repeats of a sorted sequence leaves one copy of each of its items.
proof fn lemma_dedup_count(s: Seq<usize>, v: usize)
    requires
        sorted(s),
    ensures
        dedup_seq(s).to_multiset().count(v) == (if s.to_multiset().count(v) > 0 { 1nat } else { 0nat }),
    decreases s.len(),
{
    if s.len() == 0 {
        s.to_multiset_ensures();
    } else if s.len() == 1 {
        s.to_multiset_ensures();
        lemma_unique_count(s, v);
    } else {
        let t = s.drop_last();
        assert(t.push(s.last()) =~= s);
        assert(sorted(t));
        t.to_multiset_ensures();
        lemma_dedup_count(t, v);
        let r = dedup_seq(t);
        r.to_multiset_ensures();
        lemma_dedup_sorted(t);
        if s.last() == s[s.len() - 2] {
            assert(t.contains(s.last())) by {
                assert(t[t.len() - 1] == s.last());
            }
        } else {
            if v == s.last() {
                assert(!t.contains(v)) by {
                    if t.contains(v) {
                        let j = choose|j: int| 0 <= j < t.len() && t[j] == v;
                        assert(s[j] <= s[s.len() - 2]);
                        assert(s[s.len() - 2] <= s[s.len() - 1]);
                    }
                }
            }
        }
    }
}

/// Removes repeated dependencies from the gates: an And, Nand, Or or Nor gate keeps one copy
/// of each, an Xor or Xnor gate keeps one copy of a dependency repeated an odd number of times
/// and two of one repeated an even number of times; other gates keep their dependencies. No
/// gate computes anything else afterwards (see [law_dedup_keeps_eval]).
pub fn dependency_deduplication_pass(g: &mut GateGraphBuilder)
    requires
        old(g).base_wf(),
    ensures
        final(g).optimized_from(old(g)),
        forall|i: int| #[trigger] final(g).has(i) && is_idempotent(final(g).ty(i)) && old(g).ty(i) == final(g).ty(i)
            ==> unique(final(g).deps(i)),
        forall|i: int| #[trigger] final(g).has(i) == old(g).has(i),
        forall|i: int| #[trigger] old(g).has(i) ==> final(g).ty(i) == old(g).ty(i) && deduped(old(g), final(g), i),
        forall|i: int| #[trigger] old(g).has(i) ==> final(g).dependents(i) == old(g).dependents(i),
        forall|i: int| #[trigger] old(g).has(i) && !is_idempotent(old(g).ty(i)) && !(old(g).ty(i) is Xor || old(g).ty(i) is Xnor)
            ==> final(g).deps(i) == old(g).deps(i),
        forall|levers: spec_fn(int) -> bool, i: int, fuel: nat| #[trigger] final(g).eval(levers, i, fuel)
            == old(g).eval(levers, i, fuel),
        deps_deduplicated(old(g), final(g)),
{
    proof {
        g.lemma_optimized_refl();
    }
    let mut work: Vec<usize> = Vec::new();
    let n = g.total_len();
    let mut i: usize = 0;
    while i < n
        invariant
            *g == *old(g),
            g.base_wf(),
            n == g.num_slots(),
            i <= n,
            forall|j: int| 0 <= j < i && #[trigger] g.has(j) && !unique(g.deps(j)) ==> work@.contains(j as usize),
            forall|k: int| 0 <= k < work@.len() ==> #[trigger] work@[k] < i,
            forall|a: int, b: int| 0 <= a < b < work@.len() ==> work@[a] < work@[b],
        decreases n - i,
    {
        let ghost w = work@;
        if let Some(_) = g.gate_type(i) {
            if has_duplicate(&g.dependencies_of(i)) {
                work.push(i);
                proof {
                    assert(work@[work@.len() - 1] == i);
                }
            }
        }
        proof {
            assert forall|j: int| 0 <= j < i + 1 && #[trigger] g.has(j) && !unique(g.deps(j)) implies work@.contains(j as usize) by {
                if j < i {
                    assert(w.contains(j as usize));
                    let k = choose|k: int| 0 <= k < w.len() && w[k] == j as usize;
                    assert(work@[k] == w[k]);
                }
            }
            assert forall|k: int| 0 <= k < work@.len() implies #[trigger] work@[k] < i + 1 by {
                if k < w.len() { assert(work@[k] == w[k]); }
            }
            assert forall|a: int, b: int| 0 <= a < b < work@.len() implies work@[a] < work@[b] by {
                assert(work@[a] == w[a]);
                if b < w.len() { assert(work@[b] == w[b]); }
            }
        }
        i = i + 1;
    }
    proof {
        assert forall|j: int| #[trigger] g.has(j) && !unique(g.deps(j)) implies work@.contains(j as usize) by {
            assert(j < n);
        }
        assert forall|j: int| #[trigger] g.has(j) && !deduped(old(g), g, j) implies work@.contains(j as usize) by {
            if unique(g.deps(j)) {
                assert forall|v: usize| #[trigger] g.deps(j).to_multiset().count(v)
                    == dedup_count(old(g).ty(j), old(g).deps(j).to_multiset().count(v)) by {
                    lemma_unique_count(g.deps(j), v);
                }
            }
        }
    }
    while work.len() > 0
        invariant
            g.optimized_from(old(g)),
            forall|j: int| #[trigger] g.has(j) && is_idempotent(g.ty(j)) && old(g).ty(j) == g.ty(j) && !unique(g.deps(j))
                ==> work@.contains(j as usize),
            forall|j: int| #[trigger] g.has(j) == old(g).has(j),
            forall|j: int| #[trigger] g.has(j) ==> g.ty(j) == old(g).ty(j),
            forall|j: int| #[trigger] g.has(j) ==> g.dependents(j) == old(g).dependents(j),
            forall|j: int| #[trigger] g.has(j) ==> g.deps(j) == old(g).deps(j) || deduped(old(g), g, j),
            forall|j: int| #[trigger] g.has(j) && !deduped(old(g), g, j) ==> work@.contains(j as usize),
            forall|j: int| #[trigger] g.has(j) && !is_idempotent(g.ty(j)) && !(g.ty(j) is Xor || g.ty(j) is Xnor)
                ==> g.deps(j) == old(g).deps(j),
            forall|k: int| 0 <= k < work@.len() && g.has(#[trigger] work@[k] as int) ==> g.deps(work@[k] as int) == old(g).deps(work@[k] as int),
            forall|a: int, b: int| 0 <= a < b < work@.len() ==> work@[a] < work@[b],
        decreases work@.len(),
    {
        let ghost w0 = work@;
        let idx = work.pop().unwrap();
        proof {
            assert(w0 == work@.push(idx));
            assert(w0[w0.len() - 1] == idx);
            assert forall|k: int| 0 <= k < work@.len() implies #[trigger] work@[k] != idx by {
                assert(w0[k] < w0[w0.len() - 1]);
            }
        }
        let ghost s0 = *g;
        let slot_count = g.total_len();
        let ty = match g.gate_type(idx) {
            None => {
                proof {
                    assert forall|j: int| #[trigger] g.has(j) && is_idempotent(g.ty(j)) && old(g).ty(j) == g.ty(j) && !unique(g.deps(j))
                        implies work@.contains(j as usize) by {
                        assert(j != idx);
                        assert(j < slot_count);
                        assert(w0.contains(j as usize));
                        let k = choose|k: int| 0 <= k < w0.len() && w0[k] == j as usize;
                        assert(k != w0.len() - 1);
                        assert(work@[k] == j as usize);
                    }
                    assert forall|j: int| #[trigger] g.has(j) && !deduped(old(g), g, j) implies work@.contains(j as usize) by {
                        assert(j != idx);
                        let k = choose|k: int| 0 <= k < w0.len() && w0[k] == j as usize;
                        assert(k != w0.len() - 1);
                        assert(work@[k] == j as usize);
                    }
                    assert forall|k: int| 0 <= k < work@.len() && g.has(#[trigger] work@[k] as int) implies g.deps(work@[k] as int) == old(g).deps(work@[k] as int) by {
                        assert(work@[k] == w0[k]);
                    }
                }
                continue;
            },
            Some(ty) => ty,
        };
        match ty {
            GateType::Off | GateType::On | GateType::Lever | GateType::Not => {
                proof {
                    assert forall|j: int| #[trigger] g.has(j) && is_idempotent(g.ty(j)) && old(g).ty(j) == g.ty(j) && !unique(g.deps(j))
                        implies work@.contains(j as usize) by {
                        assert(j != idx);
                        assert(j < slot_count);
                        assert(w0.contains(j as usize));
                        let k = choose|k: int| 0 <= k < w0.len() && w0[k] == j as usize;
                        assert(k != w0.len() - 1);
                        assert(work@[k] == j as usize);
                    }
                    assert forall|j: int| #[trigger] g.has(j) && !deduped(old(g), g, j) implies work@.contains(j as usize) by {
                        if j == idx as int {
                            assert(g.deps(j) == old(g).deps(j)) by { assert(w0[w0.len() - 1] == idx); }
                            assert(deduped(old(g), g, j));
                        }
                        let k = choose|k: int| 0 <= k < w0.len() && w0[k] == j as usize;
                        assert(k != w0.len() - 1);
                        assert(work@[k] == j as usize);
                    }
                    assert forall|k: int| 0 <= k < work@.len() && g.has(#[trigger] work@[k] as int) implies g.deps(work@[k] as int) == old(g).deps(work@[k] as int) by {
                        assert(work@[k] == w0[k]);
                    }
                }
                continue;
            },
            _ => {},
        }
        proof {
            assert(g.deps(idx as int) == old(g).deps(idx as int)) by {
                assert(w0[w0.len() - 1] == idx);
            }
        }
        g.sort_dependencies(idx);
        let ghost s1 = *g;
        let sorted_deps = g.dependencies_of(idx);
        g.dedup_dependencies(idx);
        let ghost s2 = *g;
        proof {
            GateGraphBuilder::lemma_optimized_trans(old(g), &s0, &s1);
            GateGraphBuilder::lemma_optimized_trans(old(g), &s1, &s2);
            lemma_dedup_sorted(s1.deps(idx as int));
            lemma_increasing_unique(s2.deps(idx as int));
            assert forall|v: usize| #[trigger] s2.deps(idx as int).to_multiset().count(v)
                == (if old(g).deps(idx as int).to_multiset().count(v) > 0 { 1nat } else { 0nat }) by {
                lemma_dedup_count(s1.deps(idx as int), v);
            }
        }
        if matches!(ty, GateType::Xor | GateType::Xnor) {
            proof {
                s2.lemma_gate_ok(idx as int);
            }
            let uniq = g.dependencies_of(idx);
            let mut k: usize = 0;
            while k < uniq.len()
                invariant
                    g.optimized_from(old(g)),
                    g.num_slots() == s2.num_slots(),
                    g.has(idx as int),
                    g.ty(idx as int) == ty,
                    ty is Xor || ty is Xnor,
                    forall|j: int| 0 <= j < g.num_slots() && j != idx ==> #[trigger] g.slots()[j] == s2.slots()[j],
                    uniq@ == s2.deps(idx as int),
                    g.dependents(idx as int) == s2.dependents(idx as int),
                    s2.deps(idx as int) == dedup_seq(s1.deps(idx as int)),
                    sorted_deps@ == s1.deps(idx as int),
                    s1.deps(idx as int).to_multiset() == old(g).deps(idx as int).to_multiset(),
                    unique(uniq@),
                    s2.gate_ok(idx as int),
                    k <= uniq@.len(),
                    forall|v: usize| #[trigger] g.deps(idx as int).to_multiset().count(v)
                        == s2.deps(idx as int).to_multiset().count(v)
                        + (if uniq@.subrange(0, k as int).contains(v) && old(g).deps(idx as int).to_multiset().count(v) % 2 == 0 { 1nat } else { 0nat }),
                decreases uniq@.len() - k,
            {
                let v = uniq[k];
                let mut count: usize = 0;
                let mut c: usize = 0;
                proof {
                    let e = sorted_deps@.subrange(0, 0);
                    e.to_multiset_ensures();
                    assert(!e.contains(v));
                }
                while c < sorted_deps.len()
                    invariant
                        c <= sorted_deps@.len(),
                        count <= c,
                        count == sorted_deps@.subrange(0, c as int).to_multiset().count(v),
                    decreases sorted_deps@.len() - c,
                {
                    proof {
                        let pre = sorted_deps@.subrange(0, c as int);
                        assert(sorted_deps@.subrange(0, c + 1) =~= pre.push(sorted_deps@[c as int]));
                        pre.to_multiset_ensures();
                    }
                    if sorted_deps[c] == v {
                        count = count + 1;
                    }
                    c = c + 1;
                }
                proof {
                    assert(sorted_deps@.subrange(0, c as int) =~= sorted_deps@);
                    assert(uniq@.contains(v)) by { assert(uniq@[k as int] == v); }
                    s2.deps(idx as int).to_multiset_ensures();
                    s1.deps(idx as int).to_multiset_ensures();
                    lemma_dedup(s1.deps(idx as int));
                    assert(s1.deps(idx as int).contains(uniq@[k as int]));
                    assert(count > 0);
                    let pre = uniq@.subrange(0, k as int);
                    assert(uniq@.subrange(0, k + 1) =~= pre.push(v));
                    assert(!pre.contains(v)) by {
                        if pre.contains(v) {
                            let j = choose|j: int| 0 <= j < pre.len() && pre[j] == v;
                            assert(uniq@[j] == uniq@[k as int]);
                        }
                    }
                }
                let ghost before = *g;
                if count > 1 && count % 2 == 0 {
                    proof {
                        g.lemma_gate_ok(idx as int);
                        assert(s2.deps(idx as int)[k as int] < s2.num_slots());
                    }
                    g.push_dependency(idx, v);
                    proof {
                        GateGraphBuilder::lemma_optimized_trans(old(g), &before, g);
                        assert forall|j: int| 0 <= j < g.num_slots() && j != idx implies #[trigger] g.slots()[j] == s2.slots()[j] by {
                            assert(g.slots()[j] == before.slots()[j]);
                        }
                        before.deps(idx as int).to_multiset_ensures();
                    }
                }
                proof {
                    let pre = uniq@.subrange(0, k as int);
                    let post = uniq@.subrange(0, k + 1);
                    assert forall|x: usize| #[trigger] g.deps(idx as int).to_multiset().count(x)
                        == s2.deps(idx as int).to_multiset().count(x)
                        + (if post.contains(x) && old(g).deps(idx as int).to_multiset().count(x) % 2 == 0 { 1nat } else { 0nat }) by {
                        assert(before.deps(idx as int).to_multiset().count(x) == s2.deps(idx as int).to_multiset().count(x)
                            + (if pre.contains(x) && old(g).deps(idx as int).to_multiset().count(x) % 2 == 0 { 1nat } else { 0nat }));
                        if x != v {
                            assert(post.contains(x) == pre.contains(x)) by {
                                if post.contains(x) {
                                    let j = choose|j: int| 0 <= j < post.len() && post[j] == x;
                                    assert(pre[j] == x);
                                }
                                if pre.contains(x) {
                                    let j = choose|j: int| 0 <= j < pre.len() && pre[j] == x;
                                    assert(post[j] == x);
                                }
                            }
                        } else {
                            assert(post[k as int] == v);
                        }
                    }
                }
                k = k + 1;
            }
            proof {
                assert(uniq@.subrange(0, k as int) =~= uniq@);
                s2.deps(idx as int).to_multiset_ensures();
                assert(deduped(old(g), g, idx as int)) by {
                    assert forall|v: usize| #[trigger] g.deps(idx as int).to_multiset().count(v)
                        == dedup_count(old(g).ty(idx as int), old(g).deps(idx as int).to_multiset().count(v)) by {
                        assert(g.deps(idx as int).to_multiset().count(v) == s2.deps(idx as int).to_multiset().count(v)
                            + (if uniq@.subrange(0, k as int).contains(v) && old(g).deps(idx as int).to_multiset().count(v) % 2 == 0 { 1nat } else { 0nat }));
                        assert(s2.deps(idx as int).to_multiset().count(v)
                            == (if old(g).deps(idx as int).to_multiset().count(v) > 0 { 1nat } else { 0nat }));
                    }
                }
                assert forall|j: int| #[trigger] g.has(j) && is_idempotent(g.ty(j)) && old(g).ty(j) == g.ty(j) && !unique(g.deps(j))
                    implies work@.contains(j as usize) by {
                    assert(j != idx);
                    assert(j < slot_count);
                    assert(g.slots()[j] == s2.slots()[j]);
                    assert(s2.slots()[j] == s1.slots()[j]);
                    assert(s1.slots()[j] == s0.slots()[j]);
                    assert(s0.has(j) && s0.deps(j) == g.deps(j));
                    assert(w0.contains(j as usize));
                    let k = choose|k: int| 0 <= k < w0.len() && w0[k] == j as usize;
                    assert(k != w0.len() - 1);
                    assert(work@[k] == j as usize);
                }
            }
        } else {
            proof {
                assert(deduped(old(g), g, idx as int)) by {
                    assert(is_idempotent(ty));
                }
                assert forall|j: int| #[trigger] g.has(j) && is_idempotent(g.ty(j)) && old(g).ty(j) == g.ty(j) && !unique(g.deps(j))
                    implies work@.contains(j as usize) by {
                    if j != idx {
                        assert(j < slot_count);
                        assert(s2.slots()[j] == s1.slots()[j]);
                        assert(s1.slots()[j] == s0.slots()[j]);
                        assert(w0.contains(j as usize));
                        let k = choose|k: int| 0 <= k < w0.len() && w0[k] == j as usize;
                        assert(k != w0.len() - 1);
                        assert(work@[k] == j as usize);
                    }
                }
            }
        }
        proof {
            assert forall|j: int| #[trigger] g.has(j) == old(g).has(j) by {
                assert(s0.has(j) == old(g).has(j));
                if j != idx as int && 0 <= j < g.num_slots() {
                    assert(s1.slots()[j] == s0.slots()[j]);
                    assert(s2.slots()[j] == s1.slots()[j]);
                    assert(g.slots()[j] == s2.slots()[j]);
                }
            }
            assert(s0.ty(idx as int) == old(g).ty(idx as int));
            assert forall|j: int| #[trigger] g.has(j) implies g.dependents(j) == old(g).dependents(j) by {
                if j != idx as int {
                    assert(s1.slots()[j] == s0.slots()[j]);
                    assert(s2.slots()[j] == s1.slots()[j]);
                    assert(g.slots()[j] == s2.slots()[j]);
                    assert(s0.has(j));
                } else {
                    assert(s0.has(j));
                    assert(g.dependents(j) == s2.dependents(j));
                }
            }
            assert forall|j: int| #[trigger] g.has(j) implies g.ty(j) == old(g).ty(j)
                && (g.deps(j) == old(g).deps(j) || deduped(old(g), g, j)) by {
                if j == idx as int {
                    assert(g.ty(j) == ty);
                    assert(deduped(old(g), g, j));
                }
                if j != idx as int {
                    assert(s1.slots()[j] == s0.slots()[j]);
                    assert(s2.slots()[j] == s1.slots()[j]);
                    assert(g.slots()[j] == s2.slots()[j]);
                    assert(s0.has(j));
                    assert(g.deps(j) == s0.deps(j));
                    if g.deps(j) != old(g).deps(j) {
                        assert(deduped(old(g), &s0, j));
                        assert forall|v: usize| #[trigger] g.deps(j).to_multiset().count(v)
                            == dedup_count(old(g).ty(j), old(g).deps(j).to_multiset().count(v)) by {
                            assert(s0.deps(j).to_multiset().count(v) == dedup_count(old(g).ty(j), old(g).deps(j).to_multiset().count(v)));
                        }
                    }
                }
            }
            assert forall|j: int| #[trigger] g.has(j) && !deduped(old(g), g, j) implies work@.contains(j as usize) by {
                if j == idx as int {
                    assert(deduped(old(g), g, j));
                } else {
                    assert(s1.slots()[j] == s0.slots()[j]);
                    assert(s2.slots()[j] == s1.slots()[j]);
                    assert(g.slots()[j] == s2.slots()[j]);
                    assert(s0.has(j));
                    assert(g.deps(j) == s0.deps(j));
                    assert(!deduped(old(g), &s0, j));
                    assert(w0.contains(j as usize));
                    assert(w0[w0.len() - 1] != j as usize);
                    let k = choose|k: int| 0 <= k < w0.len() && w0[k] == j as usize;
                    assert(k != w0.len() - 1);
                    assert(work@[k] == j as usize);
                }
            }
            assert forall|k: int| 0 <= k < work@.len() && g.has(#[trigger] work@[k] as int) implies g.deps(work@[k] as int) == old(g).deps(work@[k] as int) by {
                let j = work@[k] as int;
                assert(work@[k] == w0[k]);
                assert(j != idx as int);
                assert(s1.slots()[j] == s0.slots()[j]);
                assert(s2.slots()[j] == s1.slots()[j]);
                assert(g.slots()[j] == s2.slots()[j]);
            }
            assert forall|j: int| #[trigger] g.has(j) && !is_idempotent(g.ty(j)) && !(g.ty(j) is Xor || g.ty(j) is Xnor)
                implies g.deps(j) == old(g).deps(j) by {
                if j != idx as int {
                    assert(s1.slots()[j] == s0.slots()[j]);
                    assert(s2.slots()[j] == s1.slots()[j]);
                    assert(g.slots()[j] == s2.slots()[j]);
                    assert(s0.has(j));
                } else {
                    assert(g.ty(j) == ty);
                }
            }
        }
    }
    proof {
        assert forall|i: int| #[trigger] old(g).has(i) implies g.dependents(i) == old(g).dependents(i) by {
            assert(g.has(i));
        }
        assert forall|i: int| #[trigger] old(g).has(i) implies g.ty(i) == old(g).ty(i) && deduped(old(g), g, i) by {
            assert(g.has(i));
            if !deduped(old(g), g, i) {
                assert(work@.contains(i as usize));
            }
        }
        assert forall|i: int| #[trigger] old(g).has(i) && !is_idempotent(old(g).ty(i)) && !(old(g).ty(i) is Xor || old(g).ty(i) is Xnor)
            implies g.deps(i) == old(g).deps(i) by {
            assert(g.has(i));
        }
        assert forall|levers: spec_fn(int) -> bool, i: int, fuel: nat| #[trigger] g.eval(levers, i, fuel)
            == old(g).eval(levers, i, fuel) by {
            law_dedup_keeps_eval(old(g), g, levers, i, fuel);
        }
    }
}

} // verus!
