use crate::graph::gate::{all_true, any_true, gate_output, is_variadic, negated, parity, GateType};
use crate::graph::graph_builder::GateGraphBuilder;
use crate::graph::optimizations::dead_code_elimination::{dead_code_elimination_pass, is_dead, lemma_swap_remove_keeps};
use crate::graph::optimizations::settling::{
    law_eval_settles, lemma_eval_all_index, lemma_set_insert_keeps, ranked, readers_listed,
};
use vstd::prelude::*;

verus! {

/// Returns the indexes of the gates of `g`, in increasing order.
pub(crate) fn present_gates(g: &GateGraphBuilder) -> (r: Vec<usize>)
    requires
        g.base_wf(),
    ensures
        forall|k: int| 0 <= k < r@.len() ==> #[trigger] g.has(r@[k] as int),
        forall|i: int| #[trigger] g.has(i) ==> r@.contains(i as usize),
        forall|a: int, b: int| 0 <= a < b < r@.len() ==> r@[a] < r@[b],
{
    let mut r: Vec<usize> = Vec::new();
    let n = g.total_len();
    let mut i: usize = 0;
    while i < n
        invariant
            g.base_wf(),
            n == g.num_slots(),
            i <= n,
            forall|k: int| 0 <= k < r@.len() ==> #[trigger] g.has(r@[k] as int),
            forall|j: int| 0 <= j < i && #[trigger] g.has(j) ==> r@.contains(j as usize),
            forall|k: int| 0 <= k < r@.len() ==> #[trigger] r@[k] < i,
            forall|a: int, b: int| 0 <= a < b < r@.len() ==> r@[a] < r@[b],
        decreases n - i,
    {
        let ghost before = r@;
        if let Some(_) = g.gate_type(i) {
            r.push(i);
        }
        proof {
            assert forall|k: int| 0 <= k < r@.len() implies #[trigger] r@[k] < i + 1 by {
                if k < before.len() { assert(r@[k] == before[k]); }
            }
            assert forall|a: int, b: int| 0 <= a < b < r@.len() implies r@[a] < r@[b] by {
                assert(r@[a] == before[a]);
                if b < before.len() { assert(r@[b] == before[b]); }
            }
            assert forall|j: int| 0 <= j < i + 1 && #[trigger] g.has(j) implies r@.contains(j as usize) by {
                if j < i {
                    let k = choose|k: int| 0 <= k < before.len() && before[k] == j as usize;
                    assert(r@[k] == before[k]);
                } else {
                    assert(r@[r@.len() - 1] == i);
                }
            }
        }
        i = i + 1;
    }
    r
}

/// Returns true if `s` holds `a` or `b`.
fn holds_either(s: &Vec<usize>, a: usize, b: usize) -> (r: bool)
    ensures
        r == (s@.contains(a) || s@.contains(b)),
{
    let mut k: usize = 0;
    while k < s.len()
        invariant
            k <= s@.len(),
            forall|j: int| 0 <= j < k ==> s@[j] != a && s@[j] != b,
        decreases s@.len() - k,
    {
        if s[k] == a || s[k] == b {
            assert(s@[k as int] == a || s@[k as int] == b);
            return true;
        }
        k = k + 1;
    }
    false
}

/// Moves the dependencies of `dependency`, the dependency at position `pos` of gate `idx`,
/// into `idx` itself: the position is dropped, its dependencies are appended and record `idx`
/// as a dependent, and `dependency` no longer records `idx`.
fn absorb(g: &mut GateGraphBuilder, idx: usize, pos: usize, dependency: usize, inner: &Vec<usize>)
    requires
        old(g).base_wf(),
        old(g).has(idx as int),
        is_variadic(old(g).ty(idx as int)),
        pos < old(g).deps(idx as int).len(),
        forall|k: int| 0 <= k < inner@.len() ==> #[trigger] inner@[k] < old(g).num_slots(),
    ensures
        final(g).optimized_from(old(g)),
        final(g).has(idx as int),
        final(g).ty(idx as int) == old(g).ty(idx as int),
        final(g).deps(idx as int) == old(g).deps(idx as int).remove(pos as int) + inner@,
        forall|i: int| #[trigger] old(g).has(i) ==> final(g).has(i) && final(g).ty(i) == old(g).ty(i),
        forall|j: int| #[trigger] final(g).has(j) == old(g).has(j),
        forall|j: usize| j != idx && old(g).has(j as int) ==> #[trigger] final(g).deps(j as int) == old(g).deps(j as int),
        forall|k: int| 0 <= k < inner@.len() && inner@[k] != dependency && old(g).has(inner@[k] as int)
            ==> final(g).dependents(#[trigger] inner@[k] as int).contains(idx),
        forall|x: usize, y: usize| old(g).has(x as int) && #[trigger] old(g).dependents(x as int).contains(y)
            && !(x == dependency && y == idx) ==> final(g).dependents(x as int).contains(y),
{
    let ghost s0 = *g;
    proof {
        g.lemma_gate_ok(idx as int);
    }
    g.remove_dependency_at(idx, pos);
    let ghost base = g.deps(idx as int);
    proof {
        assert forall|i: int| #[trigger] s0.has(i) implies g.has(i) && g.ty(i) == s0.ty(i) by {
            if i != idx as int { assert(g.slots()[i] == s0.slots()[i]); }
        }
        assert forall|j: int| #[trigger] g.has(j) == old(g).has(j) by {
            if j != idx as int && 0 <= j < g.num_slots() { assert(g.slots()[j] == s0.slots()[j]); }
        }
        assert forall|j: usize| j != idx && old(g).has(j as int) implies #[trigger] g.deps(j as int) == old(g).deps(j as int) by {
            assert(g.slots()[j as int] == s0.slots()[j as int]);
        }
        assert forall|x: usize, y: usize| old(g).has(x as int) && #[trigger] old(g).dependents(x as int).contains(y)
            implies g.dependents(x as int).contains(y) by {
            if x != idx { assert(g.slots()[x as int] == s0.slots()[x as int]); }
        }
    }
    let mut k: usize = 0;
    while k < inner.len()
        invariant
            g.optimized_from(old(g)),
            g.has(idx as int),
            g.ty(idx as int) == old(g).ty(idx as int),
            is_variadic(old(g).ty(idx as int)),
            g.deps(idx as int) == base + inner@.take(k as int),
            forall|i: int| #[trigger] old(g).has(i) ==> g.has(i) && g.ty(i) == old(g).ty(i),
            forall|k: int| 0 <= k < inner@.len() ==> #[trigger] inner@[k] < old(g).num_slots(),
            k <= inner@.len(),
            forall|j: int| #[trigger] g.has(j) == old(g).has(j),
            forall|j: usize| j != idx && old(g).has(j as int) ==> #[trigger] g.deps(j as int) == old(g).deps(j as int),
            forall|x: usize, y: usize| old(g).has(x as int) && #[trigger] old(g).dependents(x as int).contains(y)
                ==> g.dependents(x as int).contains(y),
            forall|q: int| 0 <= q < k && old(g).has(inner@[q] as int) ==> g.dependents(#[trigger] inner@[q] as int).contains(
                idx),
        decreases inner@.len() - k,
    {
        let d = inner[k];
        let ghost s1 = *g;
        g.insert_dependent(d, idx);
        let ghost s2 = *g;
        proof {
            assert(s2.deps(idx as int) == s1.deps(idx as int)) by {
                if d != idx { assert(s2.slots()[idx as int] == s1.slots()[idx as int]); }
            }
            assert forall|i: int| #[trigger] s1.has(i) implies s2.has(i) && s2.ty(i) == s1.ty(i) by {
                if i != d as int { assert(s2.slots()[i] == s1.slots()[i]); }
            }
        }
        g.push_dependency(idx, d);
        proof {
            GateGraphBuilder::lemma_optimized_trans(old(g), &s1, &s2);
            GateGraphBuilder::lemma_optimized_trans(old(g), &s2, g);
            assert(inner@.take(k + 1) == inner@.take(k as int).push(d));
            assert(g.deps(idx as int) == base + inner@.take(k + 1));
            assert forall|i: int| #[trigger] old(g).has(i) implies g.has(i) && g.ty(i) == old(g).ty(i) by {
                assert(s1.has(i) && s2.has(i));
                if i != idx as int { assert(g.slots()[i] == s2.slots()[i]); }
            }
            assert forall|j: int| #[trigger] g.has(j) == old(g).has(j) by {
                assert(s1.has(j) == old(g).has(j));
                if 0 <= j < g.num_slots() {
                    if j != d as int { assert(s2.slots()[j] == s1.slots()[j]); }
                    if j != idx as int { assert(g.slots()[j] == s2.slots()[j]); }
                }
            }
            assert forall|j: usize| j != idx && old(g).has(j as int) implies #[trigger] g.deps(j as int) == old(g).deps(j as int) by {
                assert(s1.deps(j as int) == old(g).deps(j as int));
                assert(s1.has(j as int));
                if j != d { assert(s2.slots()[j as int] == s1.slots()[j as int]); }
                assert(g.slots()[j as int] == s2.slots()[j as int]);
            }
            assert forall|x: usize, y: usize| old(g).has(x as int) && #[trigger] old(g).dependents(x as int).contains(y)
                implies g.dependents(x as int).contains(y) by {
                assert(s1.has(x as int));
                assert(s1.dependents(x as int).contains(y));
                if x != d {
                    assert(s2.slots()[x as int] == s1.slots()[x as int]);
                } else {
                    lemma_set_insert_keeps(s1.dependents(x as int), idx, y);
                }
                if x != idx { assert(g.slots()[x as int] == s2.slots()[x as int]); }
            }
            assert forall|q: int| 0 <= q < k + 1 && old(g).has(inner@[q] as int) implies g.dependents(
                #[trigger] inner@[q] as int).contains(idx) by {
                let e = inner@[q];
                assert(s1.has(e as int));
                if q < k {
                    assert(s1.dependents(e as int).contains(idx));
                }
                if e != d {
                    assert(s2.slots()[e as int] == s1.slots()[e as int]);
                } else {
                    lemma_set_insert_keeps(s1.dependents(e as int), idx, idx);
                }
                if e != idx { assert(g.slots()[e as int] == s2.slots()[e as int]); }
            }
        }
        k = k + 1;
    }
    let ghost s3 = *g;
    g.remove_dependent(dependency, idx);
    proof {
        assert(inner@.take(inner@.len() as int) == inner@);
        assert(g.deps(idx as int) == s3.deps(idx as int)) by {
            if dependency != idx { assert(g.slots()[idx as int] == s3.slots()[idx as int]); }
        }
        GateGraphBuilder::lemma_optimized_trans(old(g), &s3, g);
        assert forall|i: int| #[trigger] old(g).has(i) implies g.has(i) && g.ty(i) == old(g).ty(i) by {
            assert(s3.has(i));
            if i != dependency as int { assert(g.slots()[i] == s3.slots()[i]); }
        }
        assert forall|j: int| #[trigger] g.has(j) == old(g).has(j) by {
            assert(s3.has(j) == old(g).has(j));
            if j != dependency as int && 0 <= j < g.num_slots() { assert(g.slots()[j] == s3.slots()[j]); }
        }
        assert forall|j: usize| j != idx && old(g).has(j as int) implies #[trigger] g.deps(j as int) == old(g).deps(j as int) by {
            assert(s3.deps(j as int) == old(g).deps(j as int));
            assert(s3.has(j as int));
            if j != dependency { assert(g.slots()[j as int] == s3.slots()[j as int]); }
        }
        assert forall|x: usize, y: usize| old(g).has(x as int) && #[trigger] old(g).dependents(x as int).contains(y)
            && !(x == dependency && y == idx) implies g.dependents(x as int).contains(y) by {
            assert(s3.dependents(x as int).contains(y));
            if x != dependency {
                assert(g.slots()[x as int] == s3.slots()[x as int]);
            } else {
                assert(s3.has(x as int));
                lemma_swap_remove_keeps(s3.dependents(x as int), idx, y);
            }
        }
        assert forall|k: int| 0 <= k < inner@.len() && inner@[k] != dependency && old(g).has(inner@[k] as int)
            implies g.dependents(#[trigger] inner@[k] as int).contains(idx) by {
            assert(s3.dependents(inner@[k] as int).contains(idx));
            assert(g.slots()[inner@[k] as int] == s3.slots()[inner@[k] as int]);
        }
    }
}

/// True if gate `idx` of `g` can take over the dependencies of gate `d` in its place: `d` is
/// another gate of the same type, reading neither itself nor `idx`.
pub open spec fn absorbable(g: &GateGraphBuilder, idx: usize, d: usize) -> bool {
    &&& d != idx
    &&& g.has(d as int)
    &&& g.ty(d as int) == g.ty(idx as int)
    &&& !g.deps(d as int).contains(d)
    &&& !g.deps(d as int).contains(idx)
}

/// Absorbing a dependency keeps every reader listed: where every gate of `a` is listed among
/// the dependents of each gate it reads (see [readers_listed]) and `b` is `a` with dependency
/// `d` of gate `idx`, at position `p`, absorbed (see [absorbed]), every gate of `b` is listed
/// among the dependents of each gate it reads, but `idx` by `d` should `idx` still read `d`
/// elsewhere; and where `idx` read `d` only there, every reader is listed in `b`. So a change
/// of any of the gates that `idx` takes over reaches `idx`.
pub proof fn law_absorbing_keeps_readers_listed(a: &GateGraphBuilder, b: &GateGraphBuilder, idx: usize, p: int,
    d: usize)
    requires
        readers_listed(a),
        absorbable(a, idx, d),
        a.has(idx as int),
        0 <= p < a.deps(idx as int).len(),
        a.deps(idx as int)[p] == d,
        absorbed(a, b, idx, p, d),
    ensures
        forall|i: usize, x: usize| b.has(i as int) && b.has(x as int) && #[trigger] b.deps(i as int).contains(x)
            ==> b.dependents(x as int).contains(i) || (i == idx && x == d),
        !a.deps(idx as int).remove(p).contains(d) ==> readers_listed(b),
{
    let n = a.deps(idx as int).len() - 1;
    assert forall|i: usize, x: usize| b.has(i as int) && b.has(x as int) && #[trigger] b.deps(i as int).contains(x)
        implies b.dependents(x as int).contains(i) || (i == idx && x == d) by {
        assert(a.has(i as int) && a.has(x as int));
        let m = choose|m: int| 0 <= m < b.deps(i as int).len() && b.deps(i as int)[m] == x;
        if i == idx {
            if m < n {
                let o = if m < p { m } else { m + 1 };
                assert(a.deps(idx as int).remove(p)[m] == a.deps(idx as int)[o]);
                assert(a.deps(idx as int).contains(x));
                assert(a.dependents(x as int).contains(idx));
            } else {
                assert(a.deps(d as int)[m - n] == x);
                assert(a.deps(d as int).contains(x));
                assert(x != d);
            }
        } else {
            assert(b.deps(i as int) == a.deps(i as int));
            assert(a.deps(i as int).contains(x));
            assert(a.dependents(x as int).contains(i));
        }
    }
    if !a.deps(idx as int).remove(p).contains(d) {
        assert forall|i: usize, x: usize| b.has(i as int) && b.has(x as int) && #[trigger] b.deps(i as int).contains(x)
            implies b.dependents(x as int).contains(i) by {
            if i == idx && x == d {
                let m = choose|m: int| 0 <= m < b.deps(i as int).len() && b.deps(i as int)[m] == x;
                if m < n {
                    assert(a.deps(idx as int).remove(p)[m] == d);
                } else {
                    assert(a.deps(d as int)[m - n] == d);
                }
            }
        }
    }
}

/// An odd number of `x + y` are true when an odd number of one of them is.
proof fn lemma_parity_concat(x: Seq<bool>, y: Seq<bool>)
    ensures
        parity(x + y) == (parity(x) != parity(y)),
    decreases y.len(),
{
    if y.len() == 0 {
        assert(x + y =~= x);
    } else {
        lemma_parity_concat(x, y.drop_last());
        assert((x + y).drop_last() =~= x + y.drop_last());
    }
}

/// The parity of `s` is that of `s` without its item `p`, flipped where that item is true.
proof fn lemma_parity_remove(s: Seq<bool>, p: int)
    requires
        0 <= p < s.len(),
    ensures
        parity(s) == (parity(s.remove(p)) != s[p]),
{
    let a = s.subrange(0, p);
    let c = s.subrange(p + 1, s.len() as int);
    assert(s =~= a + seq![s[p]] + c);
    assert(s.remove(p) =~= a + c);
    lemma_parity_concat(a + seq![s[p]], c);
    lemma_parity_concat(a, seq![s[p]]);
    lemma_parity_concat(a, c);
    assert(seq![s[p]].drop_last() =~= Seq::<bool>::empty());
    assert(!parity(Seq::<bool>::empty()));
    assert(parity(seq![s[p]]) == s[p]);
    assert(parity(s) == (parity(a) != s[p] != parity(c)));
}

/// An And, Or or Xor gate reading a gate of its own type computes the same as when it reads
/// that gate's inputs in its place.
proof fn lemma_flattened_output(ty: GateType, s: Seq<bool>, p: int, t: Seq<bool>, own: bool)
    requires
        ty is And || ty is Or || ty is Xor,
        0 <= p < s.len(),
        s[p] == gate_output(ty, t, own),
    ensures
        gate_output(ty, s.remove(p) + t, own) == gate_output(ty, s, own),
{
    let r = s.remove(p) + t;
    let n = s.len() - 1;
    if ty is And {
        if all_true(s) {
            assert forall|k: int| 0 <= k < r.len() implies r[k] by {
                if k < p {
                    assert(r[k] == s[k]);
                } else if k < n {
                    assert(r[k] == s[k + 1]);
                } else {
                    assert(r[k] == t[k - n]);
                }
            }
        }
        if all_true(r) {
            assert forall|k: int| 0 <= k < s.len() implies s[k] by {
                if k < p {
                    assert(r[k] == s[k]);
                } else if k > p {
                    assert(r[k - 1] == s[k]);
                } else {
                    assert forall|m: int| 0 <= m < t.len() implies t[m] by {
                        assert(r[n + m] == t[m]);
                    }
                }
            }
        }
    } else if ty is Or {
        if any_true(s) {
            let k = choose|k: int| 0 <= k < s.len() && s[k];
            if k < p {
                assert(r[k] == s[k]);
            } else if k > p {
                assert(r[k - 1] == s[k]);
            } else {
                let m = choose|m: int| 0 <= m < t.len() && t[m];
                assert(r[n + m] == t[m]);
            }
        }
        if any_true(r) {
            let k = choose|k: int| 0 <= k < r.len() && r[k];
            if k < p {
                assert(r[k] == s[k]);
            } else if k < n {
                assert(r[k] == s[k + 1]);
            } else {
                assert(r[k] == t[k - n]);
                assert(any_true(t));
                assert(s[p]);
            }
        }
    } else {
        lemma_parity_remove(s, p);
        lemma_parity_concat(s.remove(p), t);
    }
}

/// Absorbing a dependency keeps what every gate settles to: where gate `idx` of `a`, an And,
/// Or or Xor gate, reads at position `p` gate `d` of its own type, which it can absorb
/// (see [absorbable]), and `b` is `a` with `d` absorbed there (see [absorbed]), every gate of
/// `b` computes what it computes in `a` with any fuel above its rank, whatever the levers, and
/// the ranks still order `b`.
pub proof fn law_absorbing_keeps_settled_states(a: &GateGraphBuilder, b: &GateGraphBuilder, rank: spec_fn(usize) -> nat,
    levers: spec_fn(int) -> bool, idx: usize, p: int, d: usize, j: usize, f: nat)
    requires
        ranked(a, rank),
        a.has(idx as int),
        a.ty(idx as int) is And || a.ty(idx as int) is Or || a.ty(idx as int) is Xor,
        absorbable(a, idx, d),
        0 <= p < a.deps(idx as int).len(),
        a.deps(idx as int)[p] == d,
        absorbed(a, b, idx, p, d),
        f > rank(j),
    ensures
        ranked(b, rank),
        b.eval(levers, j as int, f) == a.eval(levers, j as int, f),
    decreases rank(j),
{
    assert forall|i: usize, k: int| b.has(i as int) && 0 <= k < b.deps(i as int).len() implies #[trigger] rank(
        b.deps(i as int)[k]) < rank(i) by {
        if i == idx {
            let n = a.deps(idx as int).len() - 1;
            assert(rank(a.deps(idx as int)[p]) < rank(idx));
            if k < p {
                assert(b.deps(i as int)[k] == a.deps(i as int)[k]);
                assert(rank(a.deps(i as int)[k]) < rank(i));
            } else if k < n {
                assert(b.deps(i as int)[k] == a.deps(i as int)[k + 1]);
                assert(rank(a.deps(i as int)[k + 1]) < rank(i));
            } else {
                assert(b.deps(i as int)[k] == a.deps(d as int)[k - n]);
                assert(rank(a.deps(d as int)[k - n]) < rank(d));
            }
        } else {
            assert(b.deps(i as int) == a.deps(i as int));
            assert(rank(a.deps(i as int)[k]) < rank(i));
        }
    }
    if a.has(j as int) {
        let g = (f - 1) as nat;
        let ds = b.deps(j as int);
        lemma_eval_all_index(b, levers, ds, g);
        lemma_eval_all_index(a, levers, a.deps(j as int), g);
        assert forall|k: int| 0 <= k < ds.len() implies #[trigger] b.eval(levers, ds[k] as int, g) == a.eval(levers,
            ds[k] as int, g) by {
            assert(rank(ds[k]) < rank(j));
            law_absorbing_keeps_settled_states(a, b, rank, levers, idx, p, d, ds[k], g);
        }
        if j == idx {
            let s = a.eval_all(levers, a.deps(j as int), g);
            let t = a.eval_all(levers, a.deps(d as int), g);
            let n = a.deps(j as int).len() - 1;
            lemma_eval_all_index(a, levers, a.deps(d as int), g);
            assert(rank(a.deps(idx as int)[p]) < rank(idx));
            assert(b.eval_all(levers, ds, g) =~= s.remove(p) + t) by {
                assert forall|k: int| 0 <= k < ds.len() implies #[trigger] b.eval_all(levers, ds, g)[k] == (s.remove(p)
                    + t)[k] by {
                    if k < p {
                        assert(ds[k] == a.deps(j as int)[k]);
                    } else if k < n {
                        assert(ds[k] == a.deps(j as int)[k + 1]);
                    } else {
                        assert(ds[k] == a.deps(d as int)[k - n]);
                    }
                }
            }
            let g2 = (g - 1) as nat;
            lemma_eval_all_index(a, levers, a.deps(d as int), g2);
            assert forall|m: int| 0 <= m < a.deps(d as int).len() implies #[trigger] a.eval_all(levers, a.deps(d as int),
                g2)[m] == t[m] by {
                assert(rank(a.deps(d as int)[m]) < rank(d));
                law_eval_settles(a, rank, levers, a.deps(d as int)[m], g2, g);
            }
            assert(a.eval_all(levers, a.deps(d as int), g2) =~= t);
            assert(s[p] == a.eval(levers, d as int, g));
            let ty = a.ty(j as int);
            lemma_flattened_output(ty, s, p, t, levers(j as int));
            assert(a.ty(d as int) == ty);
            assert(s[p] == gate_output(ty, t, levers(d as int)));
        } else {
            assert(ds == a.deps(j as int));
            assert(b.eval_all(levers, ds, g) =~= a.eval_all(levers, a.deps(j as int), g));
        }
    }
}

/// True if `b` is `a` with the dependency at position `p` of gate `idx`, gate `d`, replaced
/// by the dependencies of `d`, appended; every gate stays, of the same type, and every other
/// gate keeps its dependencies; `idx` is listed among the dependents of each dependency of
/// `d`, and no gate loses a dependent but `d`, which may lose `idx`.
pub open spec fn absorbed(a: &GateGraphBuilder, b: &GateGraphBuilder, idx: usize, p: int, d: usize) -> bool {
    &&& forall|j: int| #[trigger] b.has(j) == a.has(j)
    &&& forall|j: int| a.has(j) ==> #[trigger] b.ty(j) == a.ty(j)
    &&& b.deps(idx as int) == a.deps(idx as int).remove(p) + a.deps(d as int)
    &&& forall|j: usize| j != idx && a.has(j as int) ==> #[trigger] b.deps(j as int) == a.deps(j as int)
    &&& forall|e: usize| e != d && a.has(e as int) && #[trigger] a.deps(d as int).contains(e)
        ==> b.dependents(e as int).contains(idx)
    &&& forall|x: usize, y: usize| a.has(x as int) && #[trigger] a.dependents(x as int).contains(y)
        && !(x == d && y == idx) ==> b.dependents(x as int).contains(y)
}

/// One step of the scan of gate `idx` over the dependencies `snap` it had, at position `p`:
/// the dependency there is absorbed if it can be (see [absorbable]), and nothing changes
/// otherwise.
pub open spec fn scan_step(a: &GateGraphBuilder, b: &GateGraphBuilder, idx: usize, snap: Seq<usize>, p: int) -> bool {
    if absorbable(a, idx, snap[p]) {
        absorbed(a, b, idx, p, snap[p])
    } else {
        b == a
    }
}

/// True if `trace` scans gate `idx` over the dependencies `snap`, from the last position to
/// the first.
pub open spec fn scan_run(trace: Seq<GateGraphBuilder>, idx: usize, snap: Seq<usize>) -> bool {
    &&& trace.len() == snap.len() + 1
    &&& forall|k: int| 0 <= k < snap.len() ==> #[trigger] scan_step(&trace[k], &trace[k + 1], idx, snap, snap.len() - 1 - k)
}

/// True if a scan `trace` of gate `idx` over `snap` absorbed a dependency somewhere.
pub open spec fn scan_merged(trace: Seq<GateGraphBuilder>, idx: usize, snap: Seq<usize>) -> bool {
    exists|k: int| 0 <= k < snap.len() && #[trigger] absorbable(&trace[k], idx, snap[snap.len() - 1 - k])
}

/// True if `b` follows `a` by handling the last gate of the work list of `a`: a gate that is
/// gone, negated or without dependencies is dropped; any other is scanned over its
/// dependencies (see [scan_run]) and, if that absorbed one, goes back on the work list.
pub open spec fn merge_gate_step(a: (GateGraphBuilder, Seq<usize>), b: (GateGraphBuilder, Seq<usize>)) -> bool {
    let idx = a.1.last();
    let rest = a.1.drop_last();
    &&& a.1.len() > 0
    &&& if !a.0.has(idx as int) || negated(a.0.ty(idx as int)) || a.0.deps(idx as int).len() == 0 {
        b.0 == a.0 && b.1 == rest
    } else {
        exists|scan: Seq<GateGraphBuilder>| #[trigger] scan_run(scan, idx, a.0.deps(idx as int)) && scan[0] == a.0
            && scan.last() == b.0 && b.1 == (if scan_merged(scan, idx, a.0.deps(idx as int)) {
                rest.push(idx)
            } else {
                rest
            })
    }
}

/// True if each pair of `trace` follows the one before it by a [merge_gate_step].
pub open spec fn merge_gates_run(trace: Seq<(GateGraphBuilder, Seq<usize>)>) -> bool {
    &&& trace.len() >= 1
    &&& forall|k: int| 0 <= k < trace.len() - 1 ==> #[trigger] merge_gate_step(trace[k], trace[k + 1])
}

/// True if `order` holds the gates of `g` in increasing order.
pub open spec fn present_order(g: &GateGraphBuilder, order: Seq<usize>) -> bool {
    &&& forall|k: int| 0 <= k < order.len() ==> #[trigger] g.has(order[k] as int)
    &&& forall|i: int| #[trigger] g.has(i) ==> order.contains(i as usize)
    &&& forall|a: int, b: int| 0 <= a < b < order.len() ==> order[a] < order[b]
}

/// True if `b` is `a` after dead code elimination: no gate of `b` is dead, the gates of `b`
/// are gates of `a` with the same types and dependencies, and a gate that `a` lists as a
/// dependent of another gate and that stays keeps that other gate.
pub open spec fn cleaned(a: &GateGraphBuilder, b: &GateGraphBuilder) -> bool {
    &&& b.optimized_from(a)
    &&& forall|i: usize| !#[trigger] is_dead(b, i)
    &&& forall|i: int| #[trigger] b.has(i) ==> b.ty(i) == a.ty(i) && b.deps(i) == a.deps(i)
    &&& forall|x: int, y: usize| a.has(x) && #[trigger] a.dependents(x).contains(y) && b.has(y as int) ==> b.has(x)
}

/// A partial scan followed by one more step is a partial scan, which has absorbed something if
/// it had or if the new step absorbs.
proof fn lemma_scan_push(t: Seq<GateGraphBuilder>, b: GateGraphBuilder, idx: usize, snap: Seq<usize>)
    requires
        1 <= t.len() <= snap.len(),
        forall|k: int| 0 <= k < t.len() - 1 ==> #[trigger] scan_step(&t[k], &t[k + 1], idx, snap, snap.len() - 1 - k),
        scan_step(&t.last(), &b, idx, snap, snap.len() - t.len()),
    ensures
        forall|k: int| 0 <= k < t.push(b).len() - 1 ==> #[trigger] scan_step(&t.push(b)[k], &t.push(b)[k + 1], idx, snap,
            snap.len() - 1 - k),
        (exists|k: int| 0 <= k < t.push(b).len() - 1 && #[trigger] absorbable(&t.push(b)[k], idx, snap[snap.len() - 1 - k]))
            == ((exists|k: int| 0 <= k < t.len() - 1 && #[trigger] absorbable(&t[k], idx, snap[snap.len() - 1 - k]))
            || absorbable(&t.last(), idx, snap[snap.len() - t.len()])),
{
    let c = t.push(b);
    assert forall|k: int| 0 <= k < c.len() - 1 implies #[trigger] scan_step(&c[k], &c[k + 1], idx, snap, snap.len() - 1 - k) by {
        if k < t.len() - 1 {
            assert(c[k] == t[k] && c[k + 1] == t[k + 1]);
        } else {
            assert(c[k] == t.last());
        }
    }
    if exists|k: int| 0 <= k < c.len() - 1 && #[trigger] absorbable(&c[k], idx, snap[snap.len() - 1 - k]) {
        let k = choose|k: int| 0 <= k < c.len() - 1 && #[trigger] absorbable(&c[k], idx, snap[snap.len() - 1 - k]);
        if k < t.len() - 1 {
            assert(c[k] == t[k]);
        } else {
            assert(c[k] == t.last());
        }
    }
    if exists|k: int| 0 <= k < t.len() - 1 && #[trigger] absorbable(&t[k], idx, snap[snap.len() - 1 - k]) {
        let k = choose|k: int| 0 <= k < t.len() - 1 && #[trigger] absorbable(&t[k], idx, snap[snap.len() - 1 - k]);
        assert(c[k] == t[k]);
        assert(absorbable(&c[k], idx, snap[snap.len() - 1 - k]));
    }
    if absorbable(&t.last(), idx, snap[snap.len() - t.len()]) {
        let k = t.len() - 1;
        assert(c[k] == t.last());
        assert(absorbable(&c[k], idx, snap[snap.len() - 1 - k]));
    }
}

/// True if `a` and `b` hold the same gates, of the same types, the gates that take no
/// dependencies have none in `b`, every gate computes in `b` what it computes in `a` with any
/// fuel above its rank, whatever the levers, and the ranks order `b`.
pub open spec fn settles_alike(a: &GateGraphBuilder, b: &GateGraphBuilder, rank: spec_fn(usize) -> nat) -> bool {
    &&& ranked(b, rank)
    &&& forall|i: int| #[trigger] b.has(i) == a.has(i)
    &&& forall|i: int| a.has(i) ==> #[trigger] b.ty(i) == a.ty(i)
    &&& forall|i: usize| #[trigger] b.has(i as int) && (b.ty(i as int) is Off || b.ty(i as int) is On || b.ty(i as int) is Lever)
        ==> b.deps(i as int).len() == 0
    &&& forall|levers: spec_fn(int) -> bool, j: usize, f: nat| f > rank(j) ==> #[trigger] b.eval(levers, j as int, f)
        == a.eval(levers, j as int, f)
}

/// The first `k` steps of a scan of gate `idx` over `snap` keep what every gate settles to,
/// and leave the dependencies of `idx` before the position still to scan as they were.
proof fn lemma_scan_prefix(trace: Seq<GateGraphBuilder>, idx: usize, snap: Seq<usize>, rank: spec_fn(usize) -> nat,
    k: int)
    requires
        scan_run(trace, idx, snap),
        0 <= k <= snap.len(),
        trace[0].has(idx as int),
        trace[0].deps(idx as int) == snap,
        trace[0].ty(idx as int) is And || trace[0].ty(idx as int) is Or || trace[0].ty(idx as int) is Xor,
        ranked(&trace[0], rank),
        forall|i: usize| #[trigger] trace[0].has(i as int) && (trace[0].ty(i as int) is Off || trace[0].ty(i as int) is On
            || trace[0].ty(i as int) is Lever) ==> trace[0].deps(i as int).len() == 0,
    ensures
        settles_alike(&trace[0], &trace[k], rank),
        trace[k].deps(idx as int).len() >= snap.len() - k,
        forall|m: int| 0 <= m < snap.len() - k ==> #[trigger] trace[k].deps(idx as int)[m] == snap[m],
    decreases k,
{
    let a0 = trace[0];
    if k == 0 {
        assert forall|levers: spec_fn(int) -> bool, j: usize, f: nat| f > rank(j) implies #[trigger] a0.eval(levers,
            j as int, f) == a0.eval(levers, j as int, f) by {}
    } else {
        lemma_scan_prefix(trace, idx, snap, rank, k - 1);
        let a = trace[k - 1];
        let b = trace[k];
        let p = snap.len() - k;
        assert(scan_step(&trace[k - 1], &trace[(k - 1) + 1], idx, snap, snap.len() - 1 - (k - 1)));
        if absorbable(&a, idx, snap[p]) {
            let d = snap[p];
            assert(absorbed(&a, &b, idx, p, d));
            assert(a.deps(idx as int)[p] == d);
            assert forall|levers: spec_fn(int) -> bool, j: usize, f: nat| f > rank(j) implies #[trigger] b.eval(levers,
                j as int, f) == a0.eval(levers, j as int, f) by {
                law_absorbing_keeps_settled_states(&a, &b, rank, levers, idx, p, d, j, f);
                assert(a.eval(levers, j as int, f) == a0.eval(levers, j as int, f));
            }
            let levers0 = |i: int| false;
            law_absorbing_keeps_settled_states(&a, &b, rank, levers0, idx, p, d, idx, rank(idx) + 1);
            assert forall|m: int| 0 <= m < snap.len() - k implies #[trigger] b.deps(idx as int)[m] == snap[m] by {
                assert(b.deps(idx as int)[m] == a.deps(idx as int)[m]);
            }
            assert forall|i: usize| #[trigger] b.has(i as int) && (b.ty(i as int) is Off || b.ty(i as int) is On || b.ty(
                i as int) is Lever) implies b.deps(i as int).len() == 0 by {
                assert(a.has(i as int));
                if i != idx {
                    assert(b.deps(i as int) == a.deps(i as int));
                }
            }
        }
    }
}

/// True if `b` can come out of [equal_gate_merging_pass] run on `a`.
pub open spec fn gates_merged(a: &GateGraphBuilder, b: &GateGraphBuilder) -> bool {
    &&& b.optimized_from(a)
    &&& exists|trace: Seq<(GateGraphBuilder, Seq<usize>)>| #[trigger] merge_gates_run(trace)
        && trace[0].0 == *a && present_order(a, trace[0].1)
        && (trace.last().1.len() == 0 || trace.len() > usize::MAX)
        && cleaned(&trace.last().0, b)
}

/// The first `k` steps of a merge run keep what every gate settles to.
proof fn lemma_merge_prefix(trace: Seq<(GateGraphBuilder, Seq<usize>)>, rank: spec_fn(usize) -> nat, k: int)
    requires
        merge_gates_run(trace),
        0 <= k < trace.len(),
        ranked(&trace[0].0, rank),
        forall|i: usize| #[trigger] trace[0].0.has(i as int) && (trace[0].0.ty(i as int) is Off || trace[0].0.ty(
            i as int) is On || trace[0].0.ty(i as int) is Lever) ==> trace[0].0.deps(i as int).len() == 0,
    ensures
        settles_alike(&trace[0].0, &trace[k].0, rank),
    decreases k,
{
    let a0 = trace[0].0;
    if k == 0 {
        assert forall|levers: spec_fn(int) -> bool, j: usize, f: nat| f > rank(j) implies #[trigger] a0.eval(levers,
            j as int, f) == a0.eval(levers, j as int, f) by {}
    } else {
        lemma_merge_prefix(trace, rank, k - 1);
        let a = trace[k - 1];
        let b = trace[k];
        assert(merge_gate_step(trace[k - 1], trace[(k - 1) + 1]));
        let idx = a.1.last();
        if !(!a.0.has(idx as int) || negated(a.0.ty(idx as int)) || a.0.deps(idx as int).len() == 0) {
            let scan = choose|scan: Seq<GateGraphBuilder>| #[trigger] scan_run(scan, idx, a.0.deps(idx as int))
                && scan[0] == a.0 && scan.last() == b.0 && b.1 == (if scan_merged(scan, idx, a.0.deps(idx as int)) {
                a.1.drop_last().push(idx)
            } else {
                a.1.drop_last()
            });
            let snap = a.0.deps(idx as int);
            assert(a.0.ty(idx as int) is And || a.0.ty(idx as int) is Or || a.0.ty(idx as int) is Xor) by {
                assert(a.0.has(idx as int) && (a.0.ty(idx as int) is Off || a.0.ty(idx as int) is On || a.0.ty(
                    idx as int) is Lever) ==> a.0.deps(idx as int).len() == 0);
            }
            lemma_scan_prefix(scan, idx, snap, rank, snap.len() as int);
            assert(scan[snap.len() as int] == scan.last());
            assert forall|levers: spec_fn(int) -> bool, j: usize, f: nat| f > rank(j) implies #[trigger] b.0.eval(levers,
                j as int, f) == a0.eval(levers, j as int, f) by {
                assert(b.0.eval(levers, j as int, f) == a.0.eval(levers, j as int, f));
                assert(a.0.eval(levers, j as int, f) == a0.eval(levers, j as int, f));
            }
            assert forall|i: usize| #[trigger] b.0.has(i as int) && (b.0.ty(i as int) is Off || b.0.ty(i as int) is On
                || b.0.ty(i as int) is Lever) implies b.0.deps(i as int).len() == 0 by {
                assert(scan.last().has(i as int));
            }
        }
    }
}

/// A gate that stays computes what it did, at any depth, where dead code elimination (see
/// [cleaned]) leaves every gate that a remaining gate reads.
proof fn lemma_cleaned_eval(c: &GateGraphBuilder, b: &GateGraphBuilder, levers: spec_fn(int) -> bool, j: usize, f: nat)
    requires
        cleaned(c, b),
        b.has(j as int),
        forall|i: usize, k: int| b.has(i as int) && 0 <= k < b.deps(i as int).len() ==> b.has(
            #[trigger] b.deps(i as int)[k] as int),
    ensures
        b.eval(levers, j as int, f) == c.eval(levers, j as int, f),
    decreases f,
{
    if f > 0 {
        let g = (f - 1) as nat;
        let ds = b.deps(j as int);
        assert(c.has(j as int));
        lemma_eval_all_index(b, levers, ds, g);
        lemma_eval_all_index(c, levers, ds, g);
        assert forall|k: int| 0 <= k < ds.len() implies #[trigger] b.eval_all(levers, ds, g)[k] == c.eval_all(levers,
            ds, g)[k] by {
            assert(b.has(ds[k] as int));
            lemma_cleaned_eval(c, b, levers, ds[k], g);
        }
        assert(b.eval_all(levers, ds, g) =~= c.eval_all(levers, ds, g));
    }
}

/// Equal gate merging keeps what every gate computes: on a graph without cycles, ordered by
/// `rank` (see [ranked]), every gate that stays after the pass computes what it computed
/// before, with any fuel above its rank and whatever the levers, where the pass leaves every
/// gate that a remaining gate reads.
pub proof fn law_merging_keeps_settled_states(a: &GateGraphBuilder, b: &GateGraphBuilder, rank: spec_fn(usize) -> nat,
    levers: spec_fn(int) -> bool, j: usize, f: nat)
    requires
        a.base_wf(),
        ranked(a, rank),
        gates_merged(a, b),
        forall|i: usize, k: int| b.has(i as int) && 0 <= k < b.deps(i as int).len() ==> b.has(
            #[trigger] b.deps(i as int)[k] as int),
        b.has(j as int),
        f > rank(j),
    ensures
        b.eval(levers, j as int, f) == a.eval(levers, j as int, f),
{
    let trace = choose|trace: Seq<(GateGraphBuilder, Seq<usize>)>| #[trigger] merge_gates_run(trace)
        && trace[0].0 == *a && present_order(a, trace[0].1)
        && (trace.last().1.len() == 0 || trace.len() > usize::MAX)
        && cleaned(&trace.last().0, b);
    assert forall|i: usize| #[trigger] a.has(i as int) && (a.ty(i as int) is Off || a.ty(i as int) is On || a.ty(
        i as int) is Lever) implies a.deps(i as int).len() == 0 by {
        a.lemma_gate_ok(i as int);
    }
    lemma_merge_prefix(trace, rank, trace.len() - 1);
    let c = trace.last().0;
    assert(trace[trace.len() - 1].0 == c);
    lemma_cleaned_eval(&c, b, levers, j, f);
}

/// A run of merge steps followed by one more is a run of merge steps.
proof fn lemma_merge_gates_push(t: Seq<(GateGraphBuilder, Seq<usize>)>, b: (GateGraphBuilder, Seq<usize>))
    requires
        merge_gates_run(t),
        merge_gate_step(t.last(), b),
    ensures
        merge_gates_run(t.push(b)),
        t.push(b)[0] == t[0],
        t.push(b).last() == b,
{
    let c = t.push(b);
    assert forall|k: int| 0 <= k < c.len() - 1 implies #[trigger] merge_gate_step(c[k], c[k + 1]) by {
        if k < t.len() - 1 {
            assert(c[k] == t[k] && c[k + 1] == t[k + 1]);
        } else {
            assert(c[k] == t.last());
        }
    }
}

/// Merges each gate into the gates of the same type that read it, where that does not change
/// what they compute: an And, Or or Xor gate that reads another gate of its own type takes over
/// that gate's dependencies in its place, unless that gate reads itself or the reader. Negated
/// gates are left alone. The gates that are no longer read are then removed.
///
/// The gates are taken from a work list, at first all of them in increasing order, last
/// first, each handled as [merge_gate_step] says (a gate that took something over goes back
/// on the list), and dead code elimination follows (see [cleaned]).
///
/// A ring of gates of one type can make the merging go on without end; the pass stops after
/// `usize::MAX` rounds.
pub fn equal_gate_merging_pass(g: &mut GateGraphBuilder)
    requires
        old(g).base_wf(),
    ensures
        final(g).optimized_from(old(g)),
        forall|i: usize| !#[trigger] is_dead(final(g), i),
        exists|trace: Seq<(GateGraphBuilder, Seq<usize>)>| #[trigger] merge_gates_run(trace)
            && trace[0].0 == *old(g) && present_order(old(g), trace[0].1)
            && (trace.last().1.len() == 0 || trace.len() > usize::MAX)
            && cleaned(&trace.last().0, final(g)),
        gates_merged(old(g), final(g)),
{
    proof {
        g.lemma_optimized_refl();
    }
    let mut work = present_gates(g);
    let mut rounds: usize = usize::MAX;
    let ghost mut trace: Seq<(GateGraphBuilder, Seq<usize>)> = seq![(*g, work@)];
    while work.len() > 0 && rounds > 0
        invariant
            g.optimized_from(old(g)),
            merge_gates_run(trace),
            trace[0].0 == *old(g),
            present_order(old(g), trace[0].1),
            trace.last() == (*g, work@),
            trace.len() + rounds == usize::MAX + 1,
        decreases rounds,
    {
        rounds = rounds - 1;
        let ghost w0 = work@;
        let idx = work.pop().unwrap();
        proof {
            assert(w0.last() == idx && work@ == w0.drop_last());
        }
        let ty = match g.gate_type(idx) {
            None => {
                proof {
                    lemma_merge_gates_push(trace, (*g, work@));
                    trace = trace.push((*g, work@));
                }
                continue;
            },
            Some(t) => t,
        };
        if ty.is_negated() {
            proof {
                lemma_merge_gates_push(trace, (*g, work@));
                trace = trace.push((*g, work@));
            }
            continue;
        }
        proof {
            g.lemma_gate_ok(idx as int);
        }
        let snapshot = g.dependencies_of(idx);
        if snapshot.len() == 0 {
            proof {
                lemma_merge_gates_push(trace, (*g, work@));
                trace = trace.push((*g, work@));
            }
            continue;
        }
        assert(is_variadic(ty)) by {
            assert(!negated(ty));
        }
        let ghost start = *g;
        let mut updated = false;
        let mut p: usize = snapshot.len();
        let ghost mut scan: Seq<GateGraphBuilder> = seq![*g];
        while p > 0
            invariant
                g.optimized_from(old(g)),
                g.optimized_from(&start),
                g.num_slots() == start.num_slots(),
                g.has(idx as int),
                g.ty(idx as int) == ty,
                is_variadic(ty),
                p <= snapshot@.len(),
                p <= g.deps(idx as int).len(),
                forall|k: int| 0 <= k < p ==> #[trigger] g.deps(idx as int)[k] == snapshot@[k],
                forall|k: int| 0 <= k < snapshot@.len() ==> #[trigger] snapshot@[k] < start.num_slots(),
                snapshot@ == start.deps(idx as int),
                scan.len() == snapshot@.len() - p + 1,
                forall|k: int| 0 <= k < scan.len() - 1 ==> #[trigger] scan_step(&scan[k], &scan[k + 1], idx, snapshot@,
                    snapshot@.len() - 1 - k),
                scan[0] == start,
                scan.last() == *g,
                updated == exists|k: int| 0 <= k < scan.len() - 1
                    && #[trigger] absorbable(&scan[k], idx, snapshot@[snapshot@.len() - 1 - k]),
            decreases p,
        {
            p = p - 1;
            let dependency = snapshot[p];
            if dependency == idx {
                proof {
                    lemma_scan_push(scan, *g, idx, snapshot@);
                    scan = scan.push(*g);
                }
                continue;
            }
            let dty = match g.gate_type(dependency) {
                None => {
                    proof {
                        lemma_scan_push(scan, *g, idx, snapshot@);
                        scan = scan.push(*g);
                    }
                    continue;
                },
                Some(t) => t,
            };
            if dty != ty {
                proof {
                    lemma_scan_push(scan, *g, idx, snapshot@);
                    scan = scan.push(*g);
                }
                continue;
            }
            proof {
                g.lemma_gate_ok(dependency as int);
            }
            let inner = g.dependencies_of(dependency);
            if holds_either(&inner, dependency, idx) {
                proof {
                    lemma_scan_push(scan, *g, idx, snapshot@);
                    scan = scan.push(*g);
                }
                continue;
            }
            let ghost before = *g;
            absorb(g, idx, p, dependency, &inner);
            proof {
                GateGraphBuilder::lemma_optimized_trans(old(g), &before, g);
                GateGraphBuilder::lemma_optimized_trans(&start, &before, g);
                assert forall|k: int| 0 <= k < p implies #[trigger] g.deps(idx as int)[k] == snapshot@[k] by {
                    assert(before.deps(idx as int).remove(p as int)[k] == before.deps(idx as int)[k]);
                }
                assert(absorbable(&before, idx, snapshot@[p as int]));
                assert forall|e: usize| e != dependency && before.has(e as int) && #[trigger] before.deps(
                    dependency as int).contains(e) implies g.dependents(e as int).contains(idx) by {
                    let q = choose|q: int| 0 <= q < inner@.len() && inner@[q] == e;
                    assert(g.dependents(inner@[q] as int).contains(idx));
                }
                assert(absorbed(&before, g, idx, p as int, dependency));
                lemma_scan_push(scan, *g, idx, snapshot@);
                scan = scan.push(*g);
            }
            updated = true;
        }
        proof {
            assert(scan_run(scan, idx, start.deps(idx as int)));
            assert(updated == scan_merged(scan, idx, start.deps(idx as int)));
        }
        if updated {
            work.push(idx);
        }
        proof {
            assert(merge_gate_step(trace.last(), (*g, work@)));
            lemma_merge_gates_push(trace, (*g, work@));
            trace = trace.push((*g, work@));
        }
    }
    let ghost merged = *g;
    dead_code_elimination_pass(g);
    proof {
        GateGraphBuilder::lemma_optimized_trans(old(g), &merged, g);
        assert(cleaned(&trace.last().0, g));
    }
}

} // verus!
