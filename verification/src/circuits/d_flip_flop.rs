use crate::circuits::sr_latch::sr_latch;
use crate::graph::gate::{GateIndex, GateType};
use crate::graph::graph_builder::GateGraphBuilder;
use vstd::prelude::*;

verus! {

/// Returns the Q output of a D flip-flop: on the rising edge of `clock`, while `write` is
/// active, it stores `d`; `reset` stores false at any time; the output is the stored bit and
/// `read`.
/// True if the gates from `n` on in `g` are those of a D flip-flop: the write enabled clock
/// `n`, not-D `n + 1`, the set and reset lines `n + 2` to `n + 4`, the SR latch `n + 5` and
/// `n + 6`, and the read gate `n + 7`.
pub open spec fn d_flip_flop_wiring(g: GateGraphBuilder, n: int, d: usize, clock: usize, reset: usize, write: usize, read: usize) -> bool {
    &&& g.ty(n) is And && g.deps(n) == seq![clock, write]
    &&& g.ty(n + 1) is Not && g.deps(n + 1) == seq![d]
    &&& g.ty(n + 2) is And && g.deps(n + 2) == seq![d, n as usize]
    &&& g.ty(n + 3) is And && g.deps(n + 3) == seq![(n + 1) as usize, n as usize]
    &&& g.ty(n + 4) is Or && g.deps(n + 4) == seq![(n + 3) as usize, reset]
    &&& g.ty(n + 5) is Nor && g.deps(n + 5) == seq![(n + 4) as usize, (n + 6) as usize]
    &&& g.ty(n + 6) is Nor && g.deps(n + 6) == seq![(n + 2) as usize, (n + 5) as usize]
    &&& g.ty(n + 7) is And && g.deps(n + 7) == seq![(n + 5) as usize, read]
}

/// The wiring of a D flip-flop stays as the graph grows without changing old dependencies.
pub proof fn lemma_d_flip_flop_wiring_kept(
    a: GateGraphBuilder,
    b: GateGraphBuilder,
    n: int,
    d: usize,
    clock: usize,
    reset: usize,
    write: usize,
    read: usize,
)
    requires
        d_flip_flop_wiring(b, n, d, clock, reset, write, read),
        0 <= n,
        forall|j: int| n <= j < n + 8 ==> #[trigger] a.deps(j) == b.deps(j) && a.ty(j) == b.ty(j),
    ensures
        d_flip_flop_wiring(a, n, d, clock, reset, write, read),
{
    assert(a.deps(n) === b.deps(n));
    assert(a.ty(n) == b.ty(n));
    assert(a.deps(n + 1) === b.deps(n + 1));
    assert(a.ty(n + 1) == b.ty(n + 1));
    assert(a.deps(n + 2) === b.deps(n + 2));
    assert(a.ty(n + 2) == b.ty(n + 2));
    assert(a.deps(n + 3) === b.deps(n + 3));
    assert(a.ty(n + 3) == b.ty(n + 3));
    assert(a.deps(n + 4) === b.deps(n + 4));
    assert(a.ty(n + 4) == b.ty(n + 4));
    assert(a.deps(n + 5) === b.deps(n + 5));
    assert(a.ty(n + 5) == b.ty(n + 5));
    assert(a.deps(n + 6) === b.deps(n + 6));
    assert(a.ty(n + 6) == b.ty(n + 6));
    assert(a.deps(n + 7) === b.deps(n + 7));
    assert(a.ty(n + 7) == b.ty(n + 7));
}

pub fn d_flip_flop(
    g: &mut GateGraphBuilder,
    d: GateIndex,
    clock: GateIndex,
    reset: GateIndex,
    write: GateIndex,
    read: GateIndex,
    name: &str,
) -> (out: GateIndex)
    requires
        old(g).wf(),
        d@ < old(g).num_slots(),
        clock@ < old(g).num_slots(),
        reset@ < old(g).num_slots(),
        write@ < old(g).num_slots(),
        read@ < old(g).num_slots(),
    ensures
        final(g).grows_from(old(g)),
        final(g).levers() == old(g).levers(),
        final(g).num_slots() == old(g).num_slots() + 8,
        out@ == old(g).num_slots() + 7,
        final(g).ty(out@ as int) is And,
        final(g).deps(out@ as int) == seq![(old(g).num_slots() + 5) as usize, read@],
        final(g).keeps_deps(old(g)),
        d_flip_flop_wiring(*final(g), old(g).num_slots() as int, d@, clock@, reset@, write@, read@),
{
    let ghost g0 = *g;
    let clock = g.and2(clock, write, name);
    let ghost g1 = *g;
    let ninput = g.not1(d, name);
    let ghost g2 = *g;
    let s_and = g.and2(d, clock, name);
    let ghost g3 = *g;
    let r_and = g.and2(ninput, clock, name);
    let ghost g4 = *g;
    let r_or = g.or2(r_and, reset, name);
    let ghost g5 = *g;
    let q = sr_latch(g, s_and, r_or, name);
    let ghost g6 = *g;
    let out = g.and2(q, read, name);
    proof {
        GateGraphBuilder::lemma_grows_trans(&g0, &g1, &g2);
        GateGraphBuilder::lemma_grows_trans(&g0, &g2, &g3);
        GateGraphBuilder::lemma_grows_trans(&g0, &g3, &g4);
        GateGraphBuilder::lemma_grows_trans(&g0, &g4, &g5);
        GateGraphBuilder::lemma_grows_trans(&g0, &g5, &g6);
        GateGraphBuilder::lemma_grows_trans(&g0, &g6, g);
        let n = g0.num_slots() as int;
        assert forall|j: int| 0 <= j < n + 5 implies #[trigger] g.deps(j) == g5.deps(j) && g.ty(j) == g5.ty(j) by {
            assert(g.deps(j) == g6.deps(j));
        }
        assert forall|j: int| 0 <= j < n implies #[trigger] g5.deps(j) == g0.deps(j) by {
            assert(g5.ty(j) == g4.ty(j) && g4.ty(j) == g3.ty(j) && g3.ty(j) == g2.ty(j) && g2.ty(j) == g1.ty(j));
            assert(g1.ty(j) == g0.ty(j));
        }
        assert(g5.deps(n) == g1.deps(n)) by {
            assert(g5.ty(n) == g4.ty(n) && g4.ty(n) == g3.ty(n) && g3.ty(n) == g2.ty(n));
        }
        assert(g5.deps(n + 1) == g2.deps(n + 1)) by {
            assert(g5.ty(n + 1) == g4.ty(n + 1) && g4.ty(n + 1) == g3.ty(n + 1));
        }
        assert(g5.deps(n + 2) == g3.deps(n + 2)) by {
            assert(g5.ty(n + 2) == g4.ty(n + 2));
        }
        assert(g.deps(n + 5) == g6.deps(n + 5));
        assert(g.deps(n + 6) == g6.deps(n + 6));
    }
    out
}

} // verus!
