use crate::graph::gate::{GateIndex, GateType};
use crate::graph::graph_builder::GateGraphBuilder;
use vstd::prelude::*;

verus! {

/// True if the gates from `n` on in `g` are those of a master-slave JK flip-flop: the
/// inverted clock `n`, the master latch `n + 1` to `n + 4` and the slave latch `n + 5` to
/// `n + 8`, each latch's inputs also reading the slave's outputs.
pub open spec fn jk_flip_flop_wiring(g: GateGraphBuilder, n: int, reset: usize, set: usize, clock: usize) -> bool {
    &&& g.ty(n) is Not && g.deps(n) == seq![clock]
    &&& g.ty(n + 1) is Nand && g.deps(n + 1) == seq![reset, clock, (n + 7) as usize]
    &&& g.ty(n + 2) is Nand && g.deps(n + 2) == seq![set, clock, (n + 8) as usize]
    &&& g.ty(n + 3) is Nor && g.deps(n + 3) == seq![(n + 1) as usize, (n + 4) as usize]
    &&& g.ty(n + 4) is Nor && g.deps(n + 4) == seq![(n + 2) as usize, (n + 3) as usize]
    &&& g.ty(n + 5) is And && g.deps(n + 5) == seq![(n + 3) as usize, n as usize]
    &&& g.ty(n + 6) is And && g.deps(n + 6) == seq![(n + 4) as usize, n as usize]
    &&& g.ty(n + 7) is Nor && g.deps(n + 7) == seq![(n + 5) as usize, (n + 8) as usize]
    &&& g.ty(n + 8) is Nor && g.deps(n + 8) == seq![(n + 6) as usize, (n + 7) as usize]
}

/// Returns the Q output of a master-slave JK flip-flop built from `Nand`, `Nor` and `And`
/// gates: `set` and `reset` act on the rising edge of `clock`, and both together toggle it.
pub fn jk_flip_flop(g: &mut GateGraphBuilder, reset: GateIndex, set: GateIndex, clock: GateIndex) -> (q: GateIndex)
    requires
        old(g).wf(),
        reset@ < old(g).num_slots(),
        set@ < old(g).num_slots(),
        clock@ < old(g).num_slots(),
    ensures
        final(g).grows_from(old(g)),
        final(g).levers() == old(g).levers(),
        final(g).num_slots() == old(g).num_slots() + 9,
        q@ == old(g).num_slots() + 7,
        final(g).ty(q@ as int) is Nor,
        final(g).deps(q@ as int) == seq![(old(g).num_slots() + 5) as usize, (old(g).num_slots() + 8) as usize],
        final(g).keeps_deps(old(g)),
        jk_flip_flop_wiring(*final(g), old(g).num_slots() as int, reset@, set@, clock@),
{
    let name = "jk_flip_flop";
    let ghost g0 = *g;
    let nclock = g.not1(clock, name);
    let ghost g1 = *g;
    let master_reset_and = g.nand2(reset, clock, name);
    let ghost g2 = *g;
    let master_set_and = g.nand2(set, clock, name);
    let ghost g3 = *g;
    let master_q = g.nor1(master_reset_and, name);
    let ghost g4 = *g;
    let master_nq = g.nor2(master_set_and, master_q, name);
    let ghost g5 = *g;
    proof {
        assert(g.ty(master_q@ as int) == g4.ty(master_q@ as int));
    }
    g.dpush(master_q, master_nq);
    let ghost g6 = *g;
    let slave_reset_and = g.and2(master_q, nclock, name);
    let ghost g7 = *g;
    let slave_set_and = g.and2(master_nq, nclock, name);
    let ghost g8 = *g;
    let slave_q = g.nor1(slave_reset_and, name);
    let ghost g9 = *g;
    let slave_nq = g.nor2(slave_set_and, slave_q, name);
    let ghost g10 = *g;
    proof {
        assert(g.ty(slave_q@ as int) == g9.ty(slave_q@ as int));
    }
    g.dpush(slave_q, slave_nq);
    let ghost g11 = *g;
    proof {
        assert(g.ty(master_reset_and@ as int) == g2.ty(master_reset_and@ as int)) by {
            GateGraphBuilder::lemma_grows_trans(&g2, &g3, &g4);
            GateGraphBuilder::lemma_grows_trans(&g2, &g4, &g5);
            GateGraphBuilder::lemma_grows_trans(&g2, &g5, &g6);
            GateGraphBuilder::lemma_grows_trans(&g2, &g6, &g7);
            GateGraphBuilder::lemma_grows_trans(&g2, &g7, &g8);
            GateGraphBuilder::lemma_grows_trans(&g2, &g8, &g9);
            GateGraphBuilder::lemma_grows_trans(&g2, &g9, &g10);
            GateGraphBuilder::lemma_grows_trans(&g2, &g10, &g11);
        }
    }
    g.dpush(master_reset_and, slave_q);
    let ghost g12 = *g;
    proof {
        assert(g.ty(master_set_and@ as int) == g3.ty(master_set_and@ as int)) by {
            GateGraphBuilder::lemma_grows_trans(&g3, &g4, &g5);
            GateGraphBuilder::lemma_grows_trans(&g3, &g5, &g6);
            GateGraphBuilder::lemma_grows_trans(&g3, &g6, &g7);
            GateGraphBuilder::lemma_grows_trans(&g3, &g7, &g8);
            GateGraphBuilder::lemma_grows_trans(&g3, &g8, &g9);
            GateGraphBuilder::lemma_grows_trans(&g3, &g9, &g10);
            GateGraphBuilder::lemma_grows_trans(&g3, &g10, &g11);
            GateGraphBuilder::lemma_grows_trans(&g3, &g11, &g12);
        }
    }
    g.dpush(master_set_and, slave_nq);
    proof {
        GateGraphBuilder::lemma_grows_trans(&g0, &g1, &g2);
        GateGraphBuilder::lemma_grows_trans(&g0, &g2, &g3);
        GateGraphBuilder::lemma_grows_trans(&g0, &g3, &g4);
        GateGraphBuilder::lemma_grows_trans(&g0, &g4, &g5);
        GateGraphBuilder::lemma_grows_trans(&g0, &g5, &g6);
        GateGraphBuilder::lemma_grows_trans(&g0, &g6, &g7);
        GateGraphBuilder::lemma_grows_trans(&g0, &g7, &g8);
        GateGraphBuilder::lemma_grows_trans(&g0, &g8, &g9);
        GateGraphBuilder::lemma_grows_trans(&g0, &g9, &g10);
        GateGraphBuilder::lemma_grows_trans(&g0, &g10, &g11);
        GateGraphBuilder::lemma_grows_trans(&g0, &g11, &g12);
        GateGraphBuilder::lemma_grows_trans(&g0, &g12, g);
        assert(g12.ty(slave_q@ as int) == g11.ty(slave_q@ as int));
        assert(g.ty(slave_q@ as int) == g12.ty(slave_q@ as int));
        assert(g12.deps(slave_q@ as int) == g11.deps(slave_q@ as int));
        assert(g.deps(slave_q@ as int) == g12.deps(slave_q@ as int));
        let n = g0.num_slots() as int;
        assert(g2.ty(n) == g1.ty(n) && g2.deps(n) == g1.deps(n));
        assert(g3.ty(n) == g2.ty(n) && g3.deps(n) == g2.deps(n));
        assert(g4.ty(n) == g3.ty(n) && g4.deps(n) == g3.deps(n));
        assert(g5.ty(n) == g4.ty(n) && g5.deps(n) == g4.deps(n));
        assert(g6.ty(n) == g5.ty(n) && g6.deps(n) == g5.deps(n));
        assert(g7.ty(n) == g6.ty(n) && g7.deps(n) == g6.deps(n));
        assert(g8.ty(n) == g7.ty(n) && g8.deps(n) == g7.deps(n));
        assert(g9.ty(n) == g8.ty(n) && g9.deps(n) == g8.deps(n));
        assert(g10.ty(n) == g9.ty(n) && g10.deps(n) == g9.deps(n));
        assert(g11.ty(n) == g10.ty(n) && g11.deps(n) == g10.deps(n));
        assert(g12.ty(n) == g11.ty(n) && g12.deps(n) == g11.deps(n));
        assert(g.ty(n) == g12.ty(n) && g.deps(n) == g12.deps(n));
        assert(g.ty(n + 1) == g12.ty(n + 1) && g.deps(n + 1) == g12.deps(n + 1));
        assert(g7.ty(n + 3) == g6.ty(n + 3) && g7.deps(n + 3) == g6.deps(n + 3));
        assert(g8.ty(n + 3) == g7.ty(n + 3) && g8.deps(n + 3) == g7.deps(n + 3));
        assert(g9.ty(n + 3) == g8.ty(n + 3) && g9.deps(n + 3) == g8.deps(n + 3));
        assert(g10.ty(n + 3) == g9.ty(n + 3) && g10.deps(n + 3) == g9.deps(n + 3));
        assert(g11.ty(n + 3) == g10.ty(n + 3) && g11.deps(n + 3) == g10.deps(n + 3));
        assert(g12.ty(n + 3) == g11.ty(n + 3) && g12.deps(n + 3) == g11.deps(n + 3));
        assert(g.ty(n + 3) == g12.ty(n + 3) && g.deps(n + 3) == g12.deps(n + 3));
        assert(g6.ty(n + 4) == g5.ty(n + 4) && g6.deps(n + 4) == g5.deps(n + 4));
        assert(g7.ty(n + 4) == g6.ty(n + 4) && g7.deps(n + 4) == g6.deps(n + 4));
        assert(g8.ty(n + 4) == g7.ty(n + 4) && g8.deps(n + 4) == g7.deps(n + 4));
        assert(g9.ty(n + 4) == g8.ty(n + 4) && g9.deps(n + 4) == g8.deps(n + 4));
        assert(g10.ty(n + 4) == g9.ty(n + 4) && g10.deps(n + 4) == g9.deps(n + 4));
        assert(g11.ty(n + 4) == g10.ty(n + 4) && g11.deps(n + 4) == g10.deps(n + 4));
        assert(g12.ty(n + 4) == g11.ty(n + 4) && g12.deps(n + 4) == g11.deps(n + 4));
        assert(g.ty(n + 4) == g12.ty(n + 4) && g.deps(n + 4) == g12.deps(n + 4));
        assert(g8.ty(n + 5) == g7.ty(n + 5) && g8.deps(n + 5) == g7.deps(n + 5));
        assert(g9.ty(n + 5) == g8.ty(n + 5) && g9.deps(n + 5) == g8.deps(n + 5));
        assert(g10.ty(n + 5) == g9.ty(n + 5) && g10.deps(n + 5) == g9.deps(n + 5));
        assert(g11.ty(n + 5) == g10.ty(n + 5) && g11.deps(n + 5) == g10.deps(n + 5));
        assert(g12.ty(n + 5) == g11.ty(n + 5) && g12.deps(n + 5) == g11.deps(n + 5));
        assert(g.ty(n + 5) == g12.ty(n + 5) && g.deps(n + 5) == g12.deps(n + 5));
        assert(g9.ty(n + 6) == g8.ty(n + 6) && g9.deps(n + 6) == g8.deps(n + 6));
        assert(g10.ty(n + 6) == g9.ty(n + 6) && g10.deps(n + 6) == g9.deps(n + 6));
        assert(g11.ty(n + 6) == g10.ty(n + 6) && g11.deps(n + 6) == g10.deps(n + 6));
        assert(g12.ty(n + 6) == g11.ty(n + 6) && g12.deps(n + 6) == g11.deps(n + 6));
        assert(g.ty(n + 6) == g12.ty(n + 6) && g.deps(n + 6) == g12.deps(n + 6));
        assert(g12.ty(n + 7) == g11.ty(n + 7) && g12.deps(n + 7) == g11.deps(n + 7));
        assert(g.ty(n + 7) == g12.ty(n + 7) && g.deps(n + 7) == g12.deps(n + 7));
        assert(g11.ty(n + 8) == g10.ty(n + 8) && g11.deps(n + 8) == g10.deps(n + 8));
        assert(g12.ty(n + 8) == g11.ty(n + 8) && g12.deps(n + 8) == g11.deps(n + 8));
        assert(g.ty(n + 8) == g12.ty(n + 8) && g.deps(n + 8) == g12.deps(n + 8));
        assert(g6.deps(n + 3) == g5.deps(n + 3).push((n + 4) as usize));
        assert(g5.deps(n + 3) == g4.deps(n + 3));
        assert(g11.deps(n + 7) == g10.deps(n + 7).push((n + 8) as usize));
        assert(g10.deps(n + 7) == g9.deps(n + 7));
        assert(g12.deps(n + 1) == g11.deps(n + 1).push((n + 7) as usize));
        assert(g3.ty(n + 1) == g2.ty(n + 1) && g3.deps(n + 1) == g2.deps(n + 1));
        assert(g4.ty(n + 1) == g3.ty(n + 1) && g4.deps(n + 1) == g3.deps(n + 1));
        assert(g5.ty(n + 1) == g4.ty(n + 1) && g5.deps(n + 1) == g4.deps(n + 1));
        assert(g6.ty(n + 1) == g5.ty(n + 1) && g6.deps(n + 1) == g5.deps(n + 1));
        assert(g7.ty(n + 1) == g6.ty(n + 1) && g7.deps(n + 1) == g6.deps(n + 1));
        assert(g8.ty(n + 1) == g7.ty(n + 1) && g8.deps(n + 1) == g7.deps(n + 1));
        assert(g9.ty(n + 1) == g8.ty(n + 1) && g9.deps(n + 1) == g8.deps(n + 1));
        assert(g10.ty(n + 1) == g9.ty(n + 1) && g10.deps(n + 1) == g9.deps(n + 1));
        assert(g11.ty(n + 1) == g10.ty(n + 1) && g11.deps(n + 1) == g10.deps(n + 1));
        assert(g.ty(n + 2) == g12.ty(n + 2));
        assert(g.deps(n + 2) == g12.deps(n + 2).push((n + 8) as usize));
        assert(g4.ty(n + 2) == g3.ty(n + 2) && g4.deps(n + 2) == g3.deps(n + 2));
        assert(g5.ty(n + 2) == g4.ty(n + 2) && g5.deps(n + 2) == g4.deps(n + 2));
        assert(g6.ty(n + 2) == g5.ty(n + 2) && g6.deps(n + 2) == g5.deps(n + 2));
        assert(g7.ty(n + 2) == g6.ty(n + 2) && g7.deps(n + 2) == g6.deps(n + 2));
        assert(g8.ty(n + 2) == g7.ty(n + 2) && g8.deps(n + 2) == g7.deps(n + 2));
        assert(g9.ty(n + 2) == g8.ty(n + 2) && g9.deps(n + 2) == g8.deps(n + 2));
        assert(g10.ty(n + 2) == g9.ty(n + 2) && g10.deps(n + 2) == g9.deps(n + 2));
        assert(g11.ty(n + 2) == g10.ty(n + 2) && g11.deps(n + 2) == g10.deps(n + 2));
        assert(g12.ty(n + 2) == g11.ty(n + 2) && g12.deps(n + 2) == g11.deps(n + 2));
        assert(g.ty(n) is Not && g.deps(n) == seq![clock@]);
        assert(g.ty(n + 1) is Nand && g.deps(n + 1) == seq![reset@, clock@, (n + 7) as usize]);
        assert(g.ty(n + 2) is Nand && g.deps(n + 2) == seq![set@, clock@, (n + 8) as usize]);
        assert(g.ty(n + 3) is Nor && g.deps(n + 3) == seq![(n + 1) as usize, (n + 4) as usize]);
        assert(g.ty(n + 4) is Nor && g.deps(n + 4) == seq![(n + 2) as usize, (n + 3) as usize]);
        assert(g.ty(n + 5) is And && g.deps(n + 5) == seq![(n + 3) as usize, n as usize]);
        assert(g.ty(n + 6) is And && g.deps(n + 6) == seq![(n + 4) as usize, n as usize]);
        assert(g.ty(n + 7) is Nor && g.deps(n + 7) == seq![(n + 5) as usize, (n + 8) as usize]);
        assert(g.ty(n + 8) is Nor && g.deps(n + 8) == seq![(n + 6) as usize, (n + 7) as usize]);
        assert forall|j: int| 0 <= j < n implies #[trigger] g.deps(j) == g0.deps(j) by {
            assert(g1.ty(j) == g0.ty(j) && g1.deps(j) == g0.deps(j));
            assert(g2.ty(j) == g1.ty(j) && g2.deps(j) == g1.deps(j));
            assert(g3.ty(j) == g2.ty(j) && g3.deps(j) == g2.deps(j));
            assert(g4.ty(j) == g3.ty(j) && g4.deps(j) == g3.deps(j));
            assert(g5.ty(j) == g4.ty(j) && g5.deps(j) == g4.deps(j));
            assert(g6.ty(j) == g5.ty(j) && g6.deps(j) == g5.deps(j));
            assert(g7.ty(j) == g6.ty(j) && g7.deps(j) == g6.deps(j));
            assert(g8.ty(j) == g7.ty(j) && g8.deps(j) == g7.deps(j));
            assert(g9.ty(j) == g8.ty(j) && g9.deps(j) == g8.deps(j));
            assert(g10.ty(j) == g9.ty(j) && g10.deps(j) == g9.deps(j));
            assert(g11.ty(j) == g10.ty(j) && g11.deps(j) == g10.deps(j));
            assert(g12.ty(j) == g11.ty(j) && g12.deps(j) == g11.deps(j));
            assert(g.ty(j) == g12.ty(j) && g.deps(j) == g12.deps(j));
        }
    }
    slave_q
}

} // verus!
