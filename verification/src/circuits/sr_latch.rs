use crate::graph::gate::{off, GateIndex, GateType};
use crate::graph::graph_builder::GateGraphBuilder;
use vstd::prelude::*;

verus! {

/// Returns the Q output of an SR latch made of two cross connected `Nor` gates: Q reads `r`
/// and not-Q, not-Q reads `s` and Q.
pub fn sr_latch(g: &mut GateGraphBuilder, s: GateIndex, r: GateIndex, name: &str) -> (q: GateIndex)
    requires
        old(g).wf(),
        s@ < old(g).num_slots(),
        r@ < old(g).num_slots(),
    ensures
        final(g).grows_from(old(g)),
        final(g).levers() == old(g).levers(),
        final(g).num_slots() == old(g).num_slots() + 2,
        q@ == old(g).num_slots(),
        final(g).ty(q@ as int) is Nor,
        final(g).deps(q@ as int) == seq![r@, (q@ + 1) as usize],
        final(g).ty(q@ + 1) is Nor,
        final(g).deps(q@ + 1) == seq![s@, q@],
        final(g).keeps_deps(old(g)),
{
    let ghost g0 = *g;
    let q = g.nor2(r, off(), name);
    let ghost g1 = *g;
    let nq = g.nor2(s, q, name);
    let ghost g2 = *g;
    proof {
        assert(g2.ty(q@ as int) == g1.ty(q@ as int));
    }
    g.d1(q, nq);
    proof {
        GateGraphBuilder::lemma_grows_trans(&g0, &g1, &g2);
        GateGraphBuilder::lemma_grows_trans(&g0, &g2, g);
        assert(g.ty(q@ as int) == g2.ty(q@ as int));
        assert(g.ty(nq@ as int) == g2.ty(nq@ as int));
        assert(g.deps(q@ as int) == seq![r@, nq@]);
        assert forall|j: int| 0 <= j < g0.num_slots() implies #[trigger] g.deps(j) == g0.deps(j) by {
            assert(g.ty(j) == g2.ty(j) && g2.ty(j) == g1.ty(j) && g1.ty(j) == g0.ty(j));
            assert(g.deps(j) == g2.deps(j));
            assert(g2.deps(j) == g1.deps(j));
        }
    }
    q
}

} // verus!
