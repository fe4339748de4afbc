use crate::circuits::register::{register, register_wiring};
use crate::circuits::sr_latch::sr_latch;
use crate::graph::gate::{GateIndex, GateType};
use crate::graph::graph_builder::GateGraphBuilder;
use vstd::prelude::*;

verus! {

/// Returns an "updated" flag and the output of a register holding `input`: the register is
/// written on the rising edge of `clock` while `write` is active, and the flag, an SR latch,
/// is set by that write and cleared by `reset` or `ack`.
pub fn output_register(
    g: &mut GateGraphBuilder,
    input: &[GateIndex],
    clock: GateIndex,
    write: GateIndex,
    read: GateIndex,
    reset: GateIndex,
    ack: GateIndex,
    name: &str,
) -> (r: (GateIndex, Vec<GateIndex>))
    requires
        old(g).wf(),
        old(g).all_in(input@),
        clock@ < old(g).num_slots(),
        write@ < old(g).num_slots(),
        read@ < old(g).num_slots(),
        reset@ < old(g).num_slots(),
        ack@ < old(g).num_slots(),
    ensures
        final(g).grows_from(old(g)),
        final(g).levers() == old(g).levers(),
        r.0@ < final(g).num_slots(),
        final(g).ty(r.0@ as int) is Nor,
        r.1@.len() == input@.len(),
        final(g).all_in(r.1@),
        forall|k: int| 0 <= k < r.1@.len() ==> #[trigger] final(g).ty(r.1@[k]@ as int) is And,
        ({
            let n = old(g).num_slots() as int;
            &&& final(g).keeps_deps(old(g))
            &&& final(g).num_slots() == n + 4 + 8 * input@.len()
            &&& final(g).ty(n) is And && final(g).deps(n) == seq![write@, clock@]
            &&& final(g).ty(n + 1) is Or && final(g).deps(n + 1) == seq![reset@, ack@]
            &&& r.0@ == n + 2
            &&& final(g).deps(n + 2) == seq![(n + 1) as usize, (n + 3) as usize]
            &&& final(g).ty(n + 3) is Nor && final(g).deps(n + 3) == seq![n as usize, (n + 2) as usize]
            &&& forall|k: int| 0 <= k < r.1@.len() ==> #[trigger] r.1@[k]@ == n + 4 + 8 * k + 7
            &&& register_wiring(*final(g), n + 4, input@, clock@, reset@, write@, read@)
        }),
{
    let ghost g0 = *g;
    let updated_s = g.and2(write, clock, name);
    let ghost g1 = *g;
    let updated_r = g.or2(reset, ack, name);
    let ghost g2 = *g;
    let updated_output = sr_latch(g, updated_s, updated_r, name);
    let ghost g3 = *g;
    let register_output = register(g, clock, write, read, reset, input, name);
    proof {
        GateGraphBuilder::lemma_grows_trans(&g0, &g1, &g2);
        GateGraphBuilder::lemma_grows_trans(&g0, &g2, &g3);
        GateGraphBuilder::lemma_grows_trans(&g0, &g3, g);
        assert(g.ty(updated_output@ as int) == g3.ty(updated_output@ as int));
        assert forall|k: int| 0 <= k < register_output@.len() implies #[trigger] register_output@[k]@ < g.num_slots() by {
            assert(register_output@[k]@ == g3.num_slots() + 8 * k + 7);
        }
        let n = g0.num_slots() as int;
        assert forall|j: int| 0 <= j < n implies #[trigger] g.deps(j) == g0.deps(j) by {
            assert(g.deps(j) == g3.deps(j));
            assert(g3.deps(j) == g2.deps(j));
            assert(g2.ty(j) == g1.ty(j) && g1.ty(j) == g0.ty(j));
        }
        assert(g.deps(n) == g3.deps(n));
        assert(g3.deps(n) == g2.deps(n));
        assert(g2.ty(n) == g1.ty(n));
        assert(g.deps(n + 1) == g3.deps(n + 1));
        assert(g3.deps(n + 1) == g2.deps(n + 1));
        assert(g.deps(n + 2) == g3.deps(n + 2));
        assert(g.deps(n + 3) == g3.deps(n + 3));
        assert(g.ty(n + 3) == g3.ty(n + 3));
    }
    (updated_output, register_output)
}

} // verus!
