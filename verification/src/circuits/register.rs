use crate::circuits::d_flip_flop::{d_flip_flop, d_flip_flop_wiring, lemma_d_flip_flop_wiring_kept};
use crate::graph::gate::{GateIndex, GateType};
use crate::graph::graph_builder::GateGraphBuilder;
use vstd::prelude::*;

verus! {

/// True if the gates from `n` on in `g` are those of a register of `input`: one D flip-flop of
/// eight gates per bit, all sharing `clock`, `reset`, `write` and `read`.
pub open spec fn register_wiring(
    g: GateGraphBuilder,
    n: int,
    input: Seq<GateIndex>,
    clock: usize,
    reset: usize,
    write: usize,
    read: usize,
) -> bool {
    forall|k: int| 0 <= k < input.len() ==> #[trigger] d_flip_flop_wiring(g, n + 8 * k, input[k]@, clock, reset, write, read)
}

/// The wiring of a register stays while its gates keep their types and dependencies.
pub proof fn lemma_register_wiring_kept(
    a: GateGraphBuilder,
    b: GateGraphBuilder,
    n: int,
    input: Seq<GateIndex>,
    clock: usize,
    reset: usize,
    write: usize,
    read: usize,
)
    requires
        register_wiring(b, n, input, clock, reset, write, read),
        0 <= n,
        forall|j: int| n <= j < n + 8 * input.len() ==> #[trigger] a.deps(j) == b.deps(j) && a.ty(j) == b.ty(j),
    ensures
        register_wiring(a, n, input, clock, reset, write, read),
{
    assert forall|k: int| 0 <= k < input.len() implies #[trigger] d_flip_flop_wiring(a, n + 8 * k, input[k]@, clock, reset, write, read) by {
        assert(d_flip_flop_wiring(b, n + 8 * k, input[k]@, clock, reset, write, read));
        lemma_d_flip_flop_wiring_kept(a, b, n + 8 * k, input[k]@, clock, reset, write, read);
    }
}

/// Returns the output of a register as wide as `input`: one D flip-flop per bit, all sharing
/// `clock`, `write`, `read` and `reset`.
pub fn register(
    g: &mut GateGraphBuilder,
    clock: GateIndex,
    write: GateIndex,
    read: GateIndex,
    reset: GateIndex,
    input: &[GateIndex],
    name: &str,
) -> (out: Vec<GateIndex>)
    requires
        old(g).wf(),
        clock@ < old(g).num_slots(),
        write@ < old(g).num_slots(),
        read@ < old(g).num_slots(),
        reset@ < old(g).num_slots(),
        old(g).all_in(input@),
    ensures
        final(g).grows_from(old(g)),
        final(g).levers() == old(g).levers(),
        final(g).num_slots() == old(g).num_slots() + 8 * input@.len(),
        out@.len() == input@.len(),
        forall|k: int| 0 <= k < out@.len() ==> #[trigger] out@[k]@ == old(g).num_slots() + 8 * k + 7,
        forall|k: int| 0 <= k < out@.len() ==> #[trigger] final(g).ty(out@[k]@ as int) is And,
        final(g).keeps_deps(old(g)),
        register_wiring(*final(g), old(g).num_slots() as int, input@, clock@, reset@, write@, read@),
{
    proof {
        g.lemma_grows_refl();
    }
    let mut out: Vec<GateIndex> = Vec::new();
    let mut k: usize = 0;
    while k < input.len()
        invariant
            g.grows_from(old(g)),
            g.levers() == old(g).levers(),
            clock@ < old(g).num_slots(),
            write@ < old(g).num_slots(),
            read@ < old(g).num_slots(),
            reset@ < old(g).num_slots(),
            old(g).all_in(input@),
            k <= input@.len(),
            g.num_slots() == old(g).num_slots() + 8 * k,
            out@.len() == k,
            forall|j: int| 0 <= j < k ==> #[trigger] out@[j]@ == old(g).num_slots() + 8 * j + 7,
            forall|j: int| 0 <= j < k ==> #[trigger] g.ty(out@[j]@ as int) is And,
            g.keeps_deps(old(g)),
            forall|j: int| 0 <= j < k ==> #[trigger] d_flip_flop_wiring(*g, old(g).num_slots() + 8 * j,
                input@[j]@, clock@, reset@, write@, read@),
        decreases input@.len() - k,
    {
        let ghost before = *g;
        let ghost prev = out@;
        let bit = d_flip_flop(g, input[k], clock, reset, write, read, name);
        out.push(bit);
        proof {
            GateGraphBuilder::lemma_grows_trans(old(g), &before, g);
            assert forall|j: int| 0 <= j < k + 1 implies #[trigger] out@[j]@ == old(g).num_slots() + 8 * j + 7 by {
                if j < k { assert(out@[j] == prev[j]); }
            }
            assert forall|j: int| 0 <= j < old(g).num_slots() implies #[trigger] g.deps(j) == old(g).deps(j) by {
                assert(g.deps(j) == before.deps(j));
            }
            assert forall|j: int| 0 <= j < k + 1 implies #[trigger] d_flip_flop_wiring(*g, old(g).num_slots() + 8 * j,
                input@[j]@, clock@, reset@, write@, read@) by {
                if j < k {
                    let n = old(g).num_slots() + 8 * j;
                    assert forall|i: int| n <= i < n + 8 implies #[trigger] g.deps(i) == before.deps(i) && g.ty(i) == before.ty(i) by {}
                    lemma_d_flip_flop_wiring_kept(*g, before, n, input@[j]@, clock@, reset@, write@, read@);
                }
            }
            assert forall|j: int| 0 <= j < k + 1 implies #[trigger] g.ty(out@[j]@ as int) is And by {
                if j < k {
                    assert(out@[j] == prev[j]);
                    assert(g.ty(prev[j]@ as int) == before.ty(prev[j]@ as int));
                }
            }
        }
        k = k + 1;
    }
    out
}

} // verus!
