use crate::circuits::decoder::{decoder, line_deps};
use crate::graph::gate::{GateIndex, GateType};
use crate::graph::graph_builder::GateGraphBuilder;
use vstd::arithmetic::power2::pow2;
use vstd::prelude::*;

verus! {

/// Returns the output of a multiplexer that selects one of `inputs` by `address`: an `Or` gate
/// reading, for each input `k`, the `And` of decoder line `k` and the input. Addresses past
/// the inputs select nothing (`OFF`).
pub fn multiplexer(g: &mut GateGraphBuilder, address: &[GateIndex], inputs: &[GateIndex], name: &str) -> (r: GateIndex)
    requires
        old(g).wf(),
        old(g).all_in(address@),
        old(g).all_in(inputs@),
        address@.len() < usize::BITS,
        pow2(address@.len() as nat) >= inputs@.len(),
    ensures
        final(g).grows_from(old(g)),
        final(g).levers() == old(g).levers(),
        r@ < final(g).num_slots(),
        final(g).ty(r@ as int) is Or,
        final(g).deps(r@ as int).len() == inputs@.len(),
        forall|k: int| 0 <= k < inputs@.len() ==> {
            let and = #[trigger] final(g).deps(r@ as int)[k] as int;
            let line = old(g).num_slots() + address@.len() + k;
            &&& final(g).ty(and) is And
            &&& final(g).deps(and) == seq![line as usize, inputs@[k]@]
            &&& final(g).ty(line) is And
            &&& final(g).deps(line) == line_deps(address@, old(g).num_slots() as int, k as nat, address@.len() as nat)
        },
{
    let ghost g0 = *g;
    let lines = decoder(g, address, name);
    let ghost g1 = *g;
    let big_or = g.or(name);
    let ghost g2 = *g;
    proof {
        GateGraphBuilder::lemma_grows_trans(&g0, &g1, &g2);
        assert(g.deps(big_or@ as int) =~= Seq::<usize>::empty());
    }
    let n = if lines.len() < inputs.len() { lines.len() } else { inputs.len() };
    let mut k: usize = 0;
    while k < n
        invariant
            g.grows_from(&g0),
            g.grows_from(&g2),
            g.levers() == g0.levers(),
            g0 == *old(g),
            g0.all_in(inputs@),
            n == inputs@.len(),
            lines@.len() >= n,
            big_or@ == g1.num_slots(),
            g2.num_slots() == g1.num_slots() + 1,
            forall|i: int| 0 <= i < lines@.len() ==> #[trigger] lines@[i]@ == g0.num_slots() + address@.len() + i,
            forall|i: int| 0 <= i < lines@.len() ==> #[trigger] g1.ty(lines@[i]@ as int) is And,
            forall|i: int| 0 <= i < lines@.len() ==> #[trigger] g1.deps(lines@[i]@ as int)
                == line_deps(address@, g0.num_slots() as int, i as nat, address@.len() as nat),
            lines@.len() + g0.num_slots() + address@.len() <= g1.num_slots(),
            forall|a: int| 0 <= a < g2.num_slots() && a != big_or@ ==> #[trigger] g.deps(a) == g2.deps(a),
            k <= n,
            g.ty(big_or@ as int) is Or,
            g.deps(big_or@ as int).len() == k,
            forall|i: int| 0 <= i < k ==> {
                let and = #[trigger] g.deps(big_or@ as int)[i] as int;
                &&& g2.num_slots() <= and < g.num_slots()
                &&& g.ty(and) is And
                &&& g.deps(and) == seq![lines@[i]@, inputs@[i]@]
            },
        decreases n - k,
    {
        let ghost h0 = *g;
        let and = g.and2(lines[k], inputs[k], name);
        let ghost h1 = *g;
        proof {
            assert(h1.ty(big_or@ as int) == h0.ty(big_or@ as int));
        }
        g.dpush(big_or, and);
        proof {
            GateGraphBuilder::lemma_grows_trans(&h0, &h1, g);
            GateGraphBuilder::lemma_grows_trans(&g0, &h0, g);
            GateGraphBuilder::lemma_grows_trans(&g2, &h0, g);
            assert(g.ty(big_or@ as int) == h1.ty(big_or@ as int));
            assert(g.ty(and@ as int) == h1.ty(and@ as int));
            assert(g.deps(and@ as int) == h1.deps(and@ as int));
            assert forall|a: int| 0 <= a < g2.num_slots() && a != big_or@ implies #[trigger] g.deps(a) == g2.deps(a) by {
                assert(h1.ty(a) == h0.ty(a));
                assert(g.ty(a) == h1.ty(a));
            }
            assert forall|i: int| 0 <= i < k + 1 implies {
                let and = #[trigger] g.deps(big_or@ as int)[i] as int;
                &&& g2.num_slots() <= and < g.num_slots()
                &&& g.ty(and) is And
                &&& g.deps(and) == seq![lines@[i]@, inputs@[i]@]
            } by {
                if i < k {
                    let a = h0.deps(big_or@ as int)[i] as int;
                    assert(g.deps(big_or@ as int)[i] == h0.deps(big_or@ as int)[i]);
                    assert(h1.ty(a) == h0.ty(a) && h1.deps(a) == h0.deps(a));
                    assert(g.ty(a) == h1.ty(a));
                }
            }
        }
        k = k + 1;
    }
    proof {
        assert forall|k: int| 0 <= k < inputs@.len() implies {
            let and = #[trigger] g.deps(big_or@ as int)[k] as int;
            let line = g0.num_slots() + address@.len() + k;
            &&& g.ty(and) is And
            &&& g.deps(and) == seq![line as usize, inputs@[k]@]
            &&& g.ty(line) is And
            &&& g.deps(line) == line_deps(address@, g0.num_slots() as int, k as nat, address@.len() as nat)
        } by {
            let line = lines@[k]@ as int;
            assert(g1.ty(line) is And);
            assert(g2.ty(line) == g1.ty(line) && g2.deps(line) == g1.deps(line));
            assert(g.ty(line) == g2.ty(line));
            assert(g.deps(line) == g2.deps(line));
        }
    }
    big_or
}

} // verus!
