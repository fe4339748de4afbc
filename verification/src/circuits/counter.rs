use crate::circuits::adder::{adder, adder_bit, lemma_adder_bit_kept};
use crate::circuits::bus::Bus;
use crate::circuits::bus_multiplexer::{bits_before, bus_multiplexer, lemma_mux_wiring_kept, mux_len, mux_wiring, views, widest};
use crate::circuits::constant::{off_run, zeros};
use crate::circuits::register::{lemma_register_wiring_kept, register, register_wiring};
use crate::graph::gate::{gate_run, gate_stride, on, GateIndex, GateType};
use crate::graph::graph_builder::GateGraphBuilder;
use vstd::arithmetic::power2::{lemma2_to64, pow2};
use vstd::prelude::*;

verus! {

/// The widest of two inputs of equal width `n` is `n` wide.
proof fn lemma_widest_two(a: &[GateIndex], b: &[GateIndex])
    requires
        a@.len() == b@.len(),
    ensures
        widest(views(seq![a, b])) == a@.len(),
{
    let v = views(seq![a, b]);
    assert(v.drop_last().drop_last() =~= Seq::<Seq<GateIndex>>::empty());
    assert(v.drop_last().last() == a@);
    assert(v.last() == b@);
    assert(v.drop_last().len() == 1);
    assert(widest(v.drop_last().drop_last()) == 0);
    assert(widest(v.drop_last()) == a@.len());
    assert(widest(v) == a@.len());
}

/// Returns the output of a counter as wide as `input`. On the rising edge of `clock` it
/// counts up by one while `enable` is active, or loads `input` while `write` is active;
/// `reset` clears it; the output is the count while `read` is active, else 0.
#[verifier::rlimit(60)]
#[verifier::spinoff_prover]
pub fn counter(
    g: &mut GateGraphBuilder,
    clock: GateIndex,
    enable: GateIndex,
    write: GateIndex,
    read: GateIndex,
    reset: GateIndex,
    input: &[GateIndex],
    name: &str,
) -> (out: Vec<GateIndex>)
    requires
        old(g).wf(),
        clock@ < old(g).num_slots(),
        enable@ < old(g).num_slots(),
        write@ < old(g).num_slots(),
        read@ < old(g).num_slots(),
        reset@ < old(g).num_slots(),
        old(g).all_in(input@),
    ensures
        final(g).grows_from(old(g)),
        final(g).levers() == old(g).levers(),
        out@.len() == input@.len(),
        final(g).all_in(out@),
        forall|k: int| 0 <= k < out@.len() ==> #[trigger] final(g).ty(out@[k]@ as int) is Or,
        ({
            let b = old(g).num_slots() as int;
            let n = input@.len() as int;
            let a = b + n;
            let nclock = a + 5 * n;
            let m1 = nclock + 1;
            let r1 = m1 + 3 * n + 3;
            let r2 = r1 + 8 * n;
            let m2 = r2 + 8 * n;
            &&& final(g).keeps_deps(old(g))
            &&& final(g).num_slots() == m2 + 3 * n + 3
            &&& forall|k: int| 0 <= k < n ==> #[trigger] final(g).ty(b + k) is Or
                && final(g).deps(b + k) == seq![(r2 + 8 * k + 7) as usize]
            &&& forall|k: int| 0 <= k < n ==> #[trigger] adder_bit(*final(g), a, enable@, gate_run(b, n as nat), off_run(n as nat), k)
            &&& final(g).ty(nclock) is Not && final(g).deps(nclock) == seq![clock@]
            &&& mux_wiring(*final(g), m1, seq![write], seq![gate_stride(a + 1, 5, n as nat), input@])
            &&& register_wiring(*final(g), r1, gate_run(m1, n as nat), nclock as usize, reset@, 1, 1)
            &&& register_wiring(*final(g), r2, gate_stride(r1 + 7, 8, n as nat), clock@, reset@, 1, 1)
            &&& mux_wiring(*final(g), m2, seq![read], seq![off_run(n as nat), gate_stride(r2 + 7, 8, n as nat)])
            &&& forall|k: int| 0 <= k < n ==> #[trigger] out@[k]@ == m2 + k
        }),
{
    proof {
        lemma2_to64();
        old(g).lemma_consts();
    }
    let n = input.len();
    let ghost g0 = *g;
    let adder_input = Bus::new(g, n, name);
    let ghost g1 = *g;
    let zero_bits = zeros(n);
    let ghost zero_bits_first = zero_bits;
    proof {
        assert(g.all_in(adder_input.gates())) by {
            assert forall|k: int| 0 <= k < adder_input.gates().len() implies #[trigger] adder_input.gates()[k]@ < g.num_slots() by {
                assert(adder_input.gates()[k]@ == g0.num_slots() + k);
            }
        }
        assert(g.all_in(zero_bits@));
    }
    let adder_output = adder(g, enable, adder_input.bits(), zero_bits.as_slice(), name);
    let ghost g2 = *g;
    let nclock = g.not1(clock, name);
    let ghost g3 = *g;
    let sum = adder_output.as_slice();
    proof {
        assert forall|k: int| 0 <= k < adder_output@.len() implies #[trigger] adder_output@[k]@ < g.num_slots() by {
            assert(adder_output@[k]@ == g1.num_slots() + 5 * k + 1);
        }
        lemma_widest_two(sum, input);
    }
    let write_address = [write];
    let choices = [sum, input];
    let ghost v1 = views(choices@);
    let master_register_input = bus_multiplexer(g, &write_address, &choices, name);
    let ghost g4 = *g;
    let master_register_output = register(g, nclock, on(), on(), reset, master_register_input.as_slice(), name);
    let ghost g5 = *g;
    proof {
        assert forall|k: int| 0 <= k < master_register_output@.len() implies #[trigger] master_register_output@[k]@ < g.num_slots() by {
            assert(master_register_output@[k]@ == g4.num_slots() + 8 * k + 7);
        }
    }
    let slave_register_output = register(g, clock, on(), on(), reset, master_register_output.as_slice(), name);
    let ghost g6 = *g;
    proof {
        assert forall|k: int| 0 <= k < slave_register_output@.len() implies #[trigger] slave_register_output@[k]@ < g.num_slots() by {
            assert(slave_register_output@[k]@ == g5.num_slots() + 8 * k + 7);
        }
        GateGraphBuilder::lemma_grows_trans(&g1, &g2, &g3);
        GateGraphBuilder::lemma_grows_trans(&g1, &g3, &g4);
        GateGraphBuilder::lemma_grows_trans(&g1, &g4, &g5);
        GateGraphBuilder::lemma_grows_trans(&g1, &g5, &g6);
        adder_input.lemma_wf_grows(&g1, &g6);
    }
    adder_input.connect(g, slave_register_output.as_slice());
    let ghost g7 = *g;
    let zero_bits = zeros(n);
    let zero_slice = zero_bits.as_slice();
    let slave_slice = slave_register_output.as_slice();
    proof {
        lemma_widest_two(zero_slice, slave_slice);
        assert(g.all_in(zero_bits@));
    }
    let read_address = [read];
    let choices = [zero_slice, slave_slice];
    let ghost v2 = views(choices@);
    let out = bus_multiplexer(g, &read_address, &choices, name);
    proof {
        GateGraphBuilder::lemma_grows_trans(&g0, &g1, &g6);
        GateGraphBuilder::lemma_grows_trans(&g0, &g6, &g7);
        GateGraphBuilder::lemma_grows_trans(&g0, &g7, g);
        let b = g0.num_slots() as int;
        let nn = n as int;
        let a = b + nn;
        let nc = a + 5 * nn;
        let m1 = nc + 1;
        let r1 = m1 + 3 * nn + 3;
        let r2 = r1 + 8 * nn;
        let m2 = r2 + 8 * nn;
        assert(v1 =~= seq![sum@, input@]);
        assert(v2 =~= seq![zero_slice@, slave_slice@]);
        assert(bits_before(v1, 2) == 2 * nn) by {
            assert(v1[0].len() == nn && v1[1].len() == nn);
            assert(bits_before(v1, 0) == 0);
            assert(bits_before(v1, 1) == nn);
        }
        assert(bits_before(v2, 2) == 2 * nn) by {
            assert(v2[0].len() == nn && v2[1].len() == nn);
            assert(bits_before(v2, 0) == 0);
            assert(bits_before(v2, 1) == nn);
        }
        assert(mux_len(1, v1) == 3 * nn + 3);
        assert(mux_len(1, v2) == 3 * nn + 3);
        assert(g1.num_slots() == a);
        assert(g2.num_slots() == nc);
        assert(g3.num_slots() == m1);
        assert(g4.num_slots() == r1);
        assert(g5.num_slots() == r2);
        assert(g6.num_slots() == m2);
        assert(g7.num_slots() == m2);
        GateGraphBuilder::lemma_grows_trans(&g2, &g3, &g4);
        GateGraphBuilder::lemma_grows_trans(&g2, &g4, &g5);
        GateGraphBuilder::lemma_grows_trans(&g2, &g5, &g6);
        GateGraphBuilder::lemma_grows_trans(&g6, &g7, g);
        GateGraphBuilder::lemma_grows_trans(&g2, &g6, g);
        GateGraphBuilder::lemma_grows_trans(&g4, &g5, &g6);
        GateGraphBuilder::lemma_grows_trans(&g4, &g6, g);
        GateGraphBuilder::lemma_grows_trans(&g5, &g6, g);
        GateGraphBuilder::lemma_grows_trans(&g3, &g4, g);
        // Everything from the adder on keeps its wiring to the end.
        assert forall|j: int| a <= j < m2 implies #[trigger] g.deps(j) == g6.deps(j) && g.ty(j) == g6.ty(j) by {
            assert(g.deps(j) == g7.deps(j));
            if adder_input.holds_gate(j) {
                let k = choose|k: int| 0 <= k < adder_input.gates().len() && adder_input.gates()[k]@ == j;
                assert(adder_input.gates()[k]@ == b + k);
            }
            assert(g7.deps(j) == g6.deps(j));
        }
        assert forall|j: int| 0 <= j < r2 implies #[trigger] g6.deps(j) == g5.deps(j) by {}
        assert forall|j: int| 0 <= j < r1 implies #[trigger] g5.deps(j) == g4.deps(j) by {}
        assert forall|j: int| 0 <= j < m1 implies #[trigger] g4.deps(j) == g3.deps(j) by {}
        assert forall|j: int| 0 <= j < nc implies #[trigger] g3.deps(j) == g2.deps(j) by {
            assert(g3.ty(j) == g2.ty(j));
        }
        // The adder.
        assert(adder_input.gates() =~= gate_run(b, nn as nat)) by {
            assert forall|k: int| 0 <= k < nn implies adder_input.gates()[k] == gate_run(b, nn as nat)[k] by {
                assert(adder_input.gates()[k]@ == b + k);
            }
        }
        assert forall|k: int| 0 <= k < nn implies #[trigger] adder_bit(*g, a, enable@, gate_run(b, nn as nat), off_run(nn as nat), k) by {
            assert(adder_bit(g2, a, enable@, adder_input.gates(), zero_bits_first@, k));
            assert forall|j: int| a + 5 * k <= j < a + 5 * k + 5 implies #[trigger] g.deps(j) == g2.deps(j) && g.ty(j) == g2.ty(j) by {
                assert(g.deps(j) == g6.deps(j) && g.ty(j) == g6.ty(j));
                assert(g6.deps(j) == g5.deps(j));
                assert(g5.deps(j) == g4.deps(j));
                assert(g4.deps(j) == g3.deps(j));
                assert(g3.deps(j) == g2.deps(j));
            }
            lemma_adder_bit_kept(*g, g2, a, enable@, gate_run(b, nn as nat), off_run(nn as nat), k);
        }
        // Gates before the counter, and the bus.
        assert forall|j: int| 0 <= j < b implies #[trigger] g.deps(j) == g0.deps(j) by {
            assert(!adder_input.holds_gate(j)) by {
                if adder_input.holds_gate(j) {
                    let k = choose|k: int| 0 <= k < adder_input.gates().len() && adder_input.gates()[k]@ == j;
                    assert(adder_input.gates()[k]@ == b + k);
                }
            }
            assert(g.deps(j) == g7.deps(j));
            assert(g7.deps(j) == g6.deps(j));
            assert(g6.deps(j) == g5.deps(j));
            assert(g5.deps(j) == g4.deps(j));
            assert(g4.deps(j) == g3.deps(j));
            assert(g3.deps(j) == g2.deps(j));
            assert(g2.deps(j) == g1.deps(j));
        }
        assert forall|k: int| 0 <= k < nn implies #[trigger] g.ty(b + k) is Or
            && g.deps(b + k) == seq![(r2 + 8 * k + 7) as usize] by {
            assert(adder_input.gates()[k]@ == b + k);
            assert(g1.ty(b + k) is Or && g1.deps(b + k).len() == 0);
            assert(g2.deps(b + k) == g1.deps(b + k));
            assert(g3.deps(b + k) == g2.deps(b + k));
            assert(g4.deps(b + k) == g3.deps(b + k));
            assert(g5.deps(b + k) == g4.deps(b + k));
            assert(g6.deps(b + k) == g5.deps(b + k));
            assert(g7.deps(b + k) == g6.deps(b + k).push(slave_register_output@[k]@));
            assert(slave_register_output@[k]@ == r2 + 8 * k + 7);
            assert(g.deps(b + k) == g7.deps(b + k));
            assert(g.ty(b + k) == g1.ty(b + k));
        }
        // The inverted clock.
        assert(g.ty(nc) is Not && g.deps(nc) == seq![clock@]) by {
            assert(g.deps(nc) == g6.deps(nc) && g.ty(nc) == g6.ty(nc));
            assert(g6.deps(nc) == g5.deps(nc));
            assert(g5.deps(nc) == g4.deps(nc));
            assert(g4.deps(nc) == g3.deps(nc));
        }
        // The multiplexer that picks the sum or the input.
        assert(sum@ =~= gate_stride(a + 1, 5, nn as nat)) by {
            assert forall|k: int| 0 <= k < nn implies sum@[k] == gate_stride(a + 1, 5, nn as nat)[k] by {
                assert(adder_output@[k]@ == a + 5 * k + 1);
            }
        }
        assert(write_address@ =~= seq![write]);
        assert(mux_wiring(*g, m1, seq![write], seq![gate_stride(a + 1, 5, nn as nat), input@])) by {
            assert(mux_wiring(g4, m1, write_address@, v1));
            assert forall|j: int| m1 <= j < m1 + mux_len(1, v1) implies #[trigger] g.deps(j) == g4.deps(j) && g.ty(j) == g4.ty(j) by {
                assert(g.deps(j) == g6.deps(j) && g.ty(j) == g6.ty(j));
                assert(g6.deps(j) == g5.deps(j));
                assert(g5.deps(j) == g4.deps(j));
            }
            lemma_mux_wiring_kept(*g, g4, m1, write_address@, v1);
        }
        // The master register.
        assert(master_register_input@ =~= gate_run(m1, nn as nat)) by {
            assert forall|k: int| 0 <= k < nn implies master_register_input@[k] == gate_run(m1, nn as nat)[k] by {
                assert(master_register_input@[k]@ == m1 + k);
            }
        }
        assert(register_wiring(*g, r1, gate_run(m1, nn as nat), nc as usize, reset@, 1, 1)) by {
            assert(register_wiring(g5, r1, master_register_input@, nclock@, reset@, 1, 1));
            assert forall|j: int| r1 <= j < r1 + 8 * nn implies #[trigger] g.deps(j) == g5.deps(j) && g.ty(j) == g5.ty(j) by {
                assert(g.deps(j) == g6.deps(j) && g.ty(j) == g6.ty(j));
                assert(g6.deps(j) == g5.deps(j));
            }
            lemma_register_wiring_kept(*g, g5, r1, master_register_input@, nclock@, reset@, 1, 1);
        }
        // The slave register.
        assert(master_register_output@ =~= gate_stride(r1 + 7, 8, nn as nat)) by {
            assert forall|k: int| 0 <= k < nn implies master_register_output@[k] == gate_stride(r1 + 7, 8, nn as nat)[k] by {
                assert(master_register_output@[k]@ == r1 + 8 * k + 7);
            }
        }
        assert(register_wiring(*g, r2, gate_stride(r1 + 7, 8, nn as nat), clock@, reset@, 1, 1)) by {
            assert(register_wiring(g6, r2, master_register_output@, clock@, reset@, 1, 1));
            assert forall|j: int| r2 <= j < r2 + 8 * nn implies #[trigger] g.deps(j) == g6.deps(j) && g.ty(j) == g6.ty(j) by {}
            lemma_register_wiring_kept(*g, g6, r2, master_register_output@, clock@, reset@, 1, 1);
        }
        // The multiplexer that outputs the count or zeros.
        assert(slave_slice@ =~= gate_stride(r2 + 7, 8, nn as nat)) by {
            assert forall|k: int| 0 <= k < nn implies slave_slice@[k] == gate_stride(r2 + 7, 8, nn as nat)[k] by {
                assert(slave_register_output@[k]@ == r2 + 8 * k + 7);
            }
        }
        assert(read_address@ =~= seq![read]);
        assert(v2 =~= seq![off_run(nn as nat), gate_stride(r2 + 7, 8, nn as nat)]);
        assert(mux_wiring(*g, m2, seq![read], seq![off_run(nn as nat), gate_stride(r2 + 7, 8, nn as nat)]));
    }
    out
}

} // verus!
