use crate::circuits::adder::{adder, adder_bit, lemma_adder_bit_kept};
use crate::graph::gate::{gate_run, GateIndex, GateType};
use crate::graph::graph_builder::GateGraphBuilder;
use vstd::prelude::*;

verus! {

/// Returns, for each bit of `input`, an `Xor` of the bit and `invert`.
fn invert_bits(g: &mut GateGraphBuilder, input: &[GateIndex], invert: GateIndex, name: &str) -> (out: Vec<GateIndex>)
    requires
        old(g).wf(),
        old(g).all_in(input@),
        invert@ < old(g).num_slots(),
    ensures
        final(g).grows_from(old(g)),
        final(g).levers() == old(g).levers(),
        out@.len() == input@.len(),
        final(g).all_in(out@),
        forall|k: int| 0 <= k < out@.len() ==> #[trigger] final(g).ty(out@[k]@ as int) is Xor
            && final(g).deps(out@[k]@ as int) == seq![input@[k]@, invert@],
        out@ == gate_run(old(g).num_slots() as int, input@.len()),
        forall|k: int| 0 <= k < out@.len() ==> #[trigger] out@[k]@ == old(g).num_slots() + k,
        final(g).num_slots() == old(g).num_slots() + input@.len(),
        final(g).keeps_deps(old(g)),
{
    proof {
        g.lemma_grows_refl();
    }
    let mut out: Vec<GateIndex> = Vec::new();
    let mut k: usize = 0;
    while k < input.len()
        invariant
            g.grows_from(old(g)),
            g.levers() == old(g).levers(),
            old(g).all_in(input@),
            invert@ < old(g).num_slots(),
            k <= input@.len(),
            out@.len() == k,
            g.all_in(out@),
            forall|j: int| 0 <= j < k ==> #[trigger] g.ty(out@[j]@ as int) is Xor
                && g.deps(out@[j]@ as int) == seq![input@[j]@, invert@],
            out@ == gate_run(old(g).num_slots() as int, k as nat),
            forall|j: int| 0 <= j < k ==> #[trigger] out@[j]@ == old(g).num_slots() + j,
            g.num_slots() == old(g).num_slots() + k,
            g.keeps_deps(old(g)),
        decreases input@.len() - k,
    {
        let ghost before = *g;
        let ghost prev = out@;
        let x = g.xor2(input[k], invert, name);
        out.push(x);
        proof {
            GateGraphBuilder::lemma_grows_trans(old(g), &before, g);
            assert(out@ =~= gate_run(old(g).num_slots() as int, (k + 1) as nat));
            assert forall|j: int| 0 <= j < k + 1 implies #[trigger] out@[j]@ == old(g).num_slots() + j by {
                if j < k { assert(out@[j] == prev[j]); }
            }
            assert forall|j: int| 0 <= j < old(g).num_slots() implies #[trigger] g.deps(j) == old(g).deps(j) by {
                assert(g.ty(j) == before.ty(j));
            }
            assert forall|j: int| 0 <= j < k + 1 implies #[trigger] g.ty(out@[j]@ as int) is Xor
                && g.deps(out@[j]@ as int) == seq![input@[j]@, invert@] by {
                if j < k {
                    assert(out@[j] == prev[j]);
                    assert(g.ty(prev[j]@ as int) == before.ty(prev[j]@ as int));
                }
            }
        }
        k = k + 1;
    }
    out
}

/// Returns, for each bit of `input`, an `And` of the bit and `enable`.
fn enable_bits(g: &mut GateGraphBuilder, input: &Vec<GateIndex>, enable: GateIndex, name: &str) -> (out: Vec<GateIndex>)
    requires
        old(g).wf(),
        old(g).all_in(input@),
        enable@ < old(g).num_slots(),
    ensures
        final(g).grows_from(old(g)),
        final(g).levers() == old(g).levers(),
        out@.len() == input@.len(),
        final(g).all_in(out@),
        forall|k: int| 0 <= k < out@.len() ==> #[trigger] final(g).ty(out@[k]@ as int) is And
            && final(g).deps(out@[k]@ as int) == seq![input@[k]@, enable@],
        out@ == gate_run(old(g).num_slots() as int, input@.len()),
        forall|k: int| 0 <= k < out@.len() ==> #[trigger] out@[k]@ == old(g).num_slots() + k,
        final(g).num_slots() == old(g).num_slots() + input@.len(),
        final(g).keeps_deps(old(g)),
{
    proof {
        g.lemma_grows_refl();
    }
    let mut out: Vec<GateIndex> = Vec::new();
    let mut k: usize = 0;
    while k < input.len()
        invariant
            g.grows_from(old(g)),
            g.levers() == old(g).levers(),
            old(g).all_in(input@),
            enable@ < old(g).num_slots(),
            k <= input@.len(),
            out@.len() == k,
            g.all_in(out@),
            forall|j: int| 0 <= j < k ==> #[trigger] g.ty(out@[j]@ as int) is And
                && g.deps(out@[j]@ as int) == seq![input@[j]@, enable@],
            out@ == gate_run(old(g).num_slots() as int, k as nat),
            forall|j: int| 0 <= j < k ==> #[trigger] out@[j]@ == old(g).num_slots() + j,
            g.num_slots() == old(g).num_slots() + k,
            g.keeps_deps(old(g)),
        decreases input@.len() - k,
    {
        let ghost before = *g;
        let ghost prev = out@;
        let a = g.and2(input[k], enable, name);
        out.push(a);
        proof {
            GateGraphBuilder::lemma_grows_trans(old(g), &before, g);
            assert(out@ =~= gate_run(old(g).num_slots() as int, (k + 1) as nat));
            assert forall|j: int| 0 <= j < k + 1 implies #[trigger] out@[j]@ == old(g).num_slots() + j by {
                if j < k { assert(out@[j] == prev[j]); }
            }
            assert forall|j: int| 0 <= j < old(g).num_slots() implies #[trigger] g.deps(j) == old(g).deps(j) by {
                assert(g.ty(j) == before.ty(j));
            }
            assert forall|j: int| 0 <= j < k + 1 implies #[trigger] g.ty(out@[j]@ as int) is And
                && g.deps(out@[j]@ as int) == seq![input@[j]@, enable@] by {
                if j < k {
                    assert(out@[j] == prev[j]);
                    assert(g.ty(prev[j]@ as int) == before.ty(prev[j]@ as int));
                }
            }
        }
        k = k + 1;
    }
    out
}

/// Returns the output of an ALU that can only add and subtract: the sum of `input1`, `input2`
/// (each bit flipped when `invert_input_2` is active) and `cin`, each bit anded with `read`.
/// With `cin` and `invert_input_2` active it subtracts `input2` in two's complement.
pub fn aluish(
    g: &mut GateGraphBuilder,
    cin: GateIndex,
    read: GateIndex,
    invert_input_2: GateIndex,
    input1: &[GateIndex],
    input2: &[GateIndex],
    name: &str,
) -> (out: Vec<GateIndex>)
    requires
        old(g).wf(),
        cin@ < old(g).num_slots(),
        read@ < old(g).num_slots(),
        invert_input_2@ < old(g).num_slots(),
        old(g).all_in(input1@),
        old(g).all_in(input2@),
        input1@.len() == input2@.len(),
    ensures
        final(g).grows_from(old(g)),
        final(g).levers() == old(g).levers(),
        out@.len() == input1@.len(),
        final(g).all_in(out@),
        forall|k: int| 0 <= k < out@.len() ==> #[trigger] final(g).ty(out@[k]@ as int) is And
            && final(g).deps(out@[k]@ as int).len() == 2
            && final(g).deps(out@[k]@ as int)[1] == read@
            && final(g).ty(final(g).deps(out@[k]@ as int)[0] as int) is Xor,
        ({
            let n = old(g).num_slots() as int;
            let w = input1@.len();
            &&& final(g).keeps_deps(old(g))
            &&& final(g).num_slots() == n + 7 * w
            &&& forall|k: int| 0 <= k < w ==> #[trigger] final(g).ty(n + k) is Xor
                && final(g).deps(n + k) == seq![input2@[k]@, invert_input_2@]
            &&& forall|k: int| 0 <= k < w ==> #[trigger] adder_bit(*final(g), n + w, cin@, input1@, gate_run(n, w), k)
            &&& out@ == gate_run(n + 6 * w, w)
            &&& forall|k: int| 0 <= k < w ==> #[trigger] final(g).ty(n + 6 * w + k) is And
                && final(g).deps(n + 6 * w + k) == seq![(n + w + 5 * k + 1) as usize, read@]
        }),
{
    let ghost g0 = *g;
    let new_input2 = invert_bits(g, input2, invert_input_2, name);
    let ghost g1 = *g;
    let sum = adder(g, cin, input1, new_input2.as_slice(), name);
    let ghost g2 = *g;
    proof {
        assert forall|k: int| 0 <= k < sum@.len() implies #[trigger] sum@[k]@ < g.num_slots() by {
            assert(sum@[k]@ == g1.num_slots() + 5 * k + 1);
        }
    }
    let out = enable_bits(g, &sum, read, name);
    proof {
        GateGraphBuilder::lemma_grows_trans(&g0, &g1, &g2);
        GateGraphBuilder::lemma_grows_trans(&g0, &g2, g);
        assert forall|k: int| 0 <= k < out@.len() implies #[trigger] g.ty(out@[k]@ as int) is And
            && g.deps(out@[k]@ as int).len() == 2
            && g.deps(out@[k]@ as int)[1] == read@
            && g.ty(g.deps(out@[k]@ as int)[0] as int) is Xor by {
            let s = sum@[k]@ as int;
            assert(adder_bit(g2, g1.num_slots() as int, cin@, input1@, new_input2@, k));
            assert(s == g1.num_slots() + 5 * k + 1);
            assert(g.ty(s) == g2.ty(s));
        }
        let n = g0.num_slots() as int;
        let w = input1@.len();
        assert forall|j: int| 0 <= j < g1.num_slots() implies #[trigger] g.deps(j) == g1.deps(j) && g.ty(j) == g1.ty(j) by {
            assert(g.deps(j) == g2.deps(j));
            assert(g2.deps(j) == g1.deps(j));
        }
        assert forall|j: int| 0 <= j < n implies #[trigger] g.deps(j) == g0.deps(j) by {
            assert(g.deps(j) == g1.deps(j) && g.ty(j) == g1.ty(j));
        }
        assert forall|k: int| 0 <= k < w implies #[trigger] g.ty(n + k) is Xor
            && g.deps(n + k) == seq![input2@[k]@, invert_input_2@] by {
            assert(new_input2@[k]@ == n + k);
            assert(g.deps(n + k) == g1.deps(n + k) && g.ty(n + k) == g1.ty(n + k));
        }
        assert forall|k: int| 0 <= k < w implies #[trigger] adder_bit(*g, n + w, cin@, input1@, gate_run(n, w), k) by {
            assert(adder_bit(g2, n + w, cin@, input1@, new_input2@, k));
            assert forall|j: int| n + w + 5 * k <= j < n + w + 5 * k + 5 implies #[trigger] g.deps(j) == g2.deps(j) && g.ty(j) == g2.ty(j) by {
                assert(g.deps(j) == g2.deps(j));
            }
            lemma_adder_bit_kept(*g, g2, n + w, cin@, input1@, new_input2@, k);
        }
        assert forall|k: int| 0 <= k < w implies #[trigger] g.ty(n + 6 * w + k) is And
            && g.deps(n + 6 * w + k) == seq![(n + w + 5 * k + 1) as usize, read@] by {
            assert(out@[k]@ == n + 6 * w + k);
            assert(sum@[k]@ == n + w + 5 * k + 1);
        }
    }
    out
}

/// Returns the output of an ALU that can only add and subtract, see [aluish]: the sum of
/// `input1`, `input2` (flipped when `invert_input_2` is active) and `cin`, each bit anded with
/// `write_to_bus`.
pub fn alu(
    g: &mut GateGraphBuilder,
    cin: GateIndex,
    write_to_bus: GateIndex,
    invert_input_2: GateIndex,
    input1: &[GateIndex],
    input2: &[GateIndex],
    name: &str,
) -> (out: Vec<GateIndex>)
    requires
        old(g).wf(),
        cin@ < old(g).num_slots(),
        write_to_bus@ < old(g).num_slots(),
        invert_input_2@ < old(g).num_slots(),
        old(g).all_in(input1@),
        old(g).all_in(input2@),
        input1@.len() == input2@.len(),
    ensures
        final(g).grows_from(old(g)),
        final(g).levers() == old(g).levers(),
        out@.len() == input1@.len(),
        final(g).all_in(out@),
        forall|k: int| 0 <= k < out@.len() ==> #[trigger] final(g).ty(out@[k]@ as int) is And
            && final(g).deps(out@[k]@ as int).len() == 2
            && final(g).deps(out@[k]@ as int)[1] == write_to_bus@
            && final(g).ty(final(g).deps(out@[k]@ as int)[0] as int) is Xor,
        ({
            let n = old(g).num_slots() as int;
            let w = input1@.len();
            &&& final(g).keeps_deps(old(g))
            &&& final(g).num_slots() == n + 7 * w
            &&& forall|k: int| 0 <= k < w ==> #[trigger] final(g).ty(n + k) is Xor
                && final(g).deps(n + k) == seq![input2@[k]@, invert_input_2@]
            &&& forall|k: int| 0 <= k < w ==> #[trigger] adder_bit(*final(g), n + w, cin@, input1@, gate_run(n, w), k)
            &&& out@ == gate_run(n + 6 * w, w)
            &&& forall|k: int| 0 <= k < w ==> #[trigger] final(g).ty(n + 6 * w + k) is And
                && final(g).deps(n + 6 * w + k) == seq![(n + w + 5 * k + 1) as usize, write_to_bus@]
        }),
{
    aluish(g, cin, write_to_bus, invert_input_2, input1, input2, name)
}

} // verus!
