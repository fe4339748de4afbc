use crate::graph::gate::{GateIndex, GateType};
use crate::graph::graph_builder::GateGraphBuilder;
use vstd::prelude::*;

verus! {

/// The carry into bit `k` of a ripple carry adder whose first gate is at `base`: `cin` for the
/// first bit, then the `Or` gate that ends the previous bit.
pub open spec fn carry_in(base: int, cin: usize, k: int) -> usize {
    if k == 0 { cin } else { (base + 5 * k - 1) as usize }
}

/// True if `g` holds, from slot `base` on, the five gates of bit `k` of a ripple carry adder
/// of `a` and `b` with carry in `cin`: `x = a[k] ^ b[k]`, the output `x ^ carry`, `a[k] & b[k]`,
/// `x & carry`, and the carry out, the `Or` of the two ands.
pub open spec fn adder_bit(g: GateGraphBuilder, base: int, cin: usize, a: Seq<GateIndex>, b: Seq<GateIndex>, k: int) -> bool {
    let x = base + 5 * k;
    let c = carry_in(base, cin, k);
    &&& g.ty(x) is Xor && g.deps(x) == seq![a[k]@, b[k]@]
    &&& g.ty(x + 1) is Xor && g.deps(x + 1) == seq![x as usize, c]
    &&& g.ty(x + 2) is And && g.deps(x + 2) == seq![a[k]@, b[k]@]
    &&& g.ty(x + 3) is And && g.deps(x + 3) == seq![x as usize, c]
    &&& g.ty(x + 4) is Or && g.deps(x + 4) == seq![(x + 3) as usize, (x + 2) as usize]
}

/// Returns the outputs of a ripple carry adder of `input1` and `input2` with carry in `cin`,
/// as wide as the inputs, least significant first.
pub fn adder(
    g: &mut GateGraphBuilder,
    cin: GateIndex,
    input1: &[GateIndex],
    input2: &[GateIndex],
    name: &str,
) -> (out: Vec<GateIndex>)
    requires
        old(g).wf(),
        cin@ < old(g).num_slots(),
        old(g).all_in(input1@),
        old(g).all_in(input2@),
        input1@.len() == input2@.len(),
    ensures
        final(g).grows_from(old(g)),
        final(g).levers() == old(g).levers(),
        final(g).num_slots() == old(g).num_slots() + 5 * input1@.len(),
        out@.len() == input1@.len(),
        forall|k: int| 0 <= k < out@.len() ==> #[trigger] out@[k]@ == old(g).num_slots() + 5 * k + 1,
        forall|k: int| 0 <= k < out@.len() ==> #[trigger] adder_bit(*final(g), old(g).num_slots() as int, cin@, input1@, input2@, k),
        final(g).keeps_deps(old(g)),
{
    proof {
        g.lemma_grows_refl();
    }
    let ghost base = old(g).num_slots() as int;
    let mut carry = cin;
    let mut out: Vec<GateIndex> = Vec::new();
    let mut k: usize = 0;
    while k < input1.len()
        invariant
            g.grows_from(old(g)),
            g.levers() == old(g).levers(),
            base == old(g).num_slots(),
            cin@ < old(g).num_slots(),
            old(g).all_in(input1@),
            old(g).all_in(input2@),
            input1@.len() == input2@.len(),
            k <= input1@.len(),
            g.num_slots() == base + 5 * k,
            carry@ == carry_in(base, cin@, k as int),
            out@.len() == k,
            forall|j: int| 0 <= j < k ==> #[trigger] out@[j]@ == base + 5 * j + 1,
            forall|j: int| 0 <= j < k ==> #[trigger] adder_bit(*g, base, cin@, input1@, input2@, j),
            g.keeps_deps(old(g)),
        decreases input1@.len() - k,
    {
        let ghost g0 = *g;
        let ghost prev = out@;
        let x = g.xor2(input1[k], input2[k], name);
        let ghost g1 = *g;
        let output = g.xor2(x, carry, name);
        let ghost g2 = *g;
        let a = g.and2(input1[k], input2[k], name);
        let ghost g3 = *g;
        let a2 = g.and2(x, carry, name);
        let ghost g4 = *g;
        carry = g.or2(a2, a, name);
        out.push(output);
        proof {
            GateGraphBuilder::lemma_grows_trans(&g0, &g1, &g2);
            GateGraphBuilder::lemma_grows_trans(&g0, &g2, &g3);
            GateGraphBuilder::lemma_grows_trans(&g0, &g3, &g4);
            GateGraphBuilder::lemma_grows_trans(&g0, &g4, g);
            GateGraphBuilder::lemma_grows_trans(old(g), &g0, g);
            let xi = base + 5 * k;
            assert(g.ty(xi) == g1.ty(xi) && g.deps(xi) == g1.deps(xi)) by {
                assert(g2.ty(xi) == g1.ty(xi));
                assert(g3.ty(xi) == g2.ty(xi));
                assert(g4.ty(xi) == g3.ty(xi));
                assert(g.ty(xi) == g4.ty(xi));
            }
            assert(g.ty(xi + 1) == g2.ty(xi + 1) && g.deps(xi + 1) == g2.deps(xi + 1)) by {
                assert(g3.ty(xi + 1) == g2.ty(xi + 1));
                assert(g4.ty(xi + 1) == g3.ty(xi + 1));
                assert(g.ty(xi + 1) == g4.ty(xi + 1));
            }
            assert(g.ty(xi + 2) == g3.ty(xi + 2) && g.deps(xi + 2) == g3.deps(xi + 2)) by {
                assert(g4.ty(xi + 2) == g3.ty(xi + 2));
                assert(g.ty(xi + 2) == g4.ty(xi + 2));
            }
            assert(g.ty(xi + 3) == g4.ty(xi + 3) && g.deps(xi + 3) == g4.deps(xi + 3)) by {
                assert(g.ty(xi + 3) == g4.ty(xi + 3));
            }
            assert(adder_bit(*g, base, cin@, input1@, input2@, k as int));
            assert forall|j: int| 0 <= j < k + 1 implies #[trigger] out@[j]@ == base + 5 * j + 1 by {
                if j < k { assert(out@[j] == prev[j]); }
            }
            assert forall|j: int| 0 <= j < k + 1 implies #[trigger] adder_bit(*g, base, cin@, input1@, input2@, j) by {
                if j < k {
                    assert(adder_bit(g0, base, cin@, input1@, input2@, j));
                    let y = base + 5 * j;
                    assert(g.ty(y) == g0.ty(y) && g.deps(y) == g0.deps(y)) by { lemma_kept(&g0, &g1, &g2, &g3, &g4, g, y); }
                    assert(g.ty(y + 1) == g0.ty(y + 1) && g.deps(y + 1) == g0.deps(y + 1)) by { lemma_kept(&g0, &g1, &g2, &g3, &g4, g, y + 1); }
                    assert(g.ty(y + 2) == g0.ty(y + 2) && g.deps(y + 2) == g0.deps(y + 2)) by { lemma_kept(&g0, &g1, &g2, &g3, &g4, g, y + 2); }
                    assert(g.ty(y + 3) == g0.ty(y + 3) && g.deps(y + 3) == g0.deps(y + 3)) by { lemma_kept(&g0, &g1, &g2, &g3, &g4, g, y + 3); }
                    assert(g.ty(y + 4) == g0.ty(y + 4) && g.deps(y + 4) == g0.deps(y + 4)) by { lemma_kept(&g0, &g1, &g2, &g3, &g4, g, y + 4); }
                }
            }
            assert forall|j: int| 0 <= j < base implies #[trigger] g.deps(j) == old(g).deps(j) by {
                lemma_kept(&g0, &g1, &g2, &g3, &g4, g, j);
            }
        }
        k = k + 1;
    }
    out
}

/// The gates of bit `k` of an adder stay while they keep their types and dependencies.
pub proof fn lemma_adder_bit_kept(a: GateGraphBuilder, b: GateGraphBuilder, base: int, cin: usize, x: Seq<GateIndex>, y: Seq<GateIndex>, k: int)
    requires
        adder_bit(b, base, cin, x, y, k),
        forall|j: int| base + 5 * k <= j < base + 5 * k + 5 ==> #[trigger] a.deps(j) == b.deps(j) && a.ty(j) == b.ty(j),
    ensures
        adder_bit(a, base, cin, x, y, k),
{
    let z = base + 5 * k;
    assert(a.deps(z) === b.deps(z));
    assert(a.ty(z) == b.ty(z));
    assert(a.deps(z + 1) === b.deps(z + 1));
    assert(a.ty(z + 1) == b.ty(z + 1));
    assert(a.deps(z + 2) === b.deps(z + 2));
    assert(a.ty(z + 2) == b.ty(z + 2));
    assert(a.deps(z + 3) === b.deps(z + 3));
    assert(a.ty(z + 3) == b.ty(z + 3));
    assert(a.deps(z + 4) === b.deps(z + 4));
    assert(a.ty(z + 4) == b.ty(z + 4));
}

/// Adding five gates one after the other leaves the gates that were there before as they were.
proof fn lemma_kept(
    g0: &GateGraphBuilder,
    g1: &GateGraphBuilder,
    g2: &GateGraphBuilder,
    g3: &GateGraphBuilder,
    g4: &GateGraphBuilder,
    g5: &GateGraphBuilder,
    j: int,
)
    requires
        0 <= j < g0.num_slots(),
        g1.adds_gate(g0, g0.num_slots() as int, g1.ty(g0.num_slots() as int), g1.deps(g0.num_slots() as int)),
        g2.adds_gate(g1, g1.num_slots() as int, g2.ty(g1.num_slots() as int), g2.deps(g1.num_slots() as int)),
        g3.adds_gate(g2, g2.num_slots() as int, g3.ty(g2.num_slots() as int), g3.deps(g2.num_slots() as int)),
        g4.adds_gate(g3, g3.num_slots() as int, g4.ty(g3.num_slots() as int), g4.deps(g3.num_slots() as int)),
        g5.adds_gate(g4, g4.num_slots() as int, g5.ty(g4.num_slots() as int), g5.deps(g4.num_slots() as int)),
    ensures
        g5.ty(j) == g0.ty(j),
        g5.deps(j) == g0.deps(j),
{
    assert(g1.ty(j) == g0.ty(j));
    assert(g2.ty(j) == g1.ty(j));
    assert(g3.ty(j) == g2.ty(j));
    assert(g4.ty(j) == g3.ty(j));
    assert(g5.ty(j) == g4.ty(j));
}

} // verus!
