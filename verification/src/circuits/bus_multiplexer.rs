use crate::circuits::decoder::{decoder, line_deps};
use crate::graph::gate::{GateIndex, GateType};
use crate::graph::graph_builder::GateGraphBuilder;
use vstd::arithmetic::power2::pow2;
use vstd::prelude::*;

verus! {

/// The width of the widest of `inputs`, 0 if there are none.
pub open spec fn widest(inputs: Seq<Seq<GateIndex>>) -> nat
    decreases inputs.len(),
{
    if inputs.len() == 0 {
        0
    } else {
        let w = widest(inputs.drop_last());
        if inputs.last().len() > w { inputs.last().len() } else { w }
    }
}

/// The gates of each of `inputs`.
pub open spec fn views(inputs: Seq<&[GateIndex]>) -> Seq<Seq<GateIndex>> {
    inputs.map_values(|i: &[GateIndex]| i@)
}

/// Every input is at most as wide as the widest.
pub proof fn lemma_widest_bound(inputs: Seq<Seq<GateIndex>>, i: int)
    requires
        0 <= i < inputs.len(),
    ensures
        inputs[i].len() <= widest(inputs),
    decreases inputs.len(),
{
    if i < inputs.len() - 1 {
        lemma_widest_bound(inputs.drop_last(), i);
        assert(inputs.drop_last()[i] == inputs[i]);
    }
}

/// The number of bits of the first `i` inputs.
pub open spec fn bits_before(inputs: Seq<Seq<GateIndex>>, i: int) -> int
    decreases i,
{
    if i <= 0 {
        0
    } else {
        bits_before(inputs, i - 1) + inputs[i - 1].len()
    }
}

/// The number of bits of the inputs grows with the number of inputs counted.
pub proof fn lemma_bits_before_mono(inputs: Seq<Seq<GateIndex>>, i: int, j: int)
    requires
        0 <= i <= j,
    ensures
        0 <= bits_before(inputs, i) <= bits_before(inputs, j),
    decreases j,
{
    if i < j {
        lemma_bits_before_mono(inputs, i, j - 1);
    } else if i > 0 {
        lemma_bits_before_mono(inputs, i - 1, i - 1);
    }
}

/// The dependencies of output bit `k` once the first `i` inputs are wired, the `And` gates of
/// the inputs starting at `ands`: for each of those inputs that has a bit `k`, its `And` gate.
pub open spec fn mux_bit_deps(inputs: Seq<Seq<GateIndex>>, ands: int, k: int, i: int) -> Seq<usize>
    decreases i,
{
    if i <= 0 {
        Seq::empty()
    } else {
        let r = mux_bit_deps(inputs, ands, k, i - 1);
        if k < inputs[i - 1].len() {
            r.push((ands + bits_before(inputs, i - 1) + k) as usize)
        } else {
            r
        }
    }
}

/// True if bit `k` of input `i` has its `And` gate in `g`: it reads the bit and decoder line
/// `lines + i`.
pub open spec fn mux_and_wiring(g: GateGraphBuilder, inputs: Seq<Seq<GateIndex>>, ands: int, lines: int, i: int, k: int) -> bool {
    let x = ands + bits_before(inputs, i) + k;
    &&& g.ty(x) is And
    &&& g.deps(x) == seq![inputs[i][k]@, (lines + i) as usize]
}

/// The number of gates of a bus multiplexer of `inputs` with `address_bits` address bits.
pub open spec fn mux_len(address_bits: nat, inputs: Seq<Seq<GateIndex>>) -> int {
    widest(inputs) + address_bits + pow2(address_bits) + bits_before(inputs, inputs.len() as int)
}

/// True if the gates from `n` on in `g` are a bus multiplexer of `inputs` by `address`: the
/// output `Or` gates, the decoder of `address`, then the `And` gates, input by input and bit
/// by bit; output bit `k` reads the `And` gate of bit `k` of every input that has one.
pub open spec fn mux_wiring(g: GateGraphBuilder, n: int, address: Seq<GateIndex>, inputs: Seq<Seq<GateIndex>>) -> bool {
    let w = widest(inputs) as int;
    let lines = n + w + address.len();
    let ands = lines + pow2(address.len() as nat);
    &&& forall|k: int| 0 <= k < w ==> #[trigger] g.ty(n + k) is Or
        && g.deps(n + k) == mux_bit_deps(inputs, ands, k, inputs.len() as int)
    &&& forall|j: int| 0 <= j < address.len() ==> #[trigger] g.ty(n + w + j) is Not
        && g.deps(n + w + j) == seq![address[j]@]
    &&& forall|c: int| 0 <= c < pow2(address.len() as nat) ==> #[trigger] g.ty(lines + c) is And
        && g.deps(lines + c) == line_deps(address, n + w, c as nat, address.len() as nat)
    &&& forall|i: int, k: int| 0 <= i < inputs.len() && 0 <= k < inputs[i].len()
        ==> #[trigger] mux_and_wiring(g, inputs, ands, lines, i, k)
}

/// The wiring of a bus multiplexer stays while its gates keep their types and dependencies.
pub proof fn lemma_mux_wiring_kept(a: GateGraphBuilder, b: GateGraphBuilder, n: int, address: Seq<GateIndex>, inputs: Seq<Seq<GateIndex>>)
    requires
        mux_wiring(b, n, address, inputs),
        forall|j: int| n <= j < n + mux_len(address.len(), inputs) ==> #[trigger] a.deps(j) == b.deps(j) && a.ty(j) == b.ty(j),
    ensures
        mux_wiring(a, n, address, inputs),
{
    let w = widest(inputs) as int;
    let lines = n + w + address.len();
    let ands = lines + pow2(address.len() as nat);
    assert forall|k: int| 0 <= k < w implies #[trigger] a.ty(n + k) is Or
        && a.deps(n + k) == mux_bit_deps(inputs, ands, k, inputs.len() as int) by {
        lemma_bits_before_mono(inputs, 0, inputs.len() as int);
        assert(a.deps(n + k) === b.deps(n + k));
        assert(a.ty(n + k) == b.ty(n + k));
    }
    assert forall|j: int| 0 <= j < address.len() implies #[trigger] a.ty(n + w + j) is Not
        && a.deps(n + w + j) == seq![address[j]@] by {
        lemma_bits_before_mono(inputs, 0, inputs.len() as int);
        assert(a.deps(n + w + j) === b.deps(n + w + j));
        assert(a.ty(n + w + j) == b.ty(n + w + j));
    }
    assert forall|c: int| 0 <= c < pow2(address.len() as nat) implies #[trigger] a.ty(lines + c) is And
        && a.deps(lines + c) == line_deps(address, n + w, c as nat, address.len() as nat) by {
        lemma_bits_before_mono(inputs, 0, inputs.len() as int);
        assert(a.deps(lines + c) === b.deps(lines + c));
        assert(a.ty(lines + c) == b.ty(lines + c));
    }
    assert forall|i: int, k: int| 0 <= i < inputs.len() && 0 <= k < inputs[i].len()
        implies #[trigger] mux_and_wiring(a, inputs, ands, lines, i, k) by {
        assert(mux_and_wiring(b, inputs, ands, lines, i, k));
        lemma_bits_before_mono(inputs, 0, i);
        lemma_bits_before_mono(inputs, i + 1, inputs.len() as int);
        let x = ands + bits_before(inputs, i) + k;
        assert(a.deps(x) === b.deps(x));
        assert(a.ty(x) == b.ty(x));
    }
}

/// Returns the output of the input that `address` selects, as wide as the widest input: bit
/// `k` is an `Or` gate that reads, for each input `i` with a bit `k`, the `And` of that bit and
/// decoder line `i`. Addresses past the inputs select nothing (`OFF`).
///
/// The gates come in this order: the output `Or` gates, the decoder of `address`, then the
/// `And` gates, input by input and bit by bit.
#[verifier::spinoff_prover]
pub fn bus_multiplexer(
    g: &mut GateGraphBuilder,
    address: &[GateIndex],
    inputs: &[&[GateIndex]],
    name: &str,
) -> (out: Vec<GateIndex>)
    requires
        old(g).wf(),
        old(g).all_in(address@),
        forall|i: int| 0 <= i < inputs@.len() ==> old(g).all_in(#[trigger] inputs@[i]@),
        address@.len() < usize::BITS,
        pow2(address@.len() as nat) >= inputs@.len(),
    ensures
        final(g).grows_from(old(g)),
        final(g).levers() == old(g).levers(),
        final(g).keeps_deps(old(g)),
        final(g).num_slots() == old(g).num_slots() + mux_len(address@.len(), views(inputs@)),
        out@.len() == widest(views(inputs@)),
        final(g).all_in(out@),
        forall|k: int| 0 <= k < out@.len() ==> #[trigger] out@[k]@ == old(g).num_slots() + k,
        forall|k: int| 0 <= k < out@.len() ==> #[trigger] final(g).ty(out@[k]@ as int) is Or,
        mux_wiring(*final(g), old(g).num_slots() as int, address@, views(inputs@)),
{
    let ghost v = views(inputs@);
    let mut width: usize = 0;
    let mut i: usize = 0;
    while i < inputs.len()
        invariant
            i <= inputs@.len(),
            width == widest(views(inputs@).subrange(0, i as int)),
        decreases inputs@.len() - i,
    {
        proof {
            assert(views(inputs@).subrange(0, i + 1).drop_last() =~= views(inputs@).subrange(0, i as int));
        }
        if inputs[i].len() > width {
            width = inputs[i].len();
        }
        i = i + 1;
    }
    proof {
        assert(views(inputs@).subrange(0, inputs@.len() as int) =~= views(inputs@));
        g.lemma_grows_refl();
    }
    let ghost n0 = old(g).num_slots() as int;
    let mut out: Vec<GateIndex> = Vec::new();
    let mut k: usize = 0;
    while k < width
        invariant
            g.grows_from(old(g)),
            g.levers() == old(g).levers(),
            g.keeps_deps(old(g)),
            n0 == old(g).num_slots(),
            k <= width,
            g.num_slots() == n0 + k,
            out@.len() == k,
            forall|j: int| 0 <= j < k ==> #[trigger] out@[j]@ == n0 + j,
            forall|j: int| 0 <= j < k ==> #[trigger] g.ty(n0 + j) is Or && g.deps(n0 + j) == Seq::<usize>::empty(),
        decreases width - k,
    {
        let ghost before = *g;
        let ghost prev = out@;
        let b = g.or(name);
        out.push(b);
        proof {
            GateGraphBuilder::lemma_grows_trans(old(g), &before, g);
            assert forall|j: int| 0 <= j < k + 1 implies #[trigger] out@[j]@ == n0 + j by {
                if j < k { assert(out@[j] == prev[j]); }
            }
            assert forall|j: int| 0 <= j < k + 1 implies #[trigger] g.ty(n0 + j) is Or && g.deps(n0 + j) == Seq::<usize>::empty() by {
                if j < k { assert(g.ty(n0 + j) == before.ty(n0 + j)); }
            }
            assert forall|j: int| 0 <= j < n0 implies #[trigger] g.deps(j) == old(g).deps(j) by {
                assert(g.ty(j) == before.ty(j));
            }
        }
        k = k + 1;
    }
    let ghost w = width as int;
    let ghost g1 = *g;
    let decoded = decoder(g, address, name);
    let ghost lines = n0 + w + address@.len();
    let ghost count = pow2(address@.len() as nat);
    let ghost ands = lines + count;
    proof {
        GateGraphBuilder::lemma_grows_trans(old(g), &g1, g);
        assert forall|j: int| 0 <= j < w implies #[trigger] g.ty(n0 + j) is Or && g.deps(n0 + j) == mux_bit_deps(v, ands, j, 0) by {
            assert(g.deps(n0 + j) == g1.deps(n0 + j));
        }
        assert forall|j: int| 0 <= j < n0 implies #[trigger] g.deps(j) == old(g).deps(j) by {
            assert(g.deps(j) == g1.deps(j));
        }
        assert forall|j: int| 0 <= j < decoded@.len() implies #[trigger] decoded@[j]@ < g.num_slots() by {
            assert(decoded@[j]@ == lines + j);
        }
        assert forall|c: int| 0 <= c < count implies #[trigger] g.ty(lines + c) is And
            && g.deps(lines + c) == line_deps(address@, n0 + w, c as nat, address@.len() as nat) by {
            assert(decoded@[c]@ == lines + c);
            assert(g.ty(decoded@[c]@ as int) is And);
        }
    }
    let n = if decoded.len() < inputs.len() { decoded.len() } else { inputs.len() };
    let mut i: usize = 0;
    while i < n
        invariant
            g.grows_from(old(g)),
            g.levers() == old(g).levers(),
            g.keeps_deps(old(g)),
            n0 == old(g).num_slots(),
            v == views(inputs@),
            w == widest(v),
            lines == n0 + w + address@.len(),
            count == pow2(address@.len() as nat),
            ands == lines + count,
            n == inputs@.len(),
            n <= decoded@.len(),
            decoded@.len() == count,
            forall|c: int| 0 <= c < count ==> #[trigger] decoded@[c]@ == lines + c,
            out@.len() == w,
            forall|j: int| 0 <= j < w ==> #[trigger] out@[j]@ == n0 + j,
            forall|i: int| 0 <= i < inputs@.len() ==> old(g).all_in(#[trigger] inputs@[i]@),
            i <= n,
            g.num_slots() == ands + bits_before(v, i as int),
            forall|j: int| 0 <= j < w ==> #[trigger] g.ty(n0 + j) is Or && g.deps(n0 + j) == mux_bit_deps(v, ands, j, i as int),
            forall|j: int| 0 <= j < address@.len() ==> #[trigger] g.ty(n0 + w + j) is Not && g.deps(n0 + w + j) == seq![address@[j]@],
            forall|c: int| 0 <= c < count ==> #[trigger] g.ty(lines + c) is And
                && g.deps(lines + c) == line_deps(address@, n0 + w, c as nat, address@.len() as nat),
            forall|i2: int, k2: int| 0 <= i2 < i && 0 <= k2 < v[i2].len() ==> #[trigger] mux_and_wiring(*g, v, ands, lines, i2, k2),
        decreases n - i,
    {
        let input = inputs[i];
        let enabled = decoded[i];
        proof {
            lemma_widest_bound(v, i as int);
            assert(v[i as int] == input@);
            lemma_bits_before_mono(v, 0, i as int);
        }
        let m = if input.len() < out.len() { input.len() } else { out.len() };
        let ghost start = g.num_slots() as int;
        let mut k: usize = 0;
        while k < m
            invariant
                g.grows_from(old(g)),
                g.levers() == old(g).levers(),
                g.keeps_deps(old(g)),
                n0 == old(g).num_slots(),
                v == views(inputs@),
                v[i as int] == input@,
                i < n,
                w == widest(v),
                lines == n0 + w + address@.len(),
                count == pow2(address@.len() as nat),
                ands == lines + count,
                n == inputs@.len(),
                n <= decoded@.len(),
                m == input@.len(),
                m <= w,
                old(g).all_in(input@),
                enabled@ == lines + i,
                i < count,
                out@.len() == w,
                forall|j: int| 0 <= j < w ==> #[trigger] out@[j]@ == n0 + j,
                start == ands + bits_before(v, i as int),
                ands <= start,
                k <= m,
                g.num_slots() == start + k,
                forall|j: int| 0 <= j < k ==> #[trigger] g.ty(n0 + j) is Or && g.deps(n0 + j) == mux_bit_deps(v, ands, j, i + 1),
                forall|j: int| k <= j < w ==> #[trigger] g.ty(n0 + j) is Or && g.deps(n0 + j) == mux_bit_deps(v, ands, j, i as int),
                forall|j: int| 0 <= j < address@.len() ==> #[trigger] g.ty(n0 + w + j) is Not && g.deps(n0 + w + j) == seq![address@[j]@],
                forall|c: int| 0 <= c < count ==> #[trigger] g.ty(lines + c) is And
                    && g.deps(lines + c) == line_deps(address@, n0 + w, c as nat, address@.len() as nat),
                forall|i2: int, k2: int| 0 <= i2 < i && 0 <= k2 < v[i2].len() ==> #[trigger] mux_and_wiring(*g, v, ands, lines, i2, k2),
                forall|k2: int| 0 <= k2 < k ==> #[trigger] mux_and_wiring(*g, v, ands, lines, i as int, k2),
            decreases m - k,
        {
            let ghost h0 = *g;
            let and = g.and2(input[k], enabled, name);
            let ghost h1 = *g;
            proof {
                assert(h1.ty(n0 + k) == h0.ty(n0 + k));
            }
            g.dpush(out[k], and);
            proof {
                GateGraphBuilder::lemma_grows_trans(&h0, &h1, g);
                GateGraphBuilder::lemma_grows_trans(old(g), &h0, g);
                let t = n0 + k;
                assert(mux_bit_deps(v, ands, k as int, i + 1) == mux_bit_deps(v, ands, k as int, i as int).push(and@));
                assert forall|j: int| 0 <= j < h0.num_slots() && j != t implies #[trigger] g.deps(j) == h0.deps(j) && g.ty(j) == h0.ty(j) by {
                    assert(h1.ty(j) == h0.ty(j));
                    assert(g.ty(j) == h1.ty(j));
                }
                assert forall|j: int| 0 <= j < n0 implies #[trigger] g.deps(j) == old(g).deps(j) by {
                    assert(g.deps(j) == h0.deps(j) && g.ty(j) == h0.ty(j));
                }
                assert forall|j: int| 0 <= j < k + 1 implies #[trigger] g.ty(n0 + j) is Or && g.deps(n0 + j) == mux_bit_deps(v, ands, j, i + 1) by {
                    if j < k {
                        assert(g.deps(n0 + j) == h0.deps(n0 + j) && g.ty(n0 + j) == h0.ty(n0 + j));
                    } else {
                        assert(g.ty(n0 + j) == h1.ty(n0 + j));
                    }
                }
                assert forall|j: int| k + 1 <= j < w implies #[trigger] g.ty(n0 + j) is Or && g.deps(n0 + j) == mux_bit_deps(v, ands, j, i as int) by {
                    assert(g.deps(n0 + j) == h0.deps(n0 + j) && g.ty(n0 + j) == h0.ty(n0 + j));
                }
                assert forall|j: int| 0 <= j < address@.len() implies #[trigger] g.ty(n0 + w + j) is Not && g.deps(n0 + w + j) == seq![address@[j]@] by {
                    assert(g.deps(n0 + w + j) == h0.deps(n0 + w + j) && g.ty(n0 + w + j) == h0.ty(n0 + w + j));
                }
                assert forall|c: int| 0 <= c < count implies #[trigger] g.ty(lines + c) is And
                    && g.deps(lines + c) == line_deps(address@, n0 + w, c as nat, address@.len() as nat) by {
                    assert(g.deps(lines + c) == h0.deps(lines + c) && g.ty(lines + c) == h0.ty(lines + c));
                }
                assert forall|i2: int, k2: int| 0 <= i2 < i && 0 <= k2 < v[i2].len() implies #[trigger] mux_and_wiring(*g, v, ands, lines, i2, k2) by {
                    assert(mux_and_wiring(h0, v, ands, lines, i2, k2));
                    lemma_bits_before_mono(v, i2 + 1, i as int);
                    lemma_bits_before_mono(v, 0, i2);
                    let x = ands + bits_before(v, i2) + k2;
                    assert(g.deps(x) == h0.deps(x) && g.ty(x) == h0.ty(x));
                }
                assert forall|k2: int| 0 <= k2 < k + 1 implies #[trigger] mux_and_wiring(*g, v, ands, lines, i as int, k2) by {
                    let x = ands + bits_before(v, i as int) + k2;
                    if k2 < k {
                        assert(mux_and_wiring(h0, v, ands, lines, i as int, k2));
                        assert(g.deps(x) == h0.deps(x) && g.ty(x) == h0.ty(x));
                    } else {
                        assert(g.ty(x) == h1.ty(x));
                        assert(g.deps(x) == h1.deps(x));
                        assert(v[i as int][k2] == input@[k2]);
                    }
                }
            }
            k = k + 1;
        }
        proof {
            assert forall|j: int| k <= j < w implies #[trigger] g.ty(n0 + j) is Or && g.deps(n0 + j) == mux_bit_deps(v, ands, j, i + 1) by {
                assert(g.ty(n0 + j) is Or && g.deps(n0 + j) == mux_bit_deps(v, ands, j, i as int));
            }
            assert forall|j: int| 0 <= j < w implies #[trigger] g.ty(n0 + j) is Or && g.deps(n0 + j) == mux_bit_deps(v, ands, j, i + 1) by {
                if j < k {
                    assert(g.ty(n0 + j) is Or && g.deps(n0 + j) == mux_bit_deps(v, ands, j, i + 1));
                } else {
                    assert(g.ty(n0 + j) is Or && g.deps(n0 + j) == mux_bit_deps(v, ands, j, i as int));
                }
            }
            assert forall|i2: int, k2: int| 0 <= i2 < i + 1 && 0 <= k2 < v[i2].len() implies #[trigger] mux_and_wiring(*g, v, ands, lines, i2, k2) by {
                if i2 == i {
                    assert(mux_and_wiring(*g, v, ands, lines, i as int, k2));
                }
            }
        }
        i = i + 1;
    }
    proof {
        assert forall|j: int| 0 <= j < out@.len() implies #[trigger] out@[j]@ < g.num_slots() by {
            assert(out@[j]@ == n0 + j);
            lemma_bits_before_mono(v, 0, n as int);
        }
    }
    out
}

} // verus!
