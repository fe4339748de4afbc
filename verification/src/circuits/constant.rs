use crate::data_structures::bit_iter::{byte_bit, bytes_bits, le_bytes, BitIter, ToBytes};
use crate::graph::initialized_graph::{bit_weight, bits_value, InitializedGateGraph};
use crate::graph::gate::{off, on, GateIndex};
use vstd::prelude::*;

verus! {

/// `n` times the OFF constant.
pub open spec fn off_run(n: nat) -> Seq<GateIndex> {
    Seq::new(n, |k: int| GateIndex { idx: 0 })
}

/// The constant gate that holds `b`: `ON` (1) for true, `OFF` (0) for false.
pub open spec fn bit_gate(b: bool) -> usize {
    if b { 1 } else { 0 }
}

/// Returns a [Vec] of `ON` or `OFF` gates holding the bits of `value`, the least significant
/// bit of its first byte first.
pub fn constant<T: ToBytes>(value: T) -> (out: Vec<GateIndex>)
    requires
        value.spec_bytes().len() * 8 <= u16::MAX,
    ensures
        out@.len() == bytes_bits(value.spec_bytes()).len(),
        forall|k: int| 0 <= k < out@.len() ==> #[trigger] out@[k]@ == bit_gate(bytes_bits(value.spec_bytes())[k]),
{
    let mut iter = BitIter::new(value);
    let bits = iter.collect_bits();
    let mut out: Vec<GateIndex> = Vec::new();
    let mut k: usize = 0;
    while k < bits.len()
        invariant
            k <= bits@.len(),
            out@.len() == k,
            forall|j: int| 0 <= j < k ==> #[trigger] out@[j]@ == bit_gate(bits@[j]),
        decreases bits@.len() - k,
    {
        if bits[k] {
            out.push(on());
        } else {
            out.push(off());
        }
        k = k + 1;
    }
    out
}

/// Returns a [Vec] of `n` copies of `OFF`.
pub fn zeros(n: usize) -> (out: Vec<GateIndex>)
    ensures
        out@.len() == n,
        forall|k: int| 0 <= k < n ==> #[trigger] out@[k]@ == 0,
        out@ == off_run(n as nat),
{
    let mut out: Vec<GateIndex> = Vec::new();
    let mut k: usize = 0;
    while k < n
        invariant
            k <= n,
            out@.len() == k,
            forall|j: int| 0 <= j < k ==> #[trigger] out@[j]@ == 0,
        decreases n - k,
    {
        out.push(off());
        k = k + 1;
    }
    proof {
        assert forall|k: int| 0 <= k < n implies out@[k] == off_run(n as nat)[k] by {
            assert(out@[k]@ == 0);
        }
        assert(out@ =~= off_run(n as nat));
    }
    out
}

/// Returns a [Vec] of `n` copies of `ON`.
pub fn ones(n: usize) -> (out: Vec<GateIndex>)
    ensures
        out@.len() == n,
        forall|k: int| 0 <= k < n ==> #[trigger] out@[k]@ == 1,
{
    let mut out: Vec<GateIndex> = Vec::new();
    let mut k: usize = 0;
    while k < n
        invariant
            k <= n,
            out@.len() == k,
            forall|j: int| 0 <= j < k ==> #[trigger] out@[j]@ == 1,
        decreases n - k,
    {
        out.push(on());
        k = k + 1;
    }
    out
}

/// The bits of a byte, least significant first, make the byte again.
pub proof fn lemma_byte_bits_value(b: u8)
    ensures
        bits_value(bytes_bits(seq![b])) == b,
{
    let s = bytes_bits(seq![b]);
    assert(s.len() == 8);
    let w = |k: int| if s[k] { bit_weight(k as nat) } else { 0 };
    assert(bit_weight(0) == 1);
    assert(bit_weight(1) == 2);
    assert(bit_weight(2) == 4);
    assert(bit_weight(3) == 8);
    assert(bit_weight(4) == 16);
    assert(bit_weight(5) == 32);
    assert(bit_weight(6) == 64);
    assert(bit_weight(7) == 128);
    assert(s.subrange(0, 0) =~= Seq::<bool>::empty());
    assert(s.subrange(0, 1).drop_last() =~= s.subrange(0, 0));
    assert(bits_value(s.subrange(0, 0)) == 0);
    assert(s.subrange(0, 1).last() == s[0]);
    assert(s.subrange(0, 2).drop_last() =~= s.subrange(0, 1));
    assert(s.subrange(0, 3).drop_last() =~= s.subrange(0, 2));
    assert(s.subrange(0, 4).drop_last() =~= s.subrange(0, 3));
    assert(s.subrange(0, 5).drop_last() =~= s.subrange(0, 4));
    assert(s.subrange(0, 6).drop_last() =~= s.subrange(0, 5));
    assert(s.subrange(0, 7).drop_last() =~= s.subrange(0, 6));
    assert(s.drop_last() =~= s.subrange(0, 7));
    assert(bits_value(s.subrange(0, 1)) == w(0));
    assert(bits_value(s.subrange(0, 2)) == w(0) + w(1));
    assert(bits_value(s.subrange(0, 3)) == w(0) + w(1) + w(2));
    assert(bits_value(s.subrange(0, 4)) == w(0) + w(1) + w(2) + w(3));
    assert(bits_value(s.subrange(0, 5)) == w(0) + w(1) + w(2) + w(3) + w(4));
    assert(bits_value(s.subrange(0, 6)) == w(0) + w(1) + w(2) + w(3) + w(4) + w(5));
    assert(bits_value(s.subrange(0, 7)) == w(0) + w(1) + w(2) + w(3) + w(4) + w(5) + w(6));
    assert(bits_value(s) == w(0) + w(1) + w(2) + w(3) + w(4) + w(5) + w(6) + w(7));
    assert(s[0] == byte_bit(b, 0) && s[1] == byte_bit(b, 1) && s[2] == byte_bit(b, 2) && s[3] == byte_bit(b, 3));
    assert(s[4] == byte_bit(b, 4) && s[5] == byte_bit(b, 5) && s[6] == byte_bit(b, 6) && s[7] == byte_bit(b, 7));
    assert(b as int == (if b & 1 != 0 { 1int } else { 0 }) + (if b & 2 != 0 { 2int } else { 0 })
        + (if b & 4 != 0 { 4int } else { 0 }) + (if b & 8 != 0 { 8int } else { 0 })
        + (if b & 16 != 0 { 16int } else { 0 }) + (if b & 32 != 0 { 32int } else { 0 })
        + (if b & 64 != 0 { 64int } else { 0 }) + (if b & 128 != 0 { 128int } else { 0 })) by (bit_vector);
    assert(byte_bit(b, 0) == (b & 1 != 0)) by (bit_vector);
    assert(byte_bit(b, 1) == (b & 2 != 0)) by (bit_vector);
    assert(byte_bit(b, 2) == (b & 4 != 0)) by (bit_vector);
    assert(byte_bit(b, 3) == (b & 8 != 0)) by (bit_vector);
    assert(byte_bit(b, 4) == (b & 16 != 0)) by (bit_vector);
    assert(byte_bit(b, 5) == (b & 32 != 0)) by (bit_vector);
    assert(byte_bit(b, 6) == (b & 64 != 0)) by (bit_vector);
    assert(byte_bit(b, 7) == (b & 128 != 0)) by (bit_vector);
}

/// An output made of the gates that [constant] gives for a byte reads, as a `u8`, that byte,
/// in every well formed graph.
pub proof fn law_constant_reads_back(g: &InitializedGateGraph, bits: Seq<GateIndex>, v: u8)
    requires
        g.wf(),
        bits.len() == bytes_bits(v.spec_bytes()).len(),
        forall|k: int| 0 <= k < bits.len() ==> #[trigger] bits[k]@ == bit_gate(bytes_bits(v.spec_bytes())[k]),
    ensures
        g.word_value(bits, 8) == v,
{
    g.law_constants();
    assert(v.spec_bytes() =~= seq![v]) by {
        assert(le_bytes((v as nat) / 256, 0) =~= Seq::<u8>::empty());
        assert((v as nat) % 256 == v);
    }
    let s = bytes_bits(seq![v]);
    assert(g.states_of(bits).subrange(0, 8) =~= s) by {
        assert forall|k: int| 0 <= k < 8 implies g.states_of(bits).subrange(0, 8)[k] == s[k] by {
            assert(bits[k]@ == bit_gate(s[k]));
        }
    }
    lemma_byte_bits_value(v);
}

} // verus!
