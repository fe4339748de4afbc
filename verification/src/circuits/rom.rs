use crate::circuits::constant::{bit_gate, constant};
use crate::circuits::decoder::{decoder, line_deps};
use crate::data_structures::bit_iter::{bytes_bits, BitIter, ToBytes};
use crate::graph::gate::{GateIndex, GateType};
use crate::graph::graph_builder::GateGraphBuilder;
use vstd::arithmetic::power2::pow2;
use vstd::prelude::*;

verus! {

/// True if every byte of `bytes` is 0.
pub open spec fn all_zero(bytes: Seq<u8>) -> bool {
    forall|k: int| 0 <= k < bytes.len() ==> bytes[k] == 0
}

/// The number of words among the first `w` of `words` that are not 0.
pub open spec fn nonzero_before(words: Seq<Seq<u8>>, w: int) -> int
    decreases w,
{
    if w <= 0 {
        0
    } else {
        nonzero_before(words, w - 1) + if all_zero(words[w - 1]) { 0int } else { 1int }
    }
}

/// Counting the words that are not 0 grows with the number of words counted.
pub proof fn lemma_nonzero_before_mono(words: Seq<Seq<u8>>, v: int, w: int)
    requires
        0 <= v <= w,
    ensures
        0 <= nonzero_before(words, v) <= nonzero_before(words, w),
    decreases w,
{
    if v < w {
        lemma_nonzero_before_mono(words, v, w - 1);
    } else if v > 0 {
        lemma_nonzero_before_mono(words, v - 1, v - 1);
    }
}

/// The dependencies of bit `k` of the word read from a ROM once the first `w` words are
/// wired: for each of those words that is not 0, its `And` gate of bit `k`, the gates of each
/// such word being `width` consecutive gates from `ands` on.
pub open spec fn rom_bit_deps(words: Seq<Seq<u8>>, ands: int, width: int, k: int, w: int) -> Seq<usize>
    decreases w,
{
    if w <= 0 {
        Seq::empty()
    } else {
        let r = rom_bit_deps(words, ands, width, k, w - 1);
        if all_zero(words[w - 1]) {
            r
        } else {
            r.push((ands + nonzero_before(words, w - 1) * width + k) as usize)
        }
    }
}

/// True if `g` holds the `And` gate of bit `k` of word `w` of a ROM: it reads decoder line
/// `lines + w` and the constant gate of bit `k` of the word.
pub open spec fn rom_and_wiring(g: GateGraphBuilder, words: Seq<Seq<u8>>, lines: int, ands: int, width: int, w: int, k: int) -> bool {
    let x = ands + nonzero_before(words, w) * width + k;
    &&& g.ty(x) is And
    &&& g.deps(x) == seq![(lines + w) as usize, bit_gate(bytes_bits(words[w])[k])]
}

/// Where the `Or` gates of a ROM start, its decoder of `address_bits` bits starting at `n`.
pub open spec fn rom_ors(n: int, address_bits: nat) -> int {
    n + address_bits + pow2(address_bits)
}

/// Where the output gates of a ROM of `words`, `width` bits wide, start.
pub open spec fn rom_outs(n: int, address_bits: nat, words: Seq<Seq<u8>>, width: int) -> int {
    rom_ors(n, address_bits) + width + nonzero_before(words, words.len() as int) * width
}

/// The bytes of each word of `data`.
pub open spec fn word_bytes<T: ToBytes>(data: Seq<T>) -> Seq<Seq<u8>> {
    data.map_values(|v: T| v.spec_bytes())
}

/// Where the `And` gates of word `w` of a ROM end, past those of an earlier word that is not
/// 0.
proof fn lemma_word_gates_before(words: Seq<Seq<u8>>, width: int, v: int, w: int, k: int)
    requires
        0 <= v < w,
        !all_zero(words[v]),
        0 <= k < width,
    ensures
        nonzero_before(words, v) * width + k < nonzero_before(words, w) * width,
        0 <= nonzero_before(words, v) * width,
{
    lemma_nonzero_before_mono(words, v + 1, w);
    lemma_nonzero_before_mono(words, 0, v);
    let a = nonzero_before(words, v);
    let b = nonzero_before(words, w);
    assert(a + 1 <= b);
    assert(a * width + k < b * width) by (nonlinear_arith)
        requires
            a + 1 <= b,
            0 <= k < width,
            0 <= a,
    ;
    assert(0 <= a * width) by (nonlinear_arith)
        requires
            0 <= a,
            0 <= width,
    ;
}

/// Returns the output of a piece of ROM holding the words of `data`, one per address, as wide
/// as a word: the word that `address` selects, each bit anded with `read`. Addresses past the
/// data hold 0.
///
/// The gates come in this order: the decoder of `address`, one `Or` gate per bit, the `And`
/// gates of each word that is not 0 (a word of zeros needs none), and one `And` gate per bit
/// that reads the `Or` gate and `read`.
#[verifier::rlimit(60)]
#[verifier::spinoff_prover]
pub fn rom<T: ToBytes>(g: &mut GateGraphBuilder, read: GateIndex, address: &[GateIndex], data: &[T], name: &str) -> (out: Vec<GateIndex>)
    requires
        old(g).wf(),
        read@ < old(g).num_slots(),
        old(g).all_in(address@),
        address@.len() < usize::BITS,
        pow2(address@.len() as nat) >= data@.len(),
    ensures
        final(g).grows_from(old(g)),
        final(g).levers() == old(g).levers(),
        forall|v: T| out@.len() == (#[trigger] v.spec_bytes()).len() * 8,
        final(g).all_in(out@),
        forall|k: int| 0 <= k < out@.len() ==> #[trigger] final(g).ty(out@[k]@ as int) is And
            && final(g).deps(out@[k]@ as int).len() == 2
            && final(g).deps(out@[k]@ as int)[1] == read@,
        final(g).keeps_deps(old(g)),
        final(g).num_slots() == rom_outs(old(g).num_slots() as int, address@.len(), word_bytes(data@), out@.len() as int) + out@.len(),
        forall|j: int| 0 <= j < address@.len() ==> #[trigger] final(g).ty(old(g).num_slots() + j) is Not
            && final(g).deps(old(g).num_slots() + j) == seq![address@[j]@],
        forall|c: int| 0 <= c < pow2(address@.len() as nat) ==> #[trigger] final(g).ty(old(g).num_slots() + address@.len() + c) is And
            && final(g).deps(old(g).num_slots() + address@.len() + c)
            == line_deps(address@, old(g).num_slots() as int, c as nat, address@.len() as nat),
        forall|k: int| 0 <= k < out@.len() ==> #[trigger] final(g).ty(rom_ors(old(g).num_slots() as int, address@.len()) + k) is Or
            && final(g).deps(rom_ors(old(g).num_slots() as int, address@.len()) + k) == rom_bit_deps(word_bytes(data@),
                rom_ors(old(g).num_slots() as int, address@.len()) + out@.len(), out@.len() as int, k, data@.len() as int),
        forall|w: int, k: int| 0 <= w < data@.len() && 0 <= k < out@.len() && !all_zero(word_bytes(data@)[w])
            ==> #[trigger] rom_and_wiring(*final(g), word_bytes(data@), (old(g).num_slots() + address@.len()) as int,
                rom_ors(old(g).num_slots() as int, address@.len()) + out@.len(), out@.len() as int, w, k),
        forall|k: int| 0 <= k < out@.len() ==> #[trigger] out@[k]@
            == rom_outs(old(g).num_slots() as int, address@.len(), word_bytes(data@), out@.len() as int) + k,
        forall|k: int| 0 <= k < out@.len() ==> #[trigger] final(g).deps(out@[k]@ as int)
            == seq![(rom_ors(old(g).num_slots() as int, address@.len()) + k) as usize, read@],
{
    proof {
        g.lemma_grows_refl();
        old(g).lemma_consts();
    }
    let word_length = T::byte_len() * 8;
    let ghost n0 = old(g).num_slots() as int;
    let ghost words = word_bytes(data@);
    let ghost width = word_length as int;
    let ghost g0 = *g;
    let decoded = decoder(g, address, name);
    let ghost lines = n0 + address@.len();
    let ghost count = pow2(address@.len() as nat);
    let ghost ors_at = lines + count;
    let ghost ands = ors_at + width;
    proof {
        assert forall|j: int| 0 <= j < decoded@.len() implies #[trigger] decoded@[j]@ < g.num_slots() by {
            assert(decoded@[j]@ == lines + j);
        }
        assert forall|c: int| 0 <= c < count implies #[trigger] g.ty(lines + c) is And
            && g.deps(lines + c) == line_deps(address@, n0, c as nat, address@.len() as nat) by {
            assert(decoded@[c]@ == lines + c);
            assert(g.ty(decoded@[c]@ as int) is And);
        }
    }
    let ghost g1 = *g;
    let mut ors: Vec<GateIndex> = Vec::new();
    let mut k: usize = 0;
    while k < word_length
        invariant
            g.grows_from(old(g)),
            g.grows_from(&g1),
            g.levers() == old(g).levers(),
            g.keeps_deps(&g1),
            g1.keeps_deps(old(g)),
            g1.all_in(decoded@),
            g1.num_slots() == ors_at,
            k <= word_length,
            ors@.len() == k,
            g.num_slots() == ors_at + k,
            forall|j: int| 0 <= j < k ==> #[trigger] ors@[j]@ == ors_at + j,
            forall|j: int| 0 <= j < k ==> #[trigger] g.ty(ors_at + j) is Or && g.deps(ors_at + j) == Seq::<usize>::empty(),
        decreases word_length - k,
    {
        let ghost before = *g;
        let ghost prev = ors@;
        let b = g.or(name);
        ors.push(b);
        proof {
            GateGraphBuilder::lemma_grows_trans(old(g), &before, g);
            GateGraphBuilder::lemma_grows_trans(&g1, &before, g);
            assert forall|j: int| 0 <= j < k + 1 implies #[trigger] ors@[j]@ == ors_at + j by {
                if j < k { assert(ors@[j] == prev[j]); }
            }
            assert forall|j: int| 0 <= j < k + 1 implies #[trigger] g.ty(ors_at + j) is Or && g.deps(ors_at + j) == Seq::<usize>::empty() by {
                if j < k { assert(g.ty(ors_at + j) == before.ty(ors_at + j)); }
            }
            assert forall|j: int| 0 <= j < g1.num_slots() implies #[trigger] g.deps(j) == g1.deps(j) by {
                assert(g.ty(j) == before.ty(j));
            }
        }
        k = k + 1;
    }
    proof {
        assert forall|j: int| 0 <= j < ors@.len() implies #[trigger] ors@[j]@ < g.num_slots() by {}
        assert forall|j: int| 0 <= j < n0 implies #[trigger] g.deps(j) == old(g).deps(j) by {
            assert(g.deps(j) == g1.deps(j));
        }
        assert forall|j: int| 0 <= j < address@.len() implies #[trigger] g.ty(n0 + j) is Not
            && g.deps(n0 + j) == seq![address@[j]@] by {
            assert(g.deps(n0 + j) == g1.deps(n0 + j));
        }
        assert forall|c: int| 0 <= c < count implies #[trigger] g.ty(lines + c) is And
            && g.deps(lines + c) == line_deps(address@, n0, c as nat, address@.len() as nat) by {
            assert(g.deps(lines + c) == g1.deps(lines + c));
        }
    }
    let n = if data.len() < decoded.len() { data.len() } else { decoded.len() };
    proof {
        assert(nonzero_before(words, 0) == 0);
        assert(0int * width == 0);
        assert forall|j: int| 0 <= j < width implies #[trigger] g.ty(ors_at + j) is Or
            && g.deps(ors_at + j) == rom_bit_deps(words, ands, width, j, 0) by {}
    }
    let mut w: usize = 0;
    while w < n
        invariant
            g.grows_from(old(g)),
            g.levers() == old(g).levers(),
            g.keeps_deps(old(g)),
            n0 == old(g).num_slots(),
            words == word_bytes(data@),
            width == word_length,
            lines == n0 + address@.len(),
            count == pow2(address@.len() as nat),
            ors_at == lines + count,
            ands == ors_at + width,
            n == data@.len(),
            n <= decoded@.len(),
            decoded@.len() == count,
            forall|c: int| 0 <= c < count ==> #[trigger] decoded@[c]@ == lines + c,
            ors@.len() == word_length,
            forall|j: int| 0 <= j < width ==> #[trigger] ors@[j]@ == ors_at + j,
            forall|v: T| (#[trigger] v.spec_bytes()).len() * 8 == word_length,
            word_length <= u16::MAX,
            w <= n,
            g.num_slots() == ands + nonzero_before(words, w as int) * width,
            forall|j: int| 0 <= j < width ==> #[trigger] g.ty(ors_at + j) is Or
                && g.deps(ors_at + j) == rom_bit_deps(words, ands, width, j, w as int),
            forall|j: int| 0 <= j < address@.len() ==> #[trigger] g.ty(n0 + j) is Not && g.deps(n0 + j) == seq![address@[j]@],
            forall|c: int| 0 <= c < count ==> #[trigger] g.ty(lines + c) is And
                && g.deps(lines + c) == line_deps(address@, n0, c as nat, address@.len() as nat),
            forall|w2: int, k2: int| 0 <= w2 < w && 0 <= k2 < width && !all_zero(words[w2])
                ==> #[trigger] rom_and_wiring(*g, words, lines, ands, width, w2, k2),
        decreases n - w,
    {
        let word = data[w];
        let d = decoded[w];
        assert(word.spec_bytes().len() * 8 == word_length);
        assert(words[w as int] == word.spec_bytes());
        proof {
            lemma_nonzero_before_mono(words, 0, w as int);
            assert(0 <= nonzero_before(words, w as int) * width) by (nonlinear_arith)
                requires
                    0 <= nonzero_before(words, w as int),
                    0 <= width,
            ;
        }
        let zero = BitIter::new(word).is_zero();
        if !zero {
            let bits = constant(word);
            let ghost start = g.num_slots() as int;
            proof {
                assert(g.all_in(bits@)) by {
                    g.lemma_consts();
                }
            }
            let mut b: usize = 0;
            while b < ors.len()
                invariant
                    g.grows_from(old(g)),
                    g.levers() == old(g).levers(),
                    g.keeps_deps(old(g)),
                    n0 == old(g).num_slots(),
                    words == word_bytes(data@),
                    words[w as int] == word.spec_bytes(),
                    !all_zero(words[w as int]),
                    width == word_length,
                    lines == n0 + address@.len(),
                    count == pow2(address@.len() as nat),
                    ors_at == lines + count,
                    ands == ors_at + width,
                    w < n,
                    n == data@.len(),
                    d@ == lines + w,
                    w < count,
                    ors@.len() == word_length,
                    forall|j: int| 0 <= j < width ==> #[trigger] ors@[j]@ == ors_at + j,
                    bits@.len() == width,
                    forall|j: int| 0 <= j < bits@.len() ==> #[trigger] bits@[j]@ == bit_gate(bytes_bits(word.spec_bytes())[j]),
                    g.all_in(bits@),
                    start == ands + nonzero_before(words, w as int) * width,
                    ands <= start,
                    b <= width,
                    g.num_slots() == start + b,
                    forall|j: int| 0 <= j < b ==> #[trigger] g.ty(ors_at + j) is Or
                        && g.deps(ors_at + j) == rom_bit_deps(words, ands, width, j, w + 1),
                    forall|j: int| b <= j < width ==> #[trigger] g.ty(ors_at + j) is Or
                        && g.deps(ors_at + j) == rom_bit_deps(words, ands, width, j, w as int),
                    forall|j: int| 0 <= j < address@.len() ==> #[trigger] g.ty(n0 + j) is Not && g.deps(n0 + j) == seq![address@[j]@],
                    forall|c: int| 0 <= c < count ==> #[trigger] g.ty(lines + c) is And
                        && g.deps(lines + c) == line_deps(address@, n0, c as nat, address@.len() as nat),
                    forall|w2: int, k2: int| 0 <= w2 < w && 0 <= k2 < width && !all_zero(words[w2])
                        ==> #[trigger] rom_and_wiring(*g, words, lines, ands, width, w2, k2),
                    forall|k2: int| 0 <= k2 < b ==> #[trigger] rom_and_wiring(*g, words, lines, ands, width, w as int, k2),
                decreases ors@.len() - b,
            {
                let ghost h0 = *g;
                let and = g.and2(d, bits[b], name);
                let ghost h1 = *g;
                proof {
                    assert(h1.ty(ors_at + b) == h0.ty(ors_at + b));
                    assert(ors@[b as int]@ == ors_at + b);
                }
                g.dpush(ors[b], and);
                proof {
                    GateGraphBuilder::lemma_grows_trans(&h0, &h1, g);
                    GateGraphBuilder::lemma_grows_trans(old(g), &h0, g);
                    let t = ors_at + b;
                    assert(rom_bit_deps(words, ands, width, b as int, w + 1)
                        == rom_bit_deps(words, ands, width, b as int, w as int).push(and@));
                    assert forall|j: int| 0 <= j < h0.num_slots() && j != t implies #[trigger] g.deps(j) == h0.deps(j) && g.ty(j) == h0.ty(j) by {
                        assert(h1.ty(j) == h0.ty(j));
                        assert(g.ty(j) == h1.ty(j));
                    }
                    assert forall|j: int| 0 <= j < n0 implies #[trigger] g.deps(j) == old(g).deps(j) by {
                        assert(g.deps(j) == h0.deps(j) && g.ty(j) == h0.ty(j));
                    }
                    assert forall|j: int| 0 <= j < b + 1 implies #[trigger] g.ty(ors_at + j) is Or
                        && g.deps(ors_at + j) == rom_bit_deps(words, ands, width, j, w + 1) by {
                        if j < b {
                            assert(g.deps(ors_at + j) == h0.deps(ors_at + j) && g.ty(ors_at + j) == h0.ty(ors_at + j));
                        } else {
                            assert(g.ty(ors_at + j) == h1.ty(ors_at + j));
                        }
                    }
                    assert forall|j: int| b + 1 <= j < width implies #[trigger] g.ty(ors_at + j) is Or
                        && g.deps(ors_at + j) == rom_bit_deps(words, ands, width, j, w as int) by {
                        assert(g.deps(ors_at + j) == h0.deps(ors_at + j) && g.ty(ors_at + j) == h0.ty(ors_at + j));
                    }
                    assert forall|j: int| 0 <= j < address@.len() implies #[trigger] g.ty(n0 + j) is Not && g.deps(n0 + j) == seq![address@[j]@] by {
                        assert(g.deps(n0 + j) == h0.deps(n0 + j) && g.ty(n0 + j) == h0.ty(n0 + j));
                    }
                    assert forall|c: int| 0 <= c < count implies #[trigger] g.ty(lines + c) is And
                        && g.deps(lines + c) == line_deps(address@, n0, c as nat, address@.len() as nat) by {
                        assert(g.deps(lines + c) == h0.deps(lines + c) && g.ty(lines + c) == h0.ty(lines + c));
                    }
                    assert forall|w2: int, k2: int| 0 <= w2 < w && 0 <= k2 < width && !all_zero(words[w2])
                        implies #[trigger] rom_and_wiring(*g, words, lines, ands, width, w2, k2) by {
                        assert(rom_and_wiring(h0, words, lines, ands, width, w2, k2));
                        lemma_word_gates_before(words, width, w2, w as int, k2);
                        let x = ands + nonzero_before(words, w2) * width + k2;
                        assert(g.deps(x) == h0.deps(x) && g.ty(x) == h0.ty(x));
                    }
                    assert forall|k2: int| 0 <= k2 < b + 1 implies #[trigger] rom_and_wiring(*g, words, lines, ands, width, w as int, k2) by {
                        let x = ands + nonzero_before(words, w as int) * width + k2;
                        if k2 < b {
                            assert(rom_and_wiring(h0, words, lines, ands, width, w as int, k2));
                            assert(g.deps(x) == h0.deps(x) && g.ty(x) == h0.ty(x));
                        } else {
                            assert(g.ty(x) == h1.ty(x));
                            assert(g.deps(x) == h1.deps(x));
                        }
                    }
                }
                b = b + 1;
            }
            proof {
                assert(nonzero_before(words, w + 1) == nonzero_before(words, w as int) + 1);
                assert((nonzero_before(words, w as int) + 1) * width == nonzero_before(words, w as int) * width + width) by (nonlinear_arith);
                assert forall|w2: int, k2: int| 0 <= w2 < w + 1 && 0 <= k2 < width && !all_zero(words[w2])
                    implies #[trigger] rom_and_wiring(*g, words, lines, ands, width, w2, k2) by {
                    if w2 == w {
                        assert(rom_and_wiring(*g, words, lines, ands, width, w as int, k2));
                    }
                }
            }
        } else {
            proof {
                assert(all_zero(words[w as int]));
                assert(nonzero_before(words, w + 1) == nonzero_before(words, w as int));
                assert forall|j: int| 0 <= j < width implies #[trigger] g.ty(ors_at + j) is Or
                    && g.deps(ors_at + j) == rom_bit_deps(words, ands, width, j, w + 1) by {
                    assert(rom_bit_deps(words, ands, width, j, w + 1) == rom_bit_deps(words, ands, width, j, w as int));
                }
            }
        }
        w = w + 1;
    }
    let ghost g2 = *g;
    let ghost outs = g2.num_slots() as int;
    proof {
        lemma_nonzero_before_mono(words, 0, n as int);
        assert(0 <= nonzero_before(words, n as int) * width) by (nonlinear_arith)
            requires
                0 <= nonzero_before(words, n as int),
                0 <= width,
        ;
        assert forall|j: int| 0 <= j < ors@.len() implies #[trigger] ors@[j]@ < g.num_slots() by {
            assert(ors@[j]@ == ors_at + j);
        }
    }
    let mut out: Vec<GateIndex> = Vec::new();
    let mut k: usize = 0;
    while k < ors.len()
        invariant
            g.grows_from(old(g)),
            g.grows_from(&g2),
            g.levers() == old(g).levers(),
            g.keeps_deps(&g2),
            g2.all_in(ors@),
            read@ < old(g).num_slots(),
            ors@.len() == width,
            forall|j: int| 0 <= j < width ==> #[trigger] ors@[j]@ == ors_at + j,
            outs == g2.num_slots(),
            k <= ors@.len(),
            out@.len() == k,
            g.num_slots() == outs + k,
            forall|j: int| 0 <= j < k ==> #[trigger] out@[j]@ == outs + j,
            forall|j: int| 0 <= j < k ==> #[trigger] g.ty(outs + j) is And
                && g.deps(outs + j) == seq![ors@[j]@, read@],
        decreases ors@.len() - k,
    {
        let ghost before = *g;
        let ghost prev = out@;
        let a = g.and2(ors[k], read, name);
        out.push(a);
        proof {
            GateGraphBuilder::lemma_grows_trans(old(g), &before, g);
            GateGraphBuilder::lemma_grows_trans(&g2, &before, g);
            assert forall|j: int| 0 <= j < k + 1 implies #[trigger] out@[j]@ == outs + j by {
                if j < k {
                    assert(out@[j] == prev[j]);
                }
            }
            assert forall|j: int| 0 <= j < k + 1 implies #[trigger] g.ty(outs + j) is And
                && g.deps(outs + j) == seq![ors@[j]@, read@] by {
                if j < k {
                    assert(g.ty(outs + j) == before.ty(outs + j));
                }
            }
            assert forall|j: int| 0 <= j < g2.num_slots() implies #[trigger] g.deps(j) == g2.deps(j) by {
                assert(g.ty(j) == before.ty(j));
            }
        }
        k = k + 1;
    }
    proof {
        assert forall|j: int| 0 <= j < out@.len() implies #[trigger] out@[j]@ < g.num_slots() by {}
        assert forall|j: int| 0 <= j < width implies #[trigger] out@[j]@ == outs + j
            && g.deps(outs + j) == seq![(ors_at + j) as usize, read@] by {
            assert(g.ty(outs + j) is And);
            assert(g.deps(outs + j) == seq![ors@[j]@, read@]);
            assert(ors@[j]@ == ors_at + j);
        }
        assert forall|j: int| 0 <= j < out@.len() implies #[trigger] g.ty(out@[j]@ as int) is And
            && g.deps(out@[j]@ as int).len() == 2
            && g.deps(out@[j]@ as int)[1] == read@ by {
            assert(out@[j]@ == outs + j);
        }
        assert forall|j: int| 0 <= j < n0 implies #[trigger] g.deps(j) == old(g).deps(j) by {
            assert(g.deps(j) == g2.deps(j));
        }
        assert forall|j: int| 0 <= j < address@.len() implies #[trigger] g.ty(n0 + j) is Not
            && g.deps(n0 + j) == seq![address@[j]@] by {
            assert(g.deps(n0 + j) == g2.deps(n0 + j));
        }
        assert forall|c: int| 0 <= c < count implies #[trigger] g.ty(lines + c) is And
            && g.deps(lines + c) == line_deps(address@, n0, c as nat, address@.len() as nat) by {
            assert(g.deps(lines + c) == g2.deps(lines + c));
        }
        assert forall|j: int| 0 <= j < width implies #[trigger] g.ty(ors_at + j) is Or
            && g.deps(ors_at + j) == rom_bit_deps(words, ands, width, j, n as int) by {
            assert(g.deps(ors_at + j) == g2.deps(ors_at + j));
        }
        assert forall|w2: int, k2: int| 0 <= w2 < n && 0 <= k2 < width && !all_zero(words[w2])
            implies #[trigger] rom_and_wiring(*g, words, lines, ands, width, w2, k2) by {
            assert(rom_and_wiring(g2, words, lines, ands, width, w2, k2));
            lemma_word_gates_before(words, width, w2, n as int, k2);
            let x = ands + nonzero_before(words, w2) * width + k2;
            assert(g.deps(x) == g2.deps(x));
        }
        assert(out@.len() == width);
        assert(n == data@.len());
        assert(words.len() == data@.len());
        assert(ors_at == rom_ors(n0, address@.len()));
        assert(outs == rom_outs(n0, address@.len(), words, width));
        assert forall|k: int| 0 <= k < out@.len() implies #[trigger] g.deps(out@[k]@ as int)
            == seq![(rom_ors(n0, address@.len()) + k) as usize, read@] by {
            assert(out@[k]@ == outs + k);
            assert(g.ty(outs + k) is And);
            assert(g.deps(outs + k) == seq![ors@[k]@, read@]);
            assert(ors@[k]@ == ors_at + k);
        }
    }
    out
}

} // verus!
