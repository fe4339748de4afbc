use crate::graph::gate::{GateIndex, GateType};
use crate::graph::graph_builder::GateGraphBuilder;
use vstd::arithmetic::power2::{lemma_pow2_strictly_increases, lemma_pow2_unfold, lemma2_to64, pow2};
use vstd::prelude::*;

verus! {

/// Bit `j` of `i`, 0 being the least significant.
pub open spec fn bit_of(i: nat, j: nat) -> bool
    decreases j,
{
    if j == 0 {
        i % 2 == 1
    } else {
        bit_of(i / 2, (j - 1) as nat)
    }
}

/// The first `n` dependencies of decoder line `i`: for each address bit `j`, the address gate
/// if bit `j` of `i` is set, else its negation, the `Not` gate at `base + j`.
pub open spec fn line_deps(address: Seq<GateIndex>, base: int, i: nat, n: nat) -> Seq<usize> {
    Seq::new(n, |j: int| if bit_of(i, j as nat) { address[j]@ } else { (base + j) as usize })
}

/// Returns the lines of a decoder of `address`: line `i` is an `And` gate that is active when
/// the address, least significant bit first, equals `i`. There are `2^address.len()` lines.
pub fn decoder(g: &mut GateGraphBuilder, address: &[GateIndex], name: &str) -> (out: Vec<GateIndex>)
    requires
        old(g).wf(),
        old(g).all_in(address@),
        address@.len() < usize::BITS,
    ensures
        final(g).grows_from(old(g)),
        final(g).levers() == old(g).levers(),
        out@.len() == pow2(address@.len() as nat),
        final(g).num_slots() == old(g).num_slots() + address@.len() + out@.len(),
        forall|j: int| 0 <= j < address@.len() ==> #[trigger] final(g).ty(old(g).num_slots() + j) is Not
            && final(g).deps(old(g).num_slots() + j) == seq![address@[j]@],
        forall|i: int| 0 <= i < out@.len() ==> #[trigger] out@[i]@ == old(g).num_slots() + address@.len() + i,
        forall|i: int| 0 <= i < out@.len() ==> #[trigger] final(g).ty(out@[i]@ as int) is And,
        forall|i: int| 0 <= i < out@.len() ==> #[trigger] final(g).deps(out@[i]@ as int)
            == line_deps(address@, old(g).num_slots() as int, i as nat, address@.len() as nat),
        final(g).keeps_deps(old(g)),
{
    proof {
        g.lemma_grows_refl();
    }
    let ghost base = old(g).num_slots() as int;
    let n = address.len();
    let mut naddress: Vec<GateIndex> = Vec::new();
    let mut j: usize = 0;
    while j < n
        invariant
            g.grows_from(old(g)),
            g.levers() == old(g).levers(),
            base == old(g).num_slots(),
            old(g).all_in(address@),
            n == address@.len(),
            j <= n,
            g.num_slots() == base + j,
            naddress@.len() == j,
            forall|a: int| 0 <= a < j ==> #[trigger] naddress@[a]@ == base + a,
            forall|a: int| 0 <= a < j ==> #[trigger] g.ty(base + a) is Not && g.deps(base + a) == seq![address@[a]@],
            g.keeps_deps(old(g)),
        decreases n - j,
    {
        let ghost before = *g;
        let ghost prev = naddress@;
        let not = g.not1(address[j], name);
        naddress.push(not);
        proof {
            GateGraphBuilder::lemma_grows_trans(old(g), &before, g);
            assert forall|a: int| 0 <= a < j + 1 implies #[trigger] naddress@[a]@ == base + a by {
                if a < j { assert(naddress@[a] == prev[a]); }
            }
            assert forall|a: int| 0 <= a < j + 1 implies #[trigger] g.ty(base + a) is Not && g.deps(base + a) == seq![address@[a]@] by {
                if a < j { assert(g.ty(base + a) == before.ty(base + a)); }
            }
            assert forall|a: int| 0 <= a < old(g).num_slots() implies #[trigger] g.deps(a) == old(g).deps(a) by {
                assert(g.ty(a) == before.ty(a));
            }
        }
        j = j + 1;
    }
    let mut count: usize = 1;
    let mut d: usize = 0;
    proof {
        lemma2_to64();
    }
    while d < n
        invariant
            d <= n,
            n < usize::BITS,
            count == pow2(d as nat),
        decreases n - d,
    {
        proof {
            lemma_pow2_unfold((d + 1) as nat);
            lemma2_to64();
            if usize::BITS == 32 {
                lemma_pow2_strictly_increases((d + 1) as nat, 32);
            } else {
                vstd::arithmetic::power2::lemma2_to64_rest();
                lemma_pow2_strictly_increases((d + 1) as nat, 64);
            }
        }
        count = count * 2;
        d = d + 1;
    }
    let ghost nbase = base + n;
    let mut out: Vec<GateIndex> = Vec::new();
    let mut i: usize = 0;
    while i < count
        invariant
            g.grows_from(old(g)),
            g.levers() == old(g).levers(),
            base == old(g).num_slots(),
            nbase == base + n,
            old(g).all_in(address@),
            n == address@.len(),
            naddress@.len() == n,
            forall|a: int| 0 <= a < n ==> #[trigger] naddress@[a]@ == base + a,
            forall|a: int| 0 <= a < n ==> #[trigger] g.ty(base + a) is Not && g.deps(base + a) == seq![address@[a]@],
            count == pow2(n as nat),
            i <= count,
            g.num_slots() == nbase + i,
            out@.len() == i,
            forall|a: int| 0 <= a < i ==> #[trigger] out@[a]@ == nbase + a,
            forall|a: int| 0 <= a < i ==> #[trigger] g.ty(out@[a]@ as int) is And,
            forall|a: int| 0 <= a < i ==> #[trigger] g.deps(out@[a]@ as int) == line_deps(address@, base, a as nat, n as nat),
            g.keeps_deps(old(g)),
        decreases count - i,
    {
        let ghost g0 = *g;
        let ghost prev = out@;
        let output = g.and(name);
        let ghost g1 = *g;
        proof {
            GateGraphBuilder::lemma_grows_trans(old(g), &g0, &g1);
            assert(line_deps(address@, base, i as nat, 0) =~= g.deps(output@ as int));
            assert forall|a: int| 0 <= a < g0.num_slots() implies #[trigger] g.deps(a) == g0.deps(a) by {
                assert(g.ty(a) == g0.ty(a));
            }
        }
        let mut rest: usize = i;
        let mut j: usize = 0;
        while j < n
            invariant
                g.grows_from(&g1),
                g.grows_from(old(g)),
                g.levers() == old(g).levers(),
                g.num_slots() == g1.num_slots(),
                output@ == g0.num_slots(),
                g1.num_slots() == g0.num_slots() + 1,
                old(g).all_in(address@),
                n == address@.len(),
                naddress@.len() == n,
                forall|a: int| 0 <= a < n ==> #[trigger] naddress@[a]@ == base + a,
                base + n <= g0.num_slots(),
                j <= n,
                g.ty(output@ as int) is And,
                g.deps(output@ as int) == line_deps(address@, base, i as nat, j as nat),
                forall|a: int| 0 <= a < g0.num_slots() ==> #[trigger] g.deps(a) == g0.deps(a),
                forall|t: nat| #[trigger] bit_of(rest as nat, t) == bit_of(i as nat, (j + t) as nat),
            decreases n - j,
        {
            let ghost h0 = *g;
            let bit = rest % 2 == 1;
            proof {
                assert(bit_of(rest as nat, 0) == bit_of(i as nat, j as nat));
                assert(g.ty(output@ as int) == g1.ty(output@ as int));
            }
            if bit {
                g.dpush(output, address[j]);
            } else {
                g.dpush(output, naddress[j]);
            }
            proof {
                GateGraphBuilder::lemma_grows_trans(&g1, &h0, g);
                GateGraphBuilder::lemma_grows_trans(old(g), &h0, g);
                assert(g.ty(output@ as int) == h0.ty(output@ as int));
                assert(line_deps(address@, base, i as nat, (j + 1) as nat)
                    =~= line_deps(address@, base, i as nat, j as nat).push(
                        if bit_of(i as nat, j as nat) { address@[j as int]@ } else { (base + j) as usize }));
                assert forall|a: int| 0 <= a < g0.num_slots() implies #[trigger] g.deps(a) == g0.deps(a) by {
                    assert(g.ty(a) == h0.ty(a));
                }
                assert forall|t: nat| #[trigger] bit_of((rest / 2) as nat, t) == bit_of(i as nat, (j + 1 + t) as nat) by {
                    assert(bit_of(rest as nat, t + 1) == bit_of((rest / 2) as nat, t));
                    assert(bit_of(rest as nat, t + 1) == bit_of(i as nat, (j + (t + 1)) as nat));
                }
            }
            rest = rest / 2;
            j = j + 1;
        }
        out.push(output);
        proof {
            GateGraphBuilder::lemma_grows_trans(old(g), &g0, g);
            assert forall|a: int| 0 <= a < i + 1 implies #[trigger] out@[a]@ == nbase + a by {
                if a < i { assert(out@[a] == prev[a]); }
            }
            assert forall|a: int| 0 <= a < i + 1 implies #[trigger] g.ty(out@[a]@ as int) is And by {
                if a < i {
                    assert(out@[a] == prev[a]);
                    assert(g.ty(prev[a]@ as int) == g0.ty(prev[a]@ as int));
                }
            }
            assert forall|a: int| 0 <= a < i + 1 implies #[trigger] g.deps(out@[a]@ as int) == line_deps(address@, base, a as nat, n as nat) by {
                if a < i {
                    assert(out@[a] == prev[a]);
                    assert(g.deps(prev[a]@ as int) == g0.deps(prev[a]@ as int));
                }
            }
            assert forall|a: int| 0 <= a < n implies #[trigger] g.ty(base + a) is Not && g.deps(base + a) == seq![address@[a]@] by {
                assert(g.ty(base + a) == g0.ty(base + a));
                assert(g.deps(base + a) == g0.deps(base + a));
            }
            assert forall|a: int| 0 <= a < old(g).num_slots() implies #[trigger] g.deps(a) == old(g).deps(a) by {
                assert(g.deps(a) == g0.deps(a));
            }
        }
        i = i + 1;
    }
    out
}

} // verus!
