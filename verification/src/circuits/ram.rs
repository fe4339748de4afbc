use crate::circuits::decoder::{decoder, line_deps};
use crate::circuits::register::{lemma_register_wiring_kept, register, register_wiring};
use crate::graph::gate::{GateIndex, GateType};
use crate::graph::graph_builder::GateGraphBuilder;
use vstd::arithmetic::power2::pow2;
use vstd::prelude::*;

verus! {

/// The number of gates of the memory cell of one address of a RAM `w` bits wide.
pub open spec fn ram_cell_len(w: int) -> int {
    2 + 8 * w
}

/// True if the gates from `x` on in `g` are the memory cell of one address: `x` and `x + 1`
/// are the `And` gates that enable writing and reading while decoder line `line` is active,
/// and a register of `input` follows from `x + 2`.
pub open spec fn ram_cell_wiring(
    g: GateGraphBuilder,
    x: int,
    line: usize,
    write: usize,
    read: usize,
    clock: usize,
    reset: usize,
    input: Seq<GateIndex>,
) -> bool {
    &&& g.ty(x) is And && g.deps(x) == seq![line, write]
    &&& g.ty(x + 1) is And && g.deps(x + 1) == seq![line, read]
    &&& register_wiring(g, x + 2, input, clock, reset, x as usize, (x + 1) as usize)
}

/// The dependencies of output bit `b` of a RAM `w` bits wide whose `count` cells start at
/// `cells`: bit `b` of the register of every cell, in address order.
pub open spec fn ram_output_deps(cells: int, w: int, count: nat, b: int) -> Seq<usize> {
    Seq::new(count, |c: int| (cells + c * ram_cell_len(w) + 9 + 8 * b) as usize)
}

/// The number of gates of a RAM `w` bits wide with `address_bits` address bits.
pub open spec fn ram_len(address_bits: nat, w: int) -> int {
    w + address_bits + pow2(address_bits) + pow2(address_bits) * ram_cell_len(w)
}

/// True if the gates from `n` on in `g` are a RAM holding words of `input`, addressed by
/// `address`: the output `Or` gates, the decoder of `address`, then the cell of each address;
/// output bit `b` reads bit `b` of every cell.
pub open spec fn ram_wiring(
    g: GateGraphBuilder,
    n: int,
    read: usize,
    write: usize,
    clock: usize,
    reset: usize,
    address: Seq<GateIndex>,
    input: Seq<GateIndex>,
) -> bool {
    let w = input.len() as int;
    let lines = n + w + address.len();
    let count = pow2(address.len() as nat);
    let cells = lines + count;
    &&& forall|b: int| 0 <= b < w ==> #[trigger] g.ty(n + b) is Or && g.deps(n + b) == ram_output_deps(cells, w, count, b)
    &&& forall|j: int| 0 <= j < address.len() ==> #[trigger] g.ty(n + w + j) is Not && g.deps(n + w + j) == seq![address[j]@]
    &&& forall|c: int| 0 <= c < count ==> #[trigger] g.ty(lines + c) is And
        && g.deps(lines + c) == line_deps(address, n + w, c as nat, address.len() as nat)
    &&& forall|c: int| 0 <= c < count ==> #[trigger] ram_cell_wiring(g, cells + c * ram_cell_len(w), (lines + c) as usize,
        write, read, clock, reset, input)
}

/// The wiring of a RAM stays while its gates keep their types and dependencies.
pub proof fn lemma_ram_wiring_kept(
    a: GateGraphBuilder,
    b: GateGraphBuilder,
    n: int,
    read: usize,
    write: usize,
    clock: usize,
    reset: usize,
    address: Seq<GateIndex>,
    input: Seq<GateIndex>,
)
    requires
        ram_wiring(b, n, read, write, clock, reset, address, input),
        0 <= n,
        forall|j: int| n <= j < n + ram_len(address.len(), input.len() as int) ==> #[trigger] a.deps(j) == b.deps(j) && a.ty(j) == b.ty(j),
    ensures
        ram_wiring(a, n, read, write, clock, reset, address, input),
{
    let w = input.len() as int;
    let lines = n + w + address.len();
    let count = pow2(address.len() as nat);
    let cells = lines + count;
    let m = ram_cell_len(w);
    assert(0 <= count * m) by (nonlinear_arith)
        requires
            0 <= count,
            0 <= m,
    ;
    assert forall|k: int| 0 <= k < w implies #[trigger] a.ty(n + k) is Or && a.deps(n + k) == ram_output_deps(cells, w, count, k) by {
        assert(a.deps(n + k) === b.deps(n + k));
        assert(a.ty(n + k) == b.ty(n + k));
    }
    assert forall|j: int| 0 <= j < address.len() implies #[trigger] a.ty(n + w + j) is Not && a.deps(n + w + j) == seq![address[j]@] by {
        assert(a.deps(n + w + j) === b.deps(n + w + j));
        assert(a.ty(n + w + j) == b.ty(n + w + j));
    }
    assert forall|c: int| 0 <= c < count implies #[trigger] a.ty(lines + c) is And
        && a.deps(lines + c) == line_deps(address, n + w, c as nat, address.len() as nat) by {
        assert(a.deps(lines + c) === b.deps(lines + c));
        assert(a.ty(lines + c) == b.ty(lines + c));
    }
    assert forall|c: int| 0 <= c < count implies #[trigger] ram_cell_wiring(a, cells + c * m, (lines + c) as usize,
        write, read, clock, reset, input) by {
        assert(ram_cell_wiring(b, cells + c * m, (lines + c) as usize, write, read, clock, reset, input));
        assert(c * m + m <= count * m) by (nonlinear_arith)
            requires
                c < count,
                0 <= m,
        ;
        assert(0 <= c * m) by (nonlinear_arith)
            requires
                0 <= c,
                0 <= m,
        ;
        assert forall|j: int| cells + c * m <= j < cells + c * m + m implies #[trigger] a.deps(j) == b.deps(j) && a.ty(j) == b.ty(j) by {
            assert(a.deps(j) === b.deps(j));
            assert(a.ty(j) == b.ty(j));
        }
        lemma_ram_cell_wiring_kept(a, b, cells + c * m, (lines + c) as usize, write, read, clock, reset, input);
    }
}

/// The wiring of a memory cell stays while its gates keep their types and dependencies.
pub proof fn lemma_ram_cell_wiring_kept(
    a: GateGraphBuilder,
    b: GateGraphBuilder,
    x: int,
    line: usize,
    write: usize,
    read: usize,
    clock: usize,
    reset: usize,
    input: Seq<GateIndex>,
)
    requires
        ram_cell_wiring(b, x, line, write, read, clock, reset, input),
        0 <= x,
        forall|j: int| x <= j < x + ram_cell_len(input.len() as int) ==> #[trigger] a.deps(j) == b.deps(j) && a.ty(j) == b.ty(j),
    ensures
        ram_cell_wiring(a, x, line, write, read, clock, reset, input),
{
    assert(x < x + ram_cell_len(input.len() as int));
    assert(x + 1 < x + ram_cell_len(input.len() as int));
    assert(a.deps(x) === b.deps(x));
    assert(a.ty(x) == b.ty(x));
    assert(a.deps(x + 1) === b.deps(x + 1));
    assert(a.ty(x + 1) == b.ty(x + 1));
    assert forall|j: int| x + 2 <= j < x + 2 + 8 * input.len() implies #[trigger] a.deps(j) == b.deps(j) && a.ty(j) == b.ty(j) by {
        assert(a.deps(j) === b.deps(j));
        assert(a.ty(j) == b.ty(j));
    }
    lemma_register_wiring_kept(a, b, x + 2, input, clock, reset, x as usize, (x + 1) as usize);
}

/// Returns the output of a piece of RAM as wide as `input`, with one register per address:
/// the register of the address that `address` selects is written from `input` on the rising
/// edge of `clock` while `write` is active, and read while `read` is active; `reset` clears
/// every register.
///
/// The gates come in this order: the output `Or` gates, the decoder of `address`, then the
/// cell of each address (see [ram_cell_wiring]); output bit `b` reads bit `b` of every cell.
#[verifier::spinoff_prover]
pub fn ram(
    g: &mut GateGraphBuilder,
    read: GateIndex,
    write: GateIndex,
    clock: GateIndex,
    reset: GateIndex,
    address: &[GateIndex],
    input: &[GateIndex],
    name: &str,
) -> (out: Vec<GateIndex>)
    requires
        old(g).wf(),
        read@ < old(g).num_slots(),
        write@ < old(g).num_slots(),
        clock@ < old(g).num_slots(),
        reset@ < old(g).num_slots(),
        old(g).all_in(address@),
        old(g).all_in(input@),
        address@.len() < usize::BITS,
    ensures
        ({
            let n = old(g).num_slots() as int;
            let w = input@.len() as int;
            let lines = n + w + address@.len();
            let count = pow2(address@.len() as nat);
            let cells = lines + count;
            &&& final(g).grows_from(old(g))
            &&& final(g).levers() == old(g).levers()
            &&& final(g).keeps_deps(old(g))
            &&& final(g).num_slots() == cells + count * ram_cell_len(w)
            &&& out@.len() == w
            &&& final(g).all_in(out@)
            &&& forall|b: int| 0 <= b < w ==> #[trigger] out@[b]@ == n + b
            &&& forall|b: int| 0 <= b < w ==> #[trigger] final(g).ty(out@[b]@ as int) is Or
            &&& ram_wiring(*final(g), n, read@, write@, clock@, reset@, address@, input@)
        }),
{
    let ghost n = old(g).num_slots() as int;
    let ghost w = input@.len() as int;
    let ghost m = ram_cell_len(w);
    proof {
        g.lemma_grows_refl();
    }
    let mut outputs: Vec<GateIndex> = Vec::new();
    let mut k: usize = 0;
    while k < input.len()
        invariant
            g.grows_from(old(g)),
            g.levers() == old(g).levers(),
            g.keeps_deps(old(g)),
            n == old(g).num_slots(),
            w == input@.len(),
            k <= w,
            g.num_slots() == n + k,
            outputs@.len() == k,
            forall|j: int| 0 <= j < k ==> #[trigger] outputs@[j]@ == n + j,
            forall|j: int| 0 <= j < k ==> #[trigger] g.ty(n + j) is Or && g.deps(n + j) == Seq::<usize>::empty(),
        decreases input@.len() - k,
    {
        let ghost before = *g;
        let ghost prev = outputs@;
        let b = g.or(name);
        outputs.push(b);
        proof {
            GateGraphBuilder::lemma_grows_trans(old(g), &before, g);
            assert forall|j: int| 0 <= j < k + 1 implies #[trigger] outputs@[j]@ == n + j by {
                if j < k { assert(outputs@[j] == prev[j]); }
            }
            assert forall|j: int| 0 <= j < k + 1 implies #[trigger] g.ty(n + j) is Or && g.deps(n + j) == Seq::<usize>::empty() by {
                if j < k { assert(g.ty(n + j) == before.ty(n + j)); }
            }
            assert forall|j: int| 0 <= j < n implies #[trigger] g.deps(j) == old(g).deps(j) by {
                assert(g.ty(j) == before.ty(j));
            }
        }
        k = k + 1;
    }
    let ghost g1 = *g;
    let decoded = decoder(g, address, name);
    let ghost lines = n + w + address@.len();
    let ghost count = pow2(address@.len() as nat);
    let ghost cells = lines + count;
    proof {
        GateGraphBuilder::lemma_grows_trans(old(g), &g1, g);
        assert forall|j: int| 0 <= j < w implies #[trigger] g.ty(n + j) is Or && g.deps(n + j) == ram_output_deps(cells, w, 0, j) by {
            assert(g.deps(n + j) == g1.deps(n + j));
            assert(ram_output_deps(cells, w, 0, j) =~= Seq::<usize>::empty());
        }
        assert forall|j: int| 0 <= j < n implies #[trigger] g.deps(j) == old(g).deps(j) by {
            assert(g.deps(j) == g1.deps(j));
        }
        assert forall|j: int| 0 <= j < decoded@.len() implies #[trigger] decoded@[j]@ < g.num_slots() by {
            assert(decoded@[j]@ == lines + j);
        }
        assert forall|i: int| 0 <= i < count implies #[trigger] g.ty(lines + i) is And
            && g.deps(lines + i) == line_deps(address@, n + w, i as nat, address@.len() as nat) by {
            assert(decoded@[i]@ == lines + i);
            assert(g.ty(decoded@[i]@ as int) is And);
        }
    }
    let mut c: usize = 0;
    while c < decoded.len()
        invariant
            g.grows_from(old(g)),
            g.levers() == old(g).levers(),
            g.keeps_deps(old(g)),
            n == old(g).num_slots(),
            w == input@.len(),
            m == ram_cell_len(w),
            lines == n + w + address@.len(),
            count == pow2(address@.len() as nat),
            cells == lines + count,
            read@ < n,
            write@ < n,
            clock@ < n,
            reset@ < n,
            old(g).all_in(input@),
            decoded@.len() == count,
            forall|i: int| 0 <= i < count ==> #[trigger] decoded@[i]@ == lines + i,
            outputs@.len() == w,
            forall|j: int| 0 <= j < w ==> #[trigger] outputs@[j]@ == n + j,
            c <= count,
            g.num_slots() == cells + c * m,
            forall|j: int| 0 <= j < w ==> #[trigger] g.ty(n + j) is Or && g.deps(n + j) == ram_output_deps(cells, w, c as nat, j),
            forall|j: int| 0 <= j < address@.len() ==> #[trigger] g.ty(n + w + j) is Not && g.deps(n + w + j) == seq![address@[j]@],
            forall|i: int| 0 <= i < count ==> #[trigger] g.ty(lines + i) is And
                && g.deps(lines + i) == line_deps(address@, n + w, i as nat, address@.len() as nat),
            forall|i: int| 0 <= i < c ==> #[trigger] ram_cell_wiring(*g, cells + i * m, (lines + i) as usize,
                write@, read@, clock@, reset@, input@),
        decreases count - c,
    {
        let ghost h0 = *g;
        let ghost x = cells + c * m;
        let cell_enable = decoded[c];
        let cell_write = g.and2(cell_enable, write, name);
        let ghost h1 = *g;
        let cell_read = g.and2(cell_enable, read, name);
        let ghost h2 = *g;
        let cell = register(g, clock, cell_write, cell_read, reset, input, name);
        let ghost h3 = *g;
        proof {
            GateGraphBuilder::lemma_grows_trans(&h0, &h1, &h2);
            GateGraphBuilder::lemma_grows_trans(&h0, &h2, &h3);
            GateGraphBuilder::lemma_grows_trans(old(g), &h0, &h3);
            assert forall|j: int| 0 <= j < h0.num_slots() implies #[trigger] h3.deps(j) == h0.deps(j) by {
                assert(h1.ty(j) == h0.ty(j));
                assert(h2.ty(j) == h1.ty(j));
                assert(h3.deps(j) == h2.deps(j));
            }
            assert(h3.deps(x) == h1.deps(x)) by {
                assert(h2.ty(x) == h1.ty(x));
                assert(h3.deps(x) == h2.deps(x));
            }
            assert(h3.deps(x + 1) == h2.deps(x + 1));
            assert(ram_cell_wiring(h3, x, (lines + c) as usize, write@, read@, clock@, reset@, input@));
            assert forall|j: int| 0 <= j < cell@.len() implies #[trigger] cell@[j]@ < g.num_slots() by {
                assert(cell@[j]@ == x + 2 + 8 * j + 7);
            }
        }
        let mut b: usize = 0;
        while b < outputs.len()
            invariant
                g.grows_from(old(g)),
                g.grows_from(&h3),
                g.levers() == old(g).levers(),
                g.num_slots() == h3.num_slots(),
                n == old(g).num_slots(),
                w == input@.len(),
                m == ram_cell_len(w),
                x == cells + c * m,
                x + 2 == h2.num_slots(),
                h3.num_slots() == x + m,
                n + w <= cells,
                cells <= x,
                outputs@.len() == w,
                forall|j: int| 0 <= j < w ==> #[trigger] outputs@[j]@ == n + j,
                cell@.len() == w,
                forall|j: int| 0 <= j < w ==> #[trigger] cell@[j]@ == x + 9 + 8 * j,
                b <= w,
                forall|j: int| 0 <= j < g.num_slots() && (j < n || j >= n + w) ==> #[trigger] g.deps(j) == h3.deps(j),
                forall|j: int| 0 <= j < b ==> #[trigger] g.ty(n + j) is Or && g.deps(n + j) == ram_output_deps(cells, w, (c + 1) as nat, j),
                forall|j: int| b <= j < w ==> #[trigger] g.ty(n + j) is Or && g.deps(n + j) == ram_output_deps(cells, w, c as nat, j),
            decreases w - b,
        {
            let ghost k0 = *g;
            proof {
                assert(g.ty(n + b) is Or);
                assert(outputs@[b as int]@ == n + b);
            }
            g.dpush(outputs[b], cell[b]);
            proof {
                GateGraphBuilder::lemma_grows_trans(old(g), &k0, g);
                GateGraphBuilder::lemma_grows_trans(&h3, &k0, g);
                assert(ram_output_deps(cells, w, (c + 1) as nat, b as int)
                    =~= ram_output_deps(cells, w, c as nat, b as int).push(cell@[b as int]@));
                assert forall|j: int| 0 <= j < g.num_slots() && (j < n || j >= n + w) implies #[trigger] g.deps(j) == h3.deps(j) by {
                    assert(g.ty(j) == k0.ty(j));
                }
                assert forall|j: int| 0 <= j < b + 1 implies #[trigger] g.ty(n + j) is Or && g.deps(n + j) == ram_output_deps(cells, w, (c + 1) as nat, j) by {
                    assert(g.ty(n + j) == k0.ty(n + j));
                }
                assert forall|j: int| b + 1 <= j < w implies #[trigger] g.ty(n + j) is Or && g.deps(n + j) == ram_output_deps(cells, w, c as nat, j) by {
                    assert(g.ty(n + j) == k0.ty(n + j));
                }
            }
            b = b + 1;
        }
        proof {
            assert((c + 1) * m == c * m + m) by (nonlinear_arith);
            assert forall|j: int| 0 <= j < n implies #[trigger] g.deps(j) == old(g).deps(j) by {
                assert(g.deps(j) == h3.deps(j));
                assert(h3.deps(j) == h0.deps(j));
            }
            assert forall|j: int| 0 <= j < address@.len() implies #[trigger] g.ty(n + w + j) is Not && g.deps(n + w + j) == seq![address@[j]@] by {
                assert(g.deps(n + w + j) == h3.deps(n + w + j));
                assert(h3.deps(n + w + j) == h0.deps(n + w + j));
            }
            assert forall|i: int| 0 <= i < count implies #[trigger] g.ty(lines + i) is And
                && g.deps(lines + i) == line_deps(address@, n + w, i as nat, address@.len() as nat) by {
                assert(g.deps(lines + i) == h3.deps(lines + i));
                assert(h3.deps(lines + i) == h0.deps(lines + i));
            }
            assert forall|i: int| 0 <= i < c + 1 implies #[trigger] ram_cell_wiring(*g, cells + i * m, (lines + i) as usize,
                write@, read@, clock@, reset@, input@) by {
                let y = cells + i * m;
                if i < c {
                    assert(i * m + m <= c * m) by (nonlinear_arith)
                        requires i < c, m >= 0;
                    assert(0 <= i * m) by (nonlinear_arith)
                        requires 0 <= i, m >= 0;
                    assert forall|j: int| y <= j < y + m implies #[trigger] g.deps(j) == h0.deps(j) && g.ty(j) == h0.ty(j) by {
                        assert(g.deps(j) == h3.deps(j));
                        assert(h3.deps(j) == h0.deps(j));
                    }
                    lemma_ram_cell_wiring_kept(*g, h0, y, (lines + i) as usize, write@, read@, clock@, reset@, input@);
                } else {
                    assert forall|j: int| x <= j < x + m implies #[trigger] g.deps(j) == h3.deps(j) && g.ty(j) == h3.ty(j) by {}
                    lemma_ram_cell_wiring_kept(*g, h3, x, (lines + i) as usize, write@, read@, clock@, reset@, input@);
                }
            }
        }
        c = c + 1;
    }
    proof {
        assert forall|j: int| 0 <= j < outputs@.len() implies #[trigger] outputs@[j]@ < g.num_slots() by {
            assert(outputs@[j]@ == n + j);
        }
    }
    outputs
}

} // verus!
