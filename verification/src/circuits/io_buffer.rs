use crate::circuits::bus::Bus;
use crate::circuits::ram::{lemma_ram_wiring_kept, ram, ram_len, ram_wiring};
use crate::circuits::wire::Wire;
use crate::circuits::word_input::{fit_bits, WordInput};
use crate::data_structures::bit_iter::bytes_bits;
use crate::data_structures::bit_iter::ToBytes;
use crate::graph::gate::{gate_run, GateIndex};
use crate::graph::graph_builder::GateGraphBuilder;
use crate::graph::handles::{CircuitOutputHandle, LeverHandle};
use crate::graph::initialized_graph::InitializedGateGraph;
use vstd::prelude::*;

verus! {

/// True if the levers `levers` are distinct gates of `g`.
pub open spec fn lever_gates_distinct(g: &InitializedGateGraph, levers: Seq<LeverHandle>) -> bool {
    forall|a: int, b: int| 0 <= a < levers.len() && 0 <= b < levers.len() && a != b
        ==> g.lever_gate(levers[a]) != g.lever_gate(levers[b])
}

/// The number of times `n` can be halved before it drops to 1 or below: `floor(log2(n))` for
/// `n >= 1`, and 0 for 0.
pub open spec fn floor_log2(n: nat) -> nat
    decreases n,
{
    if n <= 1 { 0 } else { 1 + floor_log2(n / 2) }
}

/// Returns [floor_log2] of `n`.
pub fn address_width(n: usize) -> (r: usize)
    ensures
        r == floor_log2(n as nat),
        r < usize::BITS,
{
    let mut x: usize = n;
    let mut b: usize = 0;
    proof {
        vstd::arithmetic::power2::lemma2_to64();
    }
    while x > 1
        invariant
            b + floor_log2(x as nat) == floor_log2(n as nat),
            b < usize::BITS,
            x as nat * vstd::arithmetic::power2::pow2(b as nat) <= n,
        decreases x,
    {
        proof {
            vstd::arithmetic::power2::lemma_pow2_unfold((b + 1) as nat);
            vstd::arithmetic::power2::lemma2_to64();
            assert((x / 2) as nat * vstd::arithmetic::power2::pow2((b + 1) as nat) <= x as nat * vstd::arithmetic::power2::pow2(b as nat)) by (nonlinear_arith)
                requires
                    vstd::arithmetic::power2::pow2((b + 1) as nat) == 2 * vstd::arithmetic::power2::pow2(b as nat),
                    x > 1,
            ;
            if b + 1 >= usize::BITS {
                vstd::arithmetic::power2::lemma2_to64_rest();
                if usize::BITS == 32 {
                    if b + 1 > 32 {
                        vstd::arithmetic::power2::lemma_pow2_strictly_increases(32, (b + 1) as nat);
                    }
                } else {
                    if b + 1 > 64 {
                        vstd::arithmetic::power2::lemma_pow2_strictly_increases(64, (b + 1) as nat);
                    }
                }
                assert((x / 2) as nat >= 1);
                assert((x / 2) as nat * vstd::arithmetic::power2::pow2((b + 1) as nat) >= vstd::arithmetic::power2::pow2((b + 1) as nat)) by (nonlinear_arith)
                    requires (x / 2) as nat >= 1;
                assert(false);
            }
        }
        x = x / 2;
        b = b + 1;
    }
    b
}

/// True if the gates from `n` on in `g` are those of an [IOBuffer] of words of `w` bits with
/// `a` address bits: the levers of the input word and of the address, the word bus (each gate
/// reads its input lever and the RAM's output bit) and the address bus (each gate reads its
/// address lever), the clock, read, write and reset wires and their levers, and the RAM.
pub open spec fn io_buffer_wiring(g: GateGraphBuilder, n: int, w: int, a: int) -> bool {
    let b = n + w + a;
    let ab = b + w;
    let c = ab + a;
    let v = c + 4;
    let r = v + 4;
    &&& forall|k: int| 0 <= k < w + a ==> #[trigger] g.ty(n + k) is Lever && g.deps(n + k).len() == 0
    &&& forall|k: int| 0 <= k < w ==> #[trigger] g.ty(b + k) is Or && g.deps(b + k) == seq![(n + k) as usize, (r + k) as usize]
    &&& forall|k: int| 0 <= k < a ==> #[trigger] g.ty(ab + k) is Or && g.deps(ab + k) == seq![(n + w + k) as usize]
    &&& forall|i: int| 0 <= i < 4 ==> #[trigger] g.ty(c + i) is Or && g.deps(c + i) == seq![(v + i) as usize]
    &&& forall|i: int| 0 <= i < 4 ==> #[trigger] g.ty(v + i) is Lever && g.deps(v + i).len() == 0
    &&& ram_wiring(g, r, (c + 1) as usize, (c + 2) as usize, c as usize, (c + 3) as usize, gate_run(ab, a as nat), gate_run(b, w as nat))
}

/// A piece of RAM that Rust code can read and write between the clock cycles of the circuit
/// around it: `len` words of `width` bits, with levers for its address, its input word and its
/// clock, read, write and reset signals, and an output for the word read.
pub struct IOBuffer {
    io_bus: Bus,
    address_bus: Bus,
    clock: Wire,
    read: Wire,
    write: Wire,
    reset: Wire,
    write_input: WordInput,
    read_output: CircuitOutputHandle,
    address_input: WordInput,
}

impl IOBuffer {
    /// True if the buses and wires of the buffer belong to `g`.
    pub closed spec fn wf_in(&self, g: &GateGraphBuilder) -> bool {
        &&& self.io_bus.wf_in(g)
        &&& self.address_bus.wf_in(g)
        &&& self.clock.wf_in(g)
        &&& self.read.wf_in(g)
        &&& self.write.wf_in(g)
        &&& self.reset.wf_in(g)
    }

    /// The width of the words of the buffer.
    pub closed spec fn word_width(&self) -> nat {
        self.io_bus.gates().len()
    }

    /// The gates of the word bus of the buffer.
    pub closed spec fn word_bus(&self) -> Seq<GateIndex> {
        self.io_bus.gates()
    }

    /// The gates of the address bus of the buffer.
    pub closed spec fn address_bus(&self) -> Seq<GateIndex> {
        self.address_bus.gates()
    }

    /// The gates of the clock, read, write and reset wires of the buffer.
    pub closed spec fn wire_gates(&self) -> Seq<GateIndex> {
        seq![self.clock.gate(), self.read.gate(), self.write.gate(), self.reset.gate()]
    }

    /// The number of address bits of the buffer.
    pub closed spec fn address_bits(&self) -> nat {
        self.address_bus.gates().len()
    }

    /// True if every lever of the buffer is among `levers` levers and its output among
    /// `outputs` outputs.
    pub closed spec fn fits(&self, levers: nat, outputs: nat) -> bool {
        &&& self.clock.lever_of() matches Some(l) && l.handle < levers
        &&& self.read.lever_of() matches Some(l) && l.handle < levers
        &&& self.write.lever_of() matches Some(l) && l.handle < levers
        &&& self.reset.lever_of() matches Some(l) && l.handle < levers
        &&& forall|k: int| 0 <= k < self.write_input.handles().len() ==> #[trigger] self.write_input.handles()[k].handle < levers
        &&& forall|k: int| 0 <= k < self.address_input.handles().len() ==> #[trigger] self.address_input.handles()[k].handle < levers
        &&& self.read_output.0 < outputs
    }

    /// True if the levers and the output of the buffer are those of `g`.
    pub open spec fn fits_in(&self, g: &InitializedGateGraph) -> bool {
        self.fits(g.levers().len(), g.output_list().len())
    }

    /// The levers of the clock, read, write and reset signals, in that order.
    pub closed spec fn signal_levers(&self) -> Seq<LeverHandle> {
        seq![
            self.clock.lever_of().unwrap(),
            self.read.lever_of().unwrap(),
            self.write.lever_of().unwrap(),
            self.reset.lever_of().unwrap(),
        ]
    }

    /// The levers of the input word, least significant first.
    pub closed spec fn word_levers(&self) -> Seq<LeverHandle> {
        self.write_input.handles()
    }

    /// The levers of the address, least significant first.
    pub closed spec fn address_levers(&self) -> Seq<LeverHandle> {
        self.address_input.handles()
    }

    /// The gates of the output that the words are read from, in `g`.
    pub closed spec fn output_gates(&self, g: &InitializedGateGraph) -> Seq<GateIndex> {
        self.read_output.bits_in(g)
    }

    /// True if gate `i` of `g` sits under a lever of the input word or of the address.
    pub open spec fn input_lever_gate(&self, g: &InitializedGateGraph, i: int) -> bool {
        ||| exists|k: int| 0 <= k < self.word_levers().len() && g.lever_gate(self.word_levers()[k]) == i
        ||| exists|k: int| 0 <= k < self.address_levers().len() && g.lever_gate(self.address_levers()[k]) == i
    }

    /// True if the levers of the input word are distinct gates of `g`, and so are those of the
    /// address.
    pub open spec fn inputs_distinct_in(&self, g: &InitializedGateGraph) -> bool {
        lever_gates_distinct(g, self.word_levers()) && lever_gates_distinct(g, self.address_levers())
    }

    /// True if reading the word at the address `bytes` from `g` can give `v`: some graph that
    /// is `g` settled with read on and that address set shows `v` (see [IOBuffer::read_settled]).
    pub open spec fn reads(&self, g: InitializedGateGraph, bytes: Seq<u8>, v: u8) -> bool {
        exists|m: InitializedGateGraph| #[trigger] self.read_settled(m, g, bytes, v)
    }

    /// True if `m` is `g` settled with read on and the address `bytes` set: the same gates,
    /// stable, consistent where every gate is listed by its dependencies, the read lever on,
    /// the address levers holding the bits of `bytes` (those that are not the read lever, where
    /// the address levers are distinct gates), the other levers as in `g`; and `v` is the
    /// number that the first 8 output gates show in `m`.
    pub open spec fn read_settled(&self, m: InitializedGateGraph, g: InitializedGateGraph, bytes: Seq<u8>, v: u8) -> bool {
        let read = g.lever_gate(self.signal_levers()[1]);
        &&& m.wf()
        &&& m.same_structure(&g)
        &&& m.is_stable()
        &&& m.dependents_complete() ==> m.is_consistent()
        &&& m.states()[read]
        &&& forall|i: int| 0 <= i < g.num_gates() && g.ty(i) is Lever && i != read
            && !(exists|k: int| 0 <= k < self.address_levers().len() && g.lever_gate(self.address_levers()[k]) == i)
            ==> #[trigger] m.states()[i] == g.states()[i]
        &&& lever_gates_distinct(&g, self.address_levers()) ==> forall|k: int| 0 <= k < self.address_levers().len()
            && g.lever_gate(self.address_levers()[k]) != read
            ==> #[trigger] m.states()[g.lever_gate(self.address_levers()[k])]
            == fit_bits(bytes_bits(bytes), self.address_levers().len())[k]
        &&& v == m.word_value(self.output_gates(&m), 8)
    }

    /// A buffer of a graph stays a buffer of the graph as the graph grows.
    pub proof fn lemma_wf_grows(&self, g1: &GateGraphBuilder, g2: &GateGraphBuilder)
        requires
            self.wf_in(g1),
            g2.grows_from(g1),
        ensures
            self.wf_in(g2),
    {
        self.io_bus.lemma_wf_grows(g1, g2);
        self.address_bus.lemma_wf_grows(g1, g2);
        assert(g2.ty(self.clock.gate()@ as int) == g1.ty(self.clock.gate()@ as int));
        assert(g2.ty(self.read.gate()@ as int) == g1.ty(self.read.gate()@ as int));
        assert(g2.ty(self.write.gate()@ as int) == g1.ty(self.write.gate()@ as int));
        assert(g2.ty(self.reset.gate()@ as int) == g1.ty(self.reset.gate()@ as int));
    }

    /// Returns a new [IOBuffer] of `len` words of `width` bits; the address has
    /// `floor(log2(len))` bits.
    #[verifier::rlimit(100)]
    #[verifier::spinoff_prover]
    pub fn new(g: &mut GateGraphBuilder, width: usize, len: usize, name: &str) -> (r: IOBuffer)
        requires
            old(g).wf(),
        ensures
            final(g).wf(),
            final(g).output_list().len() == old(g).output_list().len() + 1,
            r.wf_in(final(g)),
            r.word_width() == width,
            r.address_bits() == floor_log2(len as nat),
            r.fits(final(g).levers().len(), final(g).output_list().len()),
            ({
                let n = old(g).num_slots() as int;
                let w = width as int;
                let a = floor_log2(len as nat) as int;
                let l = old(g).levers().len() as int;
                &&& final(g).keeps_deps(old(g))
                &&& io_buffer_wiring(*final(g), n, w, a)
                &&& final(g).num_slots() == n + 2 * w + 2 * a + 8 + ram_len(a as nat, w)
                &&& r.word_bus() == gate_run(n + w + a, w as nat)
                &&& r.address_bus() == gate_run(n + 2 * w + a, a as nat)
                &&& r.wire_gates() == gate_run(n + 2 * w + 2 * a, 4)
                &&& final(g).levers().len() == l + w + a + 4
                &&& forall|k: int| 0 <= k < w + a ==> #[trigger] final(g).levers()[l + k]@ == n + k
                &&& forall|i: int| 0 <= i < 4 ==> #[trigger] final(g).levers()[l + w + a + i]@ == n + 2 * w + 2 * a + 4 + i
                &&& final(g).output_list().last().bits@ == gate_run(n + w + a, w as nat)
            }),
    {
        let ghost g0 = *g;
        let write_input = WordInput::new(g, width, name);
        let ghost g1 = *g;
        let address_bits = address_width(len);
        let address_input = WordInput::new(g, address_bits, name);
        let ghost g2 = *g;
        let io_bus = Bus::new(g, width, name);
        let ghost g3 = *g;
        let write_bits = write_input.bits();
        proof {
            GateGraphBuilder::lemma_grows_trans(&g1, &g2, &g3);
            assert(g.all_in(write_bits@)) by {
                assert forall|k: int| 0 <= k < write_bits@.len() implies #[trigger] write_bits@[k]@ < g.num_slots() by {
                    assert(write_bits@[k] == write_input.handles()[k].idx);
                    assert(write_input.handles()[k].handle == g0.levers().len() + k);
                    assert(write_input.handles()[k].idx@ == g0.num_slots() + k);
                }
            }
        }
        io_bus.connect(g, write_bits.as_slice());
        let ghost g4 = *g;
        let address_bus = Bus::new(g, address_bits, name);
        let ghost g5 = *g;
        let address_bits_in = address_input.bits();
        proof {
            GateGraphBuilder::lemma_grows_trans(&g2, &g3, &g4);
            GateGraphBuilder::lemma_grows_trans(&g2, &g4, &g5);
            assert(g.all_in(address_bits_in@)) by {
                assert forall|k: int| 0 <= k < address_bits_in@.len() implies #[trigger] address_bits_in@[k]@ < g.num_slots() by {
                    assert(address_bits_in@[k] == address_input.handles()[k].idx);
                    assert(address_input.handles()[k].handle == g1.levers().len() + k);
                    assert(address_input.handles()[k].idx@ == g1.num_slots() + k);
                }
            }
        }
        address_bus.connect(g, address_bits_in.as_slice());
        let ghost g6 = *g;
        proof {
            GateGraphBuilder::lemma_grows_trans(&g3, &g4, &g5);
            GateGraphBuilder::lemma_grows_trans(&g3, &g5, &g6);
            io_bus.lemma_wf_grows(&g3, &g6);
            address_bus.lemma_wf_grows(&g5, &g6);
            assert(g.all_in(io_bus.gates()));
        }
        let read_output = g.output(io_bus.bits(), name);
        let ghost g7 = *g;
        proof {
            assert(g7.levers() == g6.levers());
            assert(g7.slots() == g6.slots());
            assert(io_bus.wf_in(&g7));
            assert(address_bus.wf_in(&g7));
        }
        let mut clock = Wire::new(g, "clock");
        let ghost g8 = *g;
        let mut read = Wire::new(g, "read");
        let ghost g9 = *g;
        let mut write = Wire::new(g, "write");
        let ghost g10 = *g;
        let mut reset = Wire::new(g, "reset");
        let ghost g11 = *g;
        proof {
            GateGraphBuilder::lemma_grows_trans(&g8, &g9, &g10);
            GateGraphBuilder::lemma_grows_trans(&g8, &g10, &g11);
            GateGraphBuilder::lemma_grows_trans(&g9, &g10, &g11);
            assert(g.ty(clock.gate()@ as int) == g8.ty(clock.gate()@ as int));
            assert(g.ty(read.gate()@ as int) == g9.ty(read.gate()@ as int));
            assert(g.ty(write.gate()@ as int) == g10.ty(write.gate()@ as int));
        }
        let clock_lever = clock.make_lever(g);
        let ghost g12 = *g;
        proof {
            assert(g.ty(read.gate()@ as int) == g11.ty(read.gate()@ as int));
            assert(g.ty(write.gate()@ as int) == g11.ty(write.gate()@ as int));
            assert(g.ty(reset.gate()@ as int) == g11.ty(reset.gate()@ as int));
        }
        let read_lever = read.make_lever(g);
        let ghost g13 = *g;
        proof {
            assert(g.ty(write.gate()@ as int) == g12.ty(write.gate()@ as int));
            assert(g.ty(reset.gate()@ as int) == g12.ty(reset.gate()@ as int));
        }
        let write_lever = write.make_lever(g);
        let ghost g14 = *g;
        proof {
            assert(g.ty(reset.gate()@ as int) == g13.ty(reset.gate()@ as int));
        }
        let reset_lever = reset.make_lever(g);
        let ghost g15 = *g;
        proof {
            GateGraphBuilder::lemma_grows_trans(&g7, &g8, &g11);
            GateGraphBuilder::lemma_grows_trans(&g7, &g11, &g12);
            GateGraphBuilder::lemma_grows_trans(&g7, &g12, &g13);
            GateGraphBuilder::lemma_grows_trans(&g7, &g13, &g14);
            GateGraphBuilder::lemma_grows_trans(&g7, &g14, &g15);
            io_bus.lemma_wf_grows(&g7, &g15);
            address_bus.lemma_wf_grows(&g7, &g15);
            GateGraphBuilder::lemma_grows_trans(&g12, &g13, &g14);
            GateGraphBuilder::lemma_grows_trans(&g12, &g14, &g15);
            GateGraphBuilder::lemma_grows_trans(&g13, &g14, &g15);
            assert(g.ty(clock.gate()@ as int) == g12.ty(clock.gate()@ as int));
            assert(g.ty(read.gate()@ as int) == g13.ty(read.gate()@ as int));
            assert(g.ty(write.gate()@ as int) == g14.ty(write.gate()@ as int));
            assert(g.all_in(address_bus.gates()));
            assert(g.all_in(io_bus.gates()));
        }
        let ram_output = ram(g, read.bit(), write.bit(), clock.bit(), reset.bit(), address_bus.bits(), io_bus.bits(), name);
        let ghost g16 = *g;
        proof {
            io_bus.lemma_wf_grows(&g15, &g16);
        }
        io_bus.connect(g, ram_output.as_slice());
        proof {
            GateGraphBuilder::lemma_grows_trans(&g15, &g16, g);
            GateGraphBuilder::lemma_grows_trans(&g7, &g15, g);
            io_bus.lemma_wf_grows(&g15, g);
            address_bus.lemma_wf_grows(&g15, g);
            assert(g.ty(clock.gate()@ as int) == g15.ty(clock.gate()@ as int));
            assert(g.ty(read.gate()@ as int) == g15.ty(read.gate()@ as int));
            assert(g.ty(write.gate()@ as int) == g15.ty(write.gate()@ as int));
            assert(g.ty(reset.gate()@ as int) == g15.ty(reset.gate()@ as int));
            GateGraphBuilder::lemma_grows_trans(&g0, &g1, &g2);
            GateGraphBuilder::lemma_grows_trans(&g0, &g2, &g6);
            assert(g7.levers().len() == g6.levers().len());
        }
        proof {
            let n = g0.num_slots() as int;
            let w = width as int;
            let a = address_bits as int;
            let l = g0.levers().len() as int;
            let b = n + w + a;
            let ab = b + w;
            let c = ab + a;
            let v = c + 4;
            let r = v + 4;
            GateGraphBuilder::lemma_grows_trans(&g2, &g5, &g6);
            GateGraphBuilder::lemma_grows_trans(&g1, &g2, &g6);
            GateGraphBuilder::lemma_grows_trans(&g11, &g12, &g13);
            GateGraphBuilder::lemma_grows_trans(&g11, &g13, &g14);
            GateGraphBuilder::lemma_grows_trans(&g11, &g14, &g15);
            GateGraphBuilder::lemma_grows_trans(&g11, &g15, g);
            GateGraphBuilder::lemma_grows_trans(&g8, &g11, g);
            GateGraphBuilder::lemma_grows_trans(&g9, &g11, g);
            GateGraphBuilder::lemma_grows_trans(&g10, &g11, g);
            GateGraphBuilder::lemma_grows_trans(&g12, &g15, g);
            GateGraphBuilder::lemma_grows_trans(&g13, &g15, g);
            GateGraphBuilder::lemma_grows_trans(&g14, &g15, g);
            assert(g7.slots() == g6.slots());
            assert(g2.num_slots() == b);
            assert(g3.num_slots() == ab);
            assert(g5.num_slots() == c);
            assert(g6.num_slots() == c);
            assert(g7.num_slots() == c);
            assert(g11.num_slots() == v);
            assert(g15.num_slots() == r);
            assert(clock.gate()@ == c && read.gate()@ == c + 1 && write.gate()@ == c + 2 && reset.gate()@ == c + 3);
            // Which gates each step changes.
            assert forall|j: int| 0 <= j < g.num_slots() && !io_bus.holds_gate(j) && j < g16.num_slots() implies #[trigger] g.deps(j) == g16.deps(j) by {}
            assert forall|j: int| 0 <= j < g15.num_slots() implies #[trigger] g16.deps(j) == g15.deps(j) by {}
            assert forall|j: int| 0 <= j < g14.num_slots() && j != c + 3 implies #[trigger] g15.deps(j) == g14.deps(j) by {}
            assert forall|j: int| 0 <= j < g13.num_slots() && j != c + 2 implies #[trigger] g14.deps(j) == g13.deps(j) by {}
            assert forall|j: int| 0 <= j < g12.num_slots() && j != c + 1 implies #[trigger] g13.deps(j) == g12.deps(j) by {}
            assert forall|j: int| 0 <= j < g11.num_slots() && j != c implies #[trigger] g12.deps(j) == g11.deps(j) by {}
            assert forall|j: int| 0 <= j < g10.num_slots() implies #[trigger] g11.deps(j) == g10.deps(j) by {
                assert(g11.ty(j) == g10.ty(j));
            }
            assert forall|j: int| 0 <= j < g9.num_slots() implies #[trigger] g10.deps(j) == g9.deps(j) by {
                assert(g10.ty(j) == g9.ty(j));
            }
            assert forall|j: int| 0 <= j < g8.num_slots() implies #[trigger] g9.deps(j) == g8.deps(j) by {
                assert(g9.ty(j) == g8.ty(j));
            }
            assert forall|j: int| 0 <= j < g7.num_slots() implies #[trigger] g8.deps(j) == g7.deps(j) by {
                assert(g8.ty(j) == g7.ty(j));
            }
            assert forall|j: int| 0 <= j < g6.num_slots() implies #[trigger] g7.deps(j) == g6.deps(j) by {}
            // The io bus and the address bus hold the gates from b and from ab on.
            assert forall|j: int| io_bus.holds_gate(j) implies b <= j < b + w by {
                let k = choose|k: int| 0 <= k < io_bus.gates().len() && io_bus.gates()[k]@ == j;
                assert(io_bus.gates()[k]@ == b + k);
            }
            assert forall|j: int| address_bus.holds_gate(j) implies ab <= j < ab + a by {
                let k = choose|k: int| 0 <= k < address_bus.gates().len() && address_bus.gates()[k]@ == j;
                assert(address_bus.gates()[k]@ == ab + k);
            }
            // From the wires on, everything but the io bus keeps what it had after the address bus.
            assert forall|j: int| 0 <= j < c && !(b <= j < b + w) implies #[trigger] g.deps(j) == g6.deps(j) by {
                if io_bus.holds_gate(j) {}
                assert(g.deps(j) == g16.deps(j));
                assert(g16.deps(j) == g15.deps(j));
                assert(g15.deps(j) == g14.deps(j));
                assert(g14.deps(j) == g13.deps(j));
                assert(g13.deps(j) == g12.deps(j));
                assert(g12.deps(j) == g11.deps(j));
                assert(g11.deps(j) == g10.deps(j));
                assert(g10.deps(j) == g9.deps(j));
                assert(g9.deps(j) == g8.deps(j));
                assert(g8.deps(j) == g7.deps(j));
                assert(g7.deps(j) == g6.deps(j));
            }
            // The levers of the input word and of the address.
            assert forall|k: int| 0 <= k < w + a implies #[trigger] g.ty(n + k) is Lever && g.deps(n + k).len() == 0 by {
                let j = n + k;
                if k < w {
                    assert(g1.ty(j) is Lever && g1.deps(j).len() == 0);
                    assert(g2.deps(j) == g1.deps(j));
                    assert(g6.ty(j) == g1.ty(j));
                } else {
                    assert(g2.ty(j) is Lever && g2.deps(j).len() == 0);
                    assert(g6.ty(j) == g2.ty(j));
                }
                assert(g7.ty(j) == g6.ty(j));
                assert(g.ty(j) == g7.ty(j));
                if io_bus.holds_gate(j) {}
                if address_bus.holds_gate(j) {}
                assert(g3.deps(j) == g2.deps(j));
                assert(g4.deps(j) == g3.deps(j));
                assert(g5.deps(j) == g4.deps(j));
                assert(g6.deps(j) == g5.deps(j));
                assert(g.deps(j) == g6.deps(j));
            }
            // The io bus.
            assert forall|k: int| 0 <= k < w implies #[trigger] g.ty(b + k) is Or
                && g.deps(b + k) == seq![(n + k) as usize, (r + k) as usize] by {
                let j = b + k;
                assert(io_bus.gates()[k]@ == j);
                assert(g3.ty(j) is Or && g3.deps(j).len() == 0);
                assert(write_bits@[k] == write_input.handles()[k].idx);
                assert(write_input.handles()[k].handle == g0.levers().len() + k);
                assert(g6.ty(j) == g3.ty(j));
                assert(g7.ty(j) == g6.ty(j));
                assert(g.ty(j) == g7.ty(j));
                assert(g4.deps(j) == g3.deps(j).push(write_bits@[k]@));
                assert(g5.deps(j) == g4.deps(j));
                if address_bus.holds_gate(j) {}
                assert(g6.deps(j) == g5.deps(j));
                assert(g7.deps(j) == g6.deps(j));
                assert(g8.deps(j) == g7.deps(j));
                assert(g9.deps(j) == g8.deps(j));
                assert(g10.deps(j) == g9.deps(j));
                assert(g11.deps(j) == g10.deps(j));
                assert(g12.deps(j) == g11.deps(j));
                assert(g13.deps(j) == g12.deps(j));
                assert(g14.deps(j) == g13.deps(j));
                assert(g15.deps(j) == g14.deps(j));
                assert(g16.deps(j) == g15.deps(j));
                assert(ram_output@[k]@ == r + k);
                assert(g.deps(j) == g16.deps(j).push(ram_output@[k]@));
                assert(g.deps(j) =~= seq![(n + k) as usize, (r + k) as usize]);
            }
            // The address bus.
            assert forall|k: int| 0 <= k < a implies #[trigger] g.ty(ab + k) is Or
                && g.deps(ab + k) == seq![(n + w + k) as usize] by {
                let j = ab + k;
                assert(address_bus.gates()[k]@ == j);
                assert(g5.ty(j) is Or && g5.deps(j).len() == 0);
                assert(address_bits_in@[k] == address_input.handles()[k].idx);
                assert(address_input.handles()[k].handle == g1.levers().len() + k);
                assert(g7.ty(j) == g6.ty(j));
                assert(g.ty(j) == g7.ty(j));
                assert(g6.deps(j) == g5.deps(j).push(address_bits_in@[k]@));
                if io_bus.holds_gate(j) {}
                assert(g.deps(j) == g6.deps(j));
                assert(g.deps(j) =~= seq![(n + w + k) as usize]);
            }
            // The wires and their levers.
            assert(g12.deps(c) == g11.deps(c).push(clock_lever.idx@));
            assert(g13.deps(c + 1) == g12.deps(c + 1).push(read_lever.idx@));
            assert(g14.deps(c + 2) == g13.deps(c + 2).push(write_lever.idx@));
            assert(g15.deps(c + 3) == g14.deps(c + 3).push(reset_lever.idx@));
            assert forall|i: int| 0 <= i < 4 implies #[trigger] g.ty(c + i) is Or && g.deps(c + i) == seq![(v + i) as usize] by {
                let j = c + i;
                assert(g8.deps(c).len() == 0);
                assert(g9.deps(c + 1).len() == 0);
                assert(g10.deps(c + 2).len() == 0);
                assert(g11.deps(c + 3).len() == 0);
                assert(g9.deps(c) == g8.deps(c));
                assert(g10.deps(c) == g9.deps(c));
                assert(g11.deps(c) == g10.deps(c));
                assert(g10.deps(c + 1) == g9.deps(c + 1));
                assert(g11.deps(c + 1) == g10.deps(c + 1));
                assert(g11.deps(c + 2) == g10.deps(c + 2));
                assert(g12.deps(c + 1) == g11.deps(c + 1));
                assert(g12.deps(c + 2) == g11.deps(c + 2));
                assert(g12.deps(c + 3) == g11.deps(c + 3));
                assert(g13.deps(c) == g12.deps(c));
                assert(g13.deps(c + 2) == g12.deps(c + 2));
                assert(g13.deps(c + 3) == g12.deps(c + 3));
                assert(g14.deps(c) == g13.deps(c));
                assert(g14.deps(c + 1) == g13.deps(c + 1));
                assert(g14.deps(c + 3) == g13.deps(c + 3));
                assert(g15.deps(j) == g14.deps(j) || i == 3);
                assert(g15.deps(c) == g14.deps(c));
                assert(g15.deps(c + 1) == g14.deps(c + 1));
                assert(g15.deps(c + 2) == g14.deps(c + 2));
                assert(g16.deps(j) == g15.deps(j));
                if io_bus.holds_gate(j) {}
                assert(g.deps(j) == g16.deps(j));
                assert(g.deps(j) =~= seq![(v + i) as usize]);
            }
            assert forall|i: int| 0 <= i < 4 implies #[trigger] g.ty(v + i) is Lever && g.deps(v + i).len() == 0 by {
                let j = v + i;
                assert(g12.ty(v) is Lever && g12.deps(v).len() == 0);
                assert(g13.ty(v + 1) is Lever && g13.deps(v + 1).len() == 0);
                assert(g14.ty(v + 2) is Lever && g14.deps(v + 2).len() == 0);
                assert(g15.ty(v + 3) is Lever && g15.deps(v + 3).len() == 0);
                assert(g13.deps(v) == g12.deps(v));
                assert(g14.deps(v) == g13.deps(v));
                assert(g14.deps(v + 1) == g13.deps(v + 1));
                assert(g15.deps(v) == g14.deps(v));
                assert(g15.deps(v + 1) == g14.deps(v + 1));
                assert(g15.deps(v + 2) == g14.deps(v + 2));
                assert(g16.deps(j) == g15.deps(j));
                if io_bus.holds_gate(j) {}
                assert(g.deps(j) == g16.deps(j));
            }
            // The RAM.
            assert(io_bus.gates() =~= gate_run(b, w as nat)) by {
                assert forall|k: int| 0 <= k < w implies io_bus.gates()[k] == gate_run(b, w as nat)[k] by {
                    assert(io_bus.gates()[k]@ == b + k);
                }
            }
            assert(address_bus.gates() =~= gate_run(ab, a as nat)) by {
                assert forall|k: int| 0 <= k < a implies address_bus.gates()[k] == gate_run(ab, a as nat)[k] by {
                    assert(address_bus.gates()[k]@ == ab + k);
                }
            }
            assert(ram_wiring(*g, r, (c + 1) as usize, (c + 2) as usize, c as usize, (c + 3) as usize,
                gate_run(ab, a as nat), gate_run(b, w as nat))) by {
                assert(ram_wiring(g16, r, (c + 1) as usize, (c + 2) as usize, c as usize, (c + 3) as usize,
                    gate_run(ab, a as nat), gate_run(b, w as nat)));
                assert forall|j: int| r <= j < r + ram_len(a as nat, w) implies #[trigger] g.deps(j) == g16.deps(j) && g.ty(j) == g16.ty(j) by {
                    if io_bus.holds_gate(j) {}
                }
                lemma_ram_wiring_kept(*g, g16, r, (c + 1) as usize, (c + 2) as usize, c as usize, (c + 3) as usize,
                    gate_run(ab, a as nat), gate_run(b, w as nat));
            }
            assert(io_buffer_wiring(*g, n, w, a));
            assert(g.num_slots() == n + 2 * w + 2 * a + 8 + ram_len(a as nat, w));
            assert(seq![clock.gate(), read.gate(), write.gate(), reset.gate()] =~= gate_run(c, 4)) by {
                assert(gate_run(c, 4)[0] == clock.gate());
                assert(gate_run(c, 4)[1] == read.gate());
                assert(gate_run(c, 4)[2] == write.gate());
                assert(gate_run(c, 4)[3] == reset.gate());
            }
            // The levers.
            assert(g7.levers() == g6.levers());
            assert(g11.levers() == g7.levers());
            assert(g12.levers() == g11.levers().push(clock_lever.idx));
            assert(g13.levers() == g12.levers().push(read_lever.idx));
            assert(g14.levers() == g13.levers().push(write_lever.idx));
            assert(g15.levers() == g14.levers().push(reset_lever.idx));
            assert(g.levers() == g15.levers());
            assert(g6.levers().len() == l + w + a);
            assert forall|k: int| 0 <= k < w + a implies #[trigger] g.levers()[l + k]@ == n + k by {
                assert(g.levers()[l + k] == g7.levers()[l + k]);
                if k < w {
                    assert(write_input.handles()[k].handle == l + k);
                    assert(g6.levers()[l + k] == g1.levers()[l + k]);
                } else {
                    assert(address_input.handles()[k - w].handle == g1.levers().len() + (k - w));
                    assert(g6.levers()[l + k] == g2.levers()[l + k]);
                }
            }
            assert forall|i: int| 0 <= i < 4 implies #[trigger] g.levers()[l + w + a + i]@ == v + i by {}
            assert(g.output_list() == g7.output_list());
            assert(g.keeps_deps(&g0)) by {
                assert forall|j: int| 0 <= j < n implies #[trigger] g.deps(j) == g0.deps(j) by {
                    assert(g.deps(j) == g6.deps(j));
                    if io_bus.holds_gate(j) {}
                    if address_bus.holds_gate(j) {}
                    assert(g6.deps(j) == g5.deps(j));
                    assert(g5.deps(j) == g4.deps(j));
                    assert(g4.deps(j) == g3.deps(j));
                    assert(g3.deps(j) == g2.deps(j));
                    assert(g2.deps(j) == g1.deps(j));
                    assert(g1.deps(j) == g0.deps(j));
                }
            }
        }
        IOBuffer { write_input, address_input, io_bus, address_bus, read_output, clock, read, write, reset }
    }

    /// Connects the buffer to a circuit: `clock`, `read`, `write` and `reset` drive its
    /// signals, `address` its address, and `io_bus` its words both ways. Returns its word bus.
    pub fn connect(
        &self,
        g: &mut GateGraphBuilder,
        clock: GateIndex,
        read: GateIndex,
        write: GateIndex,
        reset: GateIndex,
        address: &[GateIndex],
        io_bus: Bus,
    ) -> (r: Bus)
        requires
            old(g).wf(),
            self.wf_in(old(g)),
            clock@ < old(g).num_slots(),
            read@ < old(g).num_slots(),
            write@ < old(g).num_slots(),
            reset@ < old(g).num_slots(),
            old(g).all_in(address@),
            address@.len() == self.address_bits(),
            old(g).all_in(io_bus.gates()),
            io_bus.gates().len() == self.word_width(),
        ensures
            final(g).grows_from(old(g)),
            final(g).num_slots() == old(g).num_slots(),
            final(g).levers() == old(g).levers(),
            self.wf_in(final(g)),
            r.gates() == self.word_bus(),
    {
        let ghost g0 = *g;
        self.address_bus.connect(g, address);
        let ghost g1 = *g;
        proof { self.lemma_wf_grows(&g0, &g1); }
        self.clock.connect(g, clock);
        let ghost g2 = *g;
        proof { self.lemma_wf_grows(&g1, &g2); }
        self.read.connect(g, read);
        let ghost g3 = *g;
        proof { self.lemma_wf_grows(&g2, &g3); }
        self.write.connect(g, write);
        let ghost g4 = *g;
        proof { self.lemma_wf_grows(&g3, &g4); }
        self.reset.connect(g, reset);
        let ghost g5 = *g;
        proof { self.lemma_wf_grows(&g4, &g5); }
        let r = self.io_bus.merge(g, io_bus);
        proof {
            self.lemma_wf_grows(&g5, g);
            GateGraphBuilder::lemma_grows_trans(&g0, &g1, &g2);
            GateGraphBuilder::lemma_grows_trans(&g0, &g2, &g3);
            GateGraphBuilder::lemma_grows_trans(&g0, &g3, &g4);
            GateGraphBuilder::lemma_grows_trans(&g0, &g4, &g5);
            GateGraphBuilder::lemma_grows_trans(&g0, &g5, g);
        }
        r
    }

    /// Sets the address and the input word to 0, and runs the graph until it is stable (10
    /// ticks at most).
    fn reset_inputs(&self, g: &mut InitializedGateGraph) -> (r: Result<(), &'static str>)
        requires
            old(g).wf(),
            self.fits_in(old(g)),
        ensures
            final(g).wf(),
            final(g).same_structure(old(g)),
            r is Ok ==> final(g).is_stable(),
            forall|i: int| 0 <= i < old(g).num_gates() && old(g).ty(i) is Lever && !self.input_lever_gate(old(g), i)
                ==> #[trigger] final(g).states()[i] == old(g).states()[i],
            self.inputs_distinct_in(old(g)) ==> forall|i: int| 0 <= i < old(g).num_gates()
                && #[trigger] self.input_lever_gate(old(g), i) ==> !final(g).states()[i],
    {
        let ghost g0 = *g;
        self.address_input.reset(g);
        let ghost g1 = *g;
        self.write_input.reset(g);
        let ghost g2 = *g;
        let r = match g.run_until_stable(10) {
            Ok(_) => Ok(()),
            Err(e) => Err(e),
        };
        proof {
            assert(g1.levers() == g0.levers() && g2.levers() == g0.levers());
            assert forall|i: int| 0 <= i < g0.num_gates() && g0.ty(i) is Lever && !self.input_lever_gate(&g0, i)
                implies #[trigger] g.states()[i] == g0.states()[i] by {
                assert(g1.ty(i) is Lever && g2.ty(i) is Lever);
                assert(!self.address_input.holds_lever_gate(&g0, i));
                assert(!self.write_input.holds_lever_gate(&g1, i));
            }
            if self.inputs_distinct_in(&g0) {
                assert(self.address_input.distinct_in(&g0));
                assert(self.write_input.distinct_in(&g1));
                assert forall|i: int| 0 <= i < g0.num_gates() && #[trigger] self.input_lever_gate(&g0, i)
                    implies !g.states()[i] by {
                    if exists|k: int| 0 <= k < self.word_levers().len() && g0.lever_gate(self.word_levers()[k]) == i {
                        let k = choose|k: int| 0 <= k < self.word_levers().len() && g0.lever_gate(self.word_levers()[k]) == i;
                        assert(!g2.states()[g1.lever_gate(self.write_input.handles()[k])]);
                        g0.lemma_lever_gate(self.word_levers()[k]);
                        assert(g2.ty(i) is Lever);
                    } else {
                        let k = choose|k: int| 0 <= k < self.address_levers().len() && g0.lever_gate(self.address_levers()[k]) == i;
                        assert(!g1.states()[g0.lever_gate(self.address_input.handles()[k])]);
                        g0.lemma_lever_gate(self.address_levers()[k]);
                        assert(!self.write_input.holds_lever_gate(&g1, i));
                        assert(g1.ty(i) is Lever);
                        assert(g2.ty(i) is Lever);
                    }
                }
            }
        }
        r
    }

    /// Stores `value` in the word at `address`: sets the inputs, pulses the clock with write
    /// active, and resets the inputs. Extra bits of `address` or `value` are ignored and
    /// missing ones are 0. Fails if the graph does not settle within 10 ticks.
    pub fn write<A: ToBytes, T: ToBytes>(&self, g: &mut InitializedGateGraph, address: A, value: T) -> (r: Result<(), &'static str>)
        requires
            old(g).wf(),
            self.fits_in(old(g)),
            address.spec_bytes().len() * 8 <= u16::MAX,
            value.spec_bytes().len() * 8 <= u16::MAX,
        ensures
            final(g).wf(),
            final(g).same_structure(old(g)),
            r is Ok ==> final(g).is_stable(),
            forall|i: int| 0 <= i < old(g).num_gates() && old(g).ty(i) is Lever && !self.input_lever_gate(old(g), i)
                && i != old(g).lever_gate(self.signal_levers()[0]) && i != old(g).lever_gate(self.signal_levers()[2])
                ==> #[trigger] final(g).states()[i] == old(g).states()[i],
            self.inputs_distinct_in(old(g)) ==> forall|i: int| 0 <= i < old(g).num_gates()
                && #[trigger] self.input_lever_gate(old(g), i) ==> !final(g).states()[i],
            self.inputs_distinct_in(old(g)) ==> !final(g).states()[old(g).lever_gate(self.signal_levers()[0])]
                && !final(g).states()[old(g).lever_gate(self.signal_levers()[2])],
    {
        let ghost g0 = *g;
        self.write_input.set_to(g, value);
        let ghost g1 = *g;
        self.address_input.set_to(g, address);
        let ghost g2 = *g;
        let write_lever = self.write.lever().unwrap();
        let clock_lever = self.clock.lever().unwrap();
        g.set_lever(write_lever);
        let ghost g3 = *g;
        let pulsed = g.pulse_lever_stable(clock_lever);
        let ghost g4 = *g;
        let released = g.reset_lever_stable(write_lever);
        let ghost g5 = *g;
        let cleared = self.reset_inputs(g);
        proof {
            let c = g0.lever_gate(self.signal_levers()[0]);
            let w = g0.lever_gate(self.signal_levers()[2]);
            assert(g1.levers() == g0.levers() && g2.levers() == g0.levers() && g3.levers() == g0.levers());
            assert(g4.levers() == g0.levers() && g5.levers() == g0.levers());
            g0.lemma_lever_gate(self.signal_levers()[0]);
            g0.lemma_lever_gate(self.signal_levers()[2]);
            assert forall|i: int| 0 <= i < g0.num_gates() && g0.ty(i) is Lever && !self.input_lever_gate(&g0, i)
                && i != c && i != w implies #[trigger] g.states()[i] == g0.states()[i] by {
                assert(self.address_levers() == self.address_input.handles());
                assert(self.word_levers() == self.write_input.handles());
                assert(!self.write_input.holds_lever_gate(&g0, i));
                assert(!self.address_input.holds_lever_gate(&g0, i)) by {
                    assert forall|k: int| 0 <= k < self.address_input.handles().len()
                        implies g0.lever_gate(self.address_input.handles()[k]) != i by {
                        assert(self.address_levers()[k] == self.address_input.handles()[k]);
                    }
                }
                assert(!self.address_input.holds_lever_gate(&g1, i)) by {
                    assert forall|k: int| 0 <= k < self.address_input.handles().len()
                        implies g1.lever_gate(self.address_input.handles()[k]) != i by {
                        assert(g1.lever_gate(self.address_input.handles()[k]) == g0.lever_gate(self.address_input.handles()[k]));
                    }
                }
                assert(g1.ty(i) is Lever && g2.ty(i) is Lever && g3.ty(i) is Lever && g4.ty(i) is Lever && g5.ty(i) is Lever);
                assert(!self.input_lever_gate(&g5, i));
            }
            if self.inputs_distinct_in(&g0) {
                assert(self.inputs_distinct_in(&g5));
                assert forall|i: int| 0 <= i < g0.num_gates() && #[trigger] self.input_lever_gate(&g0, i)
                    implies !g.states()[i] by {
                    assert(self.input_lever_gate(&g5, i));
                }
                assert(!g4.states()[c]);
                assert(!g5.states()[c]) by {
                    if c != w { assert(g4.ty(c) is Lever); }
                }
                assert(!g5.states()[w]);
                if self.input_lever_gate(&g5, c) {} else { assert(g5.ty(c) is Lever); }
                if self.input_lever_gate(&g5, w) {} else { assert(g5.ty(w) is Lever); }
            }
        }
        match (pulsed, released) {
            (Err(e), _) => Err(e),
            (_, Err(e)) => Err(e),
            _ => cleared,
        }
    }

    /// Returns the value of the word at `address`, as a `u8`: sets the address, activates
    /// read until the graph settles, reads the output, and resets the inputs. Extra bits of
    /// `address` are ignored and missing ones are 0. Fails if the graph does not settle within
    /// 10 ticks.
    pub fn read_u8<A: ToBytes>(&self, g: &mut InitializedGateGraph, address: A) -> (r: Result<u8, &'static str>)
        requires
            old(g).wf(),
            self.fits_in(old(g)),
            address.spec_bytes().len() * 8 <= u16::MAX,
        ensures
            final(g).wf(),
            final(g).same_structure(old(g)),
            r matches Ok(v) ==> self.reads(*old(g), address.spec_bytes(), v),
            forall|i: int| 0 <= i < old(g).num_gates() && old(g).ty(i) is Lever && !self.input_lever_gate(old(g), i)
                && i != old(g).lever_gate(self.signal_levers()[1]) ==> #[trigger] final(g).states()[i] == old(g).states()[i],
            self.inputs_distinct_in(old(g)) ==> forall|i: int| 0 <= i < old(g).num_gates()
                && #[trigger] self.input_lever_gate(old(g), i) ==> !final(g).states()[i],
            self.inputs_distinct_in(old(g)) ==> !final(g).states()[old(g).lever_gate(self.signal_levers()[1])],
    {
        let ghost g0 = *g;
        self.address_input.set_to(g, address);
        let ghost g1 = *g;
        let read_lever = self.read.lever().unwrap();
        let raised = g.set_lever_stable(read_lever);
        let ghost g2 = *g;
        proof {
            g.lemma_output_bits(self.read_output.0 as int);
        }
        let output = self.read_output.u8(g);
        let lowered = g.reset_lever_stable(read_lever);
        let ghost g3 = *g;
        let cleared = self.reset_inputs(g);
        proof {
            let rd = g0.lever_gate(self.signal_levers()[1]);
            assert(g1.levers() == g0.levers() && g2.levers() == g0.levers() && g3.levers() == g0.levers());
            g0.lemma_lever_gate(self.signal_levers()[1]);
            assert forall|i: int| 0 <= i < g0.num_gates() && g0.ty(i) is Lever && !self.input_lever_gate(&g0, i)
                && i != rd implies #[trigger] g.states()[i] == g0.states()[i] by {
                assert(!self.address_input.holds_lever_gate(&g0, i));
                assert(g1.ty(i) is Lever && g2.ty(i) is Lever && g3.ty(i) is Lever);
                assert(!self.input_lever_gate(&g3, i));
            }
            if self.inputs_distinct_in(&g0) {
                assert(self.inputs_distinct_in(&g3));
                assert forall|i: int| 0 <= i < g0.num_gates() && #[trigger] self.input_lever_gate(&g0, i)
                    implies !g.states()[i] by {
                    assert(self.input_lever_gate(&g3, i));
                }
                assert(!g3.states()[rd]);
                if self.input_lever_gate(&g3, rd) {} else { assert(g3.ty(rd) is Lever); }
            }
            if raised is Ok {
                assert forall|i: int| 0 <= i < g0.num_gates() && g0.ty(i) is Lever && i != rd
                    && !(exists|k: int| 0 <= k < self.address_levers().len() && g0.lever_gate(self.address_levers()[k]) == i)
                    implies #[trigger] g2.states()[i] == g0.states()[i] by {
                    assert(!self.address_input.holds_lever_gate(&g0, i));
                    assert(g1.ty(i) is Lever);
                }
                if lever_gates_distinct(&g0, self.address_levers()) {
                    assert(self.address_input.distinct_in(&g0));
                    assert forall|k: int| 0 <= k < self.address_levers().len()
                        && g0.lever_gate(self.address_levers()[k]) != rd
                        implies #[trigger] g2.states()[g0.lever_gate(self.address_levers()[k])]
                        == fit_bits(bytes_bits(address.spec_bytes()), self.address_levers().len())[k] by {
                        g0.lemma_lever_gate(self.address_levers()[k]);
                        assert(g1.ty(g0.lever_gate(self.address_levers()[k])) is Lever);
                    }
                }
                assert(self.read_settled(g2, g0, address.spec_bytes(), output));
            }
        }
        let r = match (raised, lowered, cleared) {
            (Err(e), _, _) => Err(e),
            (_, Err(e), _) => Err(e),
            (_, _, Err(e)) => Err(e),
            _ => Ok(output),
        };
        proof {
            if r is Ok {
                assert(raised is Ok);
                assert(r == Ok::<u8, &'static str>(output));
                assert(self.read_settled(g2, g0, address.spec_bytes(), output));
                assert(self.reads(g0, address.spec_bytes(), output));
            }
        }
        r
    }

    /// Sets every word of the buffer to 0 by pulsing its reset. Fails if the graph does not
    /// settle within 10 ticks.
    pub fn reset(&self, g: &mut InitializedGateGraph) -> (r: Result<(), &'static str>)
        requires
            old(g).wf(),
            self.fits_in(old(g)),
        ensures
            final(g).wf(),
            final(g).same_structure(old(g)),
            r is Ok ==> final(g).is_stable(),
            !final(g).states()[old(g).lever_gate(self.signal_levers()[3])],
            forall|i: int| 0 <= i < old(g).num_gates() && old(g).ty(i) is Lever
                && i != old(g).lever_gate(self.signal_levers()[3]) ==> #[trigger] final(g).states()[i] == old(g).states()[i],
    {
        match g.pulse_lever_stable(self.reset.lever().unwrap()) {
            Ok(_) => Ok(()),
            Err(e) => Err(e),
        }
    }
}

} // verus!
