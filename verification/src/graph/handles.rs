use crate::graph::gate::GateIndex;
use crate::graph::initialized_graph::InitializedGateGraph;
use vstd::prelude::*;

verus! {

/// Handle to a lever gate, used to flip it once the graph is initialized.
#[derive(Debug, Copy, Clone)]
pub struct LeverHandle {
    /// Position of the lever among the levers of its graph.
    pub handle: usize,
    /// Index of the lever gate in the graph builder.
    pub idx: GateIndex,
}

impl LeverHandle {
    /// Returns the [GateIndex] of the lever gate.
    pub fn bit(&self) -> (r: GateIndex)
        ensures
            r == self.idx,
    {
        self.idx
    }
}

/// Handle to a named group of gates whose state can be queried once the graph is initialized.
#[derive(Debug, Copy, Clone)]
pub struct CircuitOutputHandle(pub usize);

/// A named group of gates whose state can be queried, least significant bit first.
#[derive(Debug, Clone)]
pub struct CircuitOutput {
    pub name: String,
    pub bits: Vec<GateIndex>,
}

impl CircuitOutputHandle {
    /// The gates of this output in `g`, least significant first.
    pub open spec fn bits_in(self, g: &InitializedGateGraph) -> Seq<GateIndex> {
        g.output_list()[self.0 as int].bits@
    }

    /// Returns the number whose binary digits, least significant first, are the states of the
    /// first 8 gates of this output; further gates are ignored.
    pub fn u8(self, g: &InitializedGateGraph) -> (r: u8)
        requires
            g.wf(),
            self.0 < g.output_list().len(),
        ensures
            r == g.word_value(self.bits_in(g), 8),
    {
        proof {
            g.lemma_output_bits(self.0 as int);
        }
        g.collect_u8_lossy(g.get_output_handle(self).bits.as_slice())
    }

    /// Returns [u8](CircuitOutputHandle::u8) reinterpreted as a signed number.
    pub fn i8(&self, g: &InitializedGateGraph) -> (r: i8)
        requires
            g.wf(),
            self.0 < g.output_list().len(),
        ensures
            r == g.word_value(self.bits_in(g), 8) as u8 as i8,
    {
        self.u8(g) as i8
    }

    /// Returns the number whose binary digits, least significant first, are the states of the
    /// first 128 gates of this output; further gates are ignored.
    pub fn u128(self, g: &InitializedGateGraph) -> (r: u128)
        requires
            g.wf(),
            self.0 < g.output_list().len(),
        ensures
            r == g.word_value(self.bits_in(g), 128),
    {
        proof {
            g.lemma_output_bits(self.0 as int);
        }
        g.collect_u128_lossy(g.get_output_handle(self).bits.as_slice())
    }

    /// Returns [u128](CircuitOutputHandle::u128) reinterpreted as a signed number.
    pub fn i128(&self, g: &InitializedGateGraph) -> (r: i128)
        requires
            g.wf(),
            self.0 < g.output_list().len(),
        ensures
            r == g.word_value(self.bits_in(g), 128) as u128 as i128,
    {
        self.u128(g) as i128
    }

    /// Returns [u8](CircuitOutputHandle::u8) as a character.
    pub fn char(&self, g: &InitializedGateGraph) -> (r: char)
        requires
            g.wf(),
            self.0 < g.output_list().len(),
        ensures
            r == g.word_value(self.bits_in(g), 8) as u8 as char,
    {
        self.u8(g) as char
    }

    /// Returns the state of gate `n` of this output.
    pub fn bx(self, g: &InitializedGateGraph, n: usize) -> (r: bool)
        requires
            g.wf(),
            self.0 < g.output_list().len(),
            n < self.bits_in(g).len(),
        ensures
            r == g.states()[self.bits_in(g)[n as int]@ as int],
    {
        proof {
            g.lemma_output_bits(self.0 as int);
        }
        g.value(g.get_output_handle(self).bits[n])
    }

    /// Returns the state of the first gate of this output.
    pub fn b0(&self, g: &InitializedGateGraph) -> (r: bool)
        requires
            g.wf(),
            self.0 < g.output_list().len(),
            self.bits_in(g).len() > 0,
        ensures
            r == g.states()[self.bits_in(g)[0]@ as int],
    {
        self.bx(g, 0)
    }
}

} // verus!
