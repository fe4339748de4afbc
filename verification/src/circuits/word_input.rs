use crate::data_structures::bit_iter::{bytes_bits, BitIter, ToBytes};
use crate::graph::gate::{GateIndex, GateType};
use crate::graph::graph_builder::GateGraphBuilder;
use crate::graph::handles::LeverHandle;
use crate::graph::initialized_graph::InitializedGateGraph;
use vstd::prelude::*;

verus! {

/// Manages a group of levers that together make a word, least significant first.
pub struct WordInput {
    levers: Vec<LeverHandle>,
}

/// `bits` cut or padded with `false` to `n` bits.
pub open spec fn fit_bits(bits: Seq<bool>, n: nat) -> Seq<bool> {
    Seq::new(n, |k: int| if k < bits.len() { bits[k] } else { false })
}

impl WordInput {
    /// The lever handles of the word, least significant first.
    pub closed spec fn handles(&self) -> Seq<LeverHandle> {
        self.levers@
    }

    /// True if every lever of the word is a lever of `g`.
    pub open spec fn handles_in(&self, g: &InitializedGateGraph) -> bool {
        forall|k: int| 0 <= k < self.handles().len() ==> #[trigger] self.handles()[k].handle < g.levers().len()
    }

    /// True if one of the levers of the word sits at gate `i` of `g`.
    pub open spec fn holds_lever_gate(&self, g: &InitializedGateGraph, i: int) -> bool {
        exists|k: int| 0 <= k < self.handles().len() && g.lever_gate(self.handles()[k]) == i
    }

    /// True if the levers of the word are distinct gates of `g`.
    pub open spec fn distinct_in(&self, g: &InitializedGateGraph) -> bool {
        forall|a: int, b: int| 0 <= a < self.handles().len() && 0 <= b < self.handles().len() && a != b
            ==> g.lever_gate(self.handles()[a]) != g.lever_gate(self.handles()[b])
    }

    /// Returns a new [WordInput] of `width` new levers.
    #[verifier::spinoff_prover]
    pub fn new(g: &mut GateGraphBuilder, width: usize, name: &str) -> (w: WordInput)
        requires
            old(g).wf(),
        ensures
            final(g).grows_from(old(g)),
            final(g).num_slots() == old(g).num_slots() + width,
            final(g).levers().len() == old(g).levers().len() + width,
            w.handles().len() == width,
            forall|k: int| 0 <= k < width ==> #[trigger] w.handles()[k].handle == old(g).levers().len() + k
                && w.handles()[k].idx@ == old(g).num_slots() + k
                && final(g).levers()[old(g).levers().len() + k] == w.handles()[k].idx,
            forall|j: int| old(g).num_slots() <= j < final(g).num_slots() ==> #[trigger] final(g).ty(j) is Lever
                && final(g).deps(j).len() == 0,
            final(g).keeps_deps(old(g)),
    {
        proof {
            g.lemma_grows_refl();
        }
        let mut levers: Vec<LeverHandle> = Vec::new();
        let mut k: usize = 0;
        while k < width
            invariant
                g.grows_from(old(g)),
                k <= width,
                g.num_slots() == old(g).num_slots() + k,
                g.levers().len() == old(g).levers().len() + k,
                levers@.len() == k,
                forall|j: int| 0 <= j < k ==> #[trigger] levers@[j].handle == old(g).levers().len() + j,
                forall|j: int| 0 <= j < k ==> #[trigger] levers@[j].idx@ == old(g).num_slots() + j,
                forall|j: int| 0 <= j < k ==> #[trigger] g.levers()[old(g).levers().len() + j] == levers@[j].idx,
                forall|j: int| old(g).num_slots() <= j < g.num_slots() ==> #[trigger] g.ty(j) is Lever
                    && g.deps(j).len() == 0,
                g.keeps_deps(old(g)),
            decreases width - k,
        {
            let ghost before = *g;
            let ghost old_levers = levers@;
            let lever = g.lever(name);
            levers.push(lever);
            proof {
                GateGraphBuilder::lemma_grows_trans(old(g), &before, g);
                assert forall|j: int| 0 <= j < k + 1 implies #[trigger] levers@[j].handle == old(g).levers().len() + j by {
                    if j < k {
                        assert(levers@[j] == old_levers[j]);
                    } else {
                        assert(levers@[j] == lever);
                    }
                }
                assert forall|j: int| 0 <= j < k + 1 implies #[trigger] levers@[j].idx@ == old(g).num_slots() + j by {
                    if j < k {
                        assert(levers@[j] == old_levers[j]);
                    } else {
                        assert(levers@[j] == lever);
                    }
                }
                assert forall|j: int| 0 <= j < k + 1 implies #[trigger] g.levers()[old(g).levers().len() + j] == levers@[j].idx by {
                    if j < k {
                        assert(levers@[j] == old_levers[j]);
                        assert(g.levers()[old(g).levers().len() + j] == before.levers()[old(g).levers().len() + j]);
                    } else {
                        assert(levers@[j] == lever);
                    }
                }
                assert forall|j: int| old(g).num_slots() <= j < g.num_slots() implies #[trigger] g.ty(j) is Lever
                    && g.deps(j).len() == 0 by {
                    if j < before.num_slots() {
                        assert(g.ty(j) == before.ty(j));
                    }
                }
                assert forall|j: int| 0 <= j < old(g).num_slots() implies #[trigger] g.deps(j) == old(g).deps(j) by {
                    assert(g.ty(j) == before.ty(j));
                }
            }
            k = k + 1;
        }
        WordInput { levers }
    }

    /// Sets the lever of bit `bit` to `value` and runs a tick; `None` if there is no such bit.
    pub fn update_bit(&self, g: &mut InitializedGateGraph, bit: usize, value: bool) -> (r: Option<()>)
        requires
            old(g).wf(),
            self.handles_in(old(g)),
        ensures
            final(g).wf(),
            final(g).same_structure(old(g)),
            r is None <==> bit >= self.handles().len(),
            r is None ==> *final(g) == *old(g),
            r is Some ==> final(g).states()[old(g).lever_gate(self.handles()[bit as int])] == value,
            r is Some ==> forall|i: int| 0 <= i < old(g).num_gates() && old(g).ty(i) is Lever
                && i != old(g).lever_gate(self.handles()[bit as int]) ==> #[trigger] final(g).states()[i] == old(g).states()[i],
    {
        if bit >= self.levers.len() {
            return None;
        }
        assert(self.handles()[bit as int].handle < g.levers().len());
        g.update_lever(self.levers[bit], value);
        Some(())
    }

    /// Flips the lever of bit `bit` and runs a tick; `None` if there is no such bit.
    pub fn flip_bit(&self, g: &mut InitializedGateGraph, bit: usize) -> (r: Option<()>)
        requires
            old(g).wf(),
            self.handles_in(old(g)),
        ensures
            final(g).wf(),
            final(g).same_structure(old(g)),
            r is None <==> bit >= self.handles().len(),
            r is None ==> *final(g) == *old(g),
            r is Some ==> final(g).states()[old(g).lever_gate(self.handles()[bit as int])]
                == !old(g).states()[old(g).lever_gate(self.handles()[bit as int])],
            r is Some ==> forall|i: int| 0 <= i < old(g).num_gates() && old(g).ty(i) is Lever
                && i != old(g).lever_gate(self.handles()[bit as int]) ==> #[trigger] final(g).states()[i] == old(g).states()[i],
    {
        if bit >= self.levers.len() {
            return None;
        }
        assert(self.handles()[bit as int].handle < g.levers().len());
        g.flip_lever(self.levers[bit]);
        Some(())
    }

    /// Sets the lever of bit `bit` to true and runs a tick; `None` if there is no such bit.
    pub fn set_bit(&self, g: &mut InitializedGateGraph, bit: usize) -> (r: Option<()>)
        requires
            old(g).wf(),
            self.handles_in(old(g)),
        ensures
            final(g).wf(),
            final(g).same_structure(old(g)),
            r is None <==> bit >= self.handles().len(),
            r is Some ==> final(g).states()[old(g).lever_gate(self.handles()[bit as int])],
            r is Some ==> forall|i: int| 0 <= i < old(g).num_gates() && old(g).ty(i) is Lever
                && i != old(g).lever_gate(self.handles()[bit as int]) ==> #[trigger] final(g).states()[i] == old(g).states()[i],
    {
        self.update_bit(g, bit, true)
    }

    /// Sets the lever of bit `bit` to false and runs a tick; `None` if there is no such bit.
    pub fn reset_bit(&self, g: &mut InitializedGateGraph, bit: usize) -> (r: Option<()>)
        requires
            old(g).wf(),
            self.handles_in(old(g)),
        ensures
            final(g).wf(),
            final(g).same_structure(old(g)),
            r is None <==> bit >= self.handles().len(),
            r is Some ==> !final(g).states()[old(g).lever_gate(self.handles()[bit as int])],
            r is Some ==> forall|i: int| 0 <= i < old(g).num_gates() && old(g).ty(i) is Lever
                && i != old(g).lever_gate(self.handles()[bit as int]) ==> #[trigger] final(g).states()[i] == old(g).states()[i],
    {
        self.update_bit(g, bit, false)
    }

    /// Sets the levers to the corresponding `values`, padded with `false`, and runs a tick.
    fn set_values(&self, g: &mut InitializedGateGraph, values: &Vec<bool>)
        requires
            old(g).wf(),
            self.handles_in(old(g)),
        ensures
            final(g).wf(),
            final(g).same_structure(old(g)),
            forall|i: int| 0 <= i < old(g).num_gates() && old(g).ty(i) is Lever && !self.holds_lever_gate(old(g), i)
                ==> #[trigger] final(g).states()[i] == old(g).states()[i],
            self.distinct_in(old(g)) ==> forall|k: int| 0 <= k < self.handles().len()
                ==> #[trigger] final(g).states()[old(g).lever_gate(self.handles()[k])]
                == fit_bits(values@, self.handles().len())[k],
    {
        let mut fitted: Vec<bool> = Vec::new();
        let mut k: usize = 0;
        while k < self.levers.len()
            invariant
                k <= self.handles().len(),
                fitted@ == fit_bits(values@, self.handles().len()).subrange(0, k as int),
            decreases self.handles().len() - k,
        {
            if k < values.len() {
                fitted.push(values[k]);
            } else {
                fitted.push(false);
            }
            k = k + 1;
        }
        proof {
            assert(fitted@ == fit_bits(values@, self.handles().len()));
        }
        g.update_levers(self.levers.as_slice(), fitted.as_slice());
    }

    /// Sets the levers to the bits of `value`, least significant first, and runs a tick; extra
    /// bits of `value` are ignored and missing ones are taken as 0.
    pub fn set_to<T: ToBytes>(&self, g: &mut InitializedGateGraph, value: T)
        requires
            old(g).wf(),
            self.handles_in(old(g)),
            value.spec_bytes().len() * 8 <= u16::MAX,
        ensures
            final(g).wf(),
            final(g).same_structure(old(g)),
            forall|i: int| 0 <= i < old(g).num_gates() && old(g).ty(i) is Lever && !self.holds_lever_gate(old(g), i)
                ==> #[trigger] final(g).states()[i] == old(g).states()[i],
            self.distinct_in(old(g)) ==> forall|k: int| 0 <= k < self.handles().len()
                ==> #[trigger] final(g).states()[old(g).lever_gate(self.handles()[k])]
                == fit_bits(bytes_bits(value.spec_bytes()), self.handles().len())[k],
    {
        let mut iter = BitIter::new(value);
        let bits = iter.collect_bits();
        self.set_values(g, &bits);
    }

    /// Sets all the levers to true and runs a tick.
    pub fn set(&self, g: &mut InitializedGateGraph)
        requires
            old(g).wf(),
            self.handles_in(old(g)),
        ensures
            final(g).wf(),
            final(g).same_structure(old(g)),
            forall|i: int| 0 <= i < old(g).num_gates() && old(g).ty(i) is Lever && !self.holds_lever_gate(old(g), i)
                ==> #[trigger] final(g).states()[i] == old(g).states()[i],
            self.distinct_in(old(g)) ==> forall|k: int| 0 <= k < self.handles().len()
                ==> #[trigger] final(g).states()[old(g).lever_gate(self.handles()[k])],
    {
        let mut all: Vec<bool> = Vec::new();
        let mut k: usize = 0;
        while k < self.levers.len()
            invariant
                k <= self.handles().len(),
                all@.len() == k,
                forall|j: int| 0 <= j < k ==> #[trigger] all@[j],
            decreases self.handles().len() - k,
        {
            all.push(true);
            k = k + 1;
        }
        self.set_values(g, &all);
    }

    /// Sets all the levers to false and runs a tick.
    pub fn reset(&self, g: &mut InitializedGateGraph)
        requires
            old(g).wf(),
            self.handles_in(old(g)),
        ensures
            final(g).wf(),
            final(g).same_structure(old(g)),
            forall|i: int| 0 <= i < old(g).num_gates() && old(g).ty(i) is Lever && !self.holds_lever_gate(old(g), i)
                ==> #[trigger] final(g).states()[i] == old(g).states()[i],
            self.distinct_in(old(g)) ==> forall|k: int| 0 <= k < self.handles().len()
                ==> !#[trigger] final(g).states()[old(g).lever_gate(self.handles()[k])],
    {
        let none: Vec<bool> = Vec::new();
        self.set_values(g, &none);
    }

    /// Returns the gates of the levers, least significant first, to connect to other
    /// components.
    pub fn bits(&self) -> (r: Vec<GateIndex>)
        ensures
            r@.len() == self.handles().len(),
            forall|k: int| 0 <= k < r@.len() ==> #[trigger] r@[k] == self.handles()[k].idx,
    {
        let mut r: Vec<GateIndex> = Vec::new();
        let mut k: usize = 0;
        while k < self.levers.len()
            invariant
                k <= self.handles().len(),
                r@.len() == k,
                forall|j: int| 0 <= j < k ==> #[trigger] r@[j] == self.handles()[j].idx,
            decreases self.handles().len() - k,
        {
            r.push(self.levers[k].bit());
            k = k + 1;
        }
        r
    }

    /// Returns the width of the word.
    pub fn len(&self) -> (r: usize)
        ensures
            r == self.handles().len(),
    {
        self.levers.len()
    }

    /// Returns true if the word has no levers.
    pub fn is_empty(&self) -> (r: bool)
        ensures
            r == (self.handles().len() == 0),
    {
        self.levers.len() == 0
    }
}

} // verus!
