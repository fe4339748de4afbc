use crate::circuits::wire::{wiring_added, Wire};
use crate::graph::gate::{is_variadic, GateIndex, GateType};
use crate::graph::graph_builder::GateGraphBuilder;
use vstd::prelude::*;

verus! {

/// Helps with managing buses: a row of `Or` gates that inputs connect to and that other
/// components read.
#[derive(Debug, Clone)]
pub struct Bus {
    bits: Vec<GateIndex>,
}

impl Bus {
    /// The gates of the bus, least significant first.
    pub closed spec fn gates(&self) -> Seq<GateIndex> {
        self.bits@
    }

    /// True if gate `j` is one of the gates of the bus.
    pub open spec fn holds_gate(&self, j: int) -> bool {
        exists|k: int| 0 <= k < self.gates().len() && self.gates()[k]@ == j
    }

    /// True if the gates of the bus are distinct gates of `g` that take any number of
    /// dependencies.
    pub open spec fn wf_in(&self, g: &GateGraphBuilder) -> bool {
        &&& forall|k: int| 0 <= k < self.gates().len() ==> #[trigger] self.gates()[k]@ < g.num_slots()
            && is_variadic(g.ty(self.gates()[k]@ as int))
        &&& forall|a: int, b: int| 0 <= a < self.gates().len() && 0 <= b < self.gates().len() && a != b
            ==> self.gates()[a]@ != self.gates()[b]@
    }

    /// A bus of a graph stays a bus of the graph as the graph grows.
    pub proof fn lemma_wf_grows(&self, g1: &GateGraphBuilder, g2: &GateGraphBuilder)
        requires
            self.wf_in(g1),
            g2.grows_from(g1),
        ensures
            self.wf_in(g2),
    {
        assert forall|k: int| 0 <= k < self.gates().len() implies #[trigger] self.gates()[k]@ < g2.num_slots()
            && is_variadic(g2.ty(self.gates()[k]@ as int)) by {
            assert(g2.ty(self.gates()[k]@ as int) == g1.ty(self.gates()[k]@ as int));
        }
    }

    /// Returns a new [Bus] of width `width`: `width` new `Or` gates with no dependencies.
    pub fn new(g: &mut GateGraphBuilder, width: usize, name: &str) -> (b: Bus)
        requires
            old(g).wf(),
        ensures
            final(g).grows_from(old(g)),
            final(g).levers() == old(g).levers(),
            final(g).num_slots() == old(g).num_slots() + width,
            b.gates().len() == width,
            forall|k: int| 0 <= k < width ==> #[trigger] b.gates()[k]@ == old(g).num_slots() + k,
            forall|j: int| old(g).num_slots() <= j < final(g).num_slots() ==> #[trigger] final(g).ty(j) is Or
                && final(g).deps(j).len() == 0,
            b.wf_in(final(g)),
            final(g).keeps_deps(old(g)),
    {
        proof {
            g.lemma_grows_refl();
        }
        let mut bits: Vec<GateIndex> = Vec::new();
        let mut k: usize = 0;
        while k < width
            invariant
                g.grows_from(old(g)),
                g.levers() == old(g).levers(),
                k <= width,
                g.num_slots() == old(g).num_slots() + k,
                bits@.len() == k,
                forall|j: int| 0 <= j < k ==> #[trigger] bits@[j]@ == old(g).num_slots() + j,
                forall|j: int| old(g).num_slots() <= j < g.num_slots() ==> #[trigger] g.ty(j) is Or && g.deps(j).len() == 0,
                g.keeps_deps(old(g)),
            decreases width - k,
        {
            let ghost before = *g;
            let ghost old_bits = bits@;
            let b = g.or(name);
            bits.push(b);
            proof {
                GateGraphBuilder::lemma_grows_trans(old(g), &before, g);
                assert forall|j: int| 0 <= j < k + 1 implies #[trigger] bits@[j]@ == old(g).num_slots() + j by {
                    if j < k {
                        assert(bits@[j] == old_bits[j]);
                    } else {
                        assert(bits@[j] == b);
                    }
                }
                assert forall|j: int| old(g).num_slots() <= j < g.num_slots() implies #[trigger] g.ty(j) is Or && g.deps(j).len() == 0 by {
                    if j < before.num_slots() {
                        assert(g.ty(j) == before.ty(j));
                    }
                }
                assert forall|j: int| 0 <= j < old(g).num_slots() implies #[trigger] g.deps(j) == old(g).deps(j) by {
                    assert(g.ty(j) == before.ty(j));
                }
            }
            k = k + 1;
        }
        Bus { bits }
    }

    /// Connects `other` to the bus, bit by bit, as far as both go: each gate of the bus gains
    /// the corresponding bit of `other` as a dependency.
    pub fn connect_some(&self, g: &mut GateGraphBuilder, other: &[GateIndex])
        requires
            old(g).wf(),
            self.wf_in(old(g)),
            old(g).all_in(other@),
        ensures
            final(g).grows_from(old(g)),
            final(g).num_slots() == old(g).num_slots(),
            final(g).levers() == old(g).levers(),
            forall|k: int| 0 <= k < self.gates().len() && k < other@.len()
                ==> #[trigger] final(g).deps(self.gates()[k]@ as int) == old(g).deps(self.gates()[k]@ as int).push(other@[k]@),
            forall|j: int| 0 <= j < old(g).num_slots() && !self.holds_gate(j)
                ==> #[trigger] final(g).deps(j) == old(g).deps(j),
    {
        proof {
            g.lemma_grows_refl();
        }
        let n = if self.bits.len() < other.len() { self.bits.len() } else { other.len() };
        let mut k: usize = 0;
        while k < n
            invariant
                g.grows_from(old(g)),
                g.num_slots() == old(g).num_slots(),
                g.levers() == old(g).levers(),
                self.wf_in(old(g)),
                old(g).all_in(other@),
                n <= self.gates().len(),
                n <= other@.len(),
                k <= n,
                forall|a: int| 0 <= a < k ==> #[trigger] g.deps(self.gates()[a]@ as int)
                    == old(g).deps(self.gates()[a]@ as int).push(other@[a]@),
                forall|a: int| k <= a < self.gates().len() ==> #[trigger] g.deps(self.gates()[a]@ as int)
                    == old(g).deps(self.gates()[a]@ as int),
                forall|j: int| 0 <= j < old(g).num_slots() && !self.holds_gate(j)
                    ==> #[trigger] g.deps(j) == old(g).deps(j),
            decreases n - k,
        {
            let ghost before = *g;
            let target = self.bits[k];
            proof {
                assert(g.ty(target@ as int) == old(g).ty(target@ as int));
            }
            g.dpush(target, other[k]);
            proof {
                GateGraphBuilder::lemma_grows_trans(old(g), &before, g);
                assert(g.ty(target@ as int) == before.ty(target@ as int));
                assert forall|a: int| 0 <= a < k + 1 implies #[trigger] g.deps(self.gates()[a]@ as int)
                    == old(g).deps(self.gates()[a]@ as int).push(other@[a]@) by {
                    assert(g.ty(self.gates()[a]@ as int) == before.ty(self.gates()[a]@ as int));
                }
                assert forall|a: int| k + 1 <= a < self.gates().len() implies #[trigger] g.deps(self.gates()[a]@ as int)
                    == old(g).deps(self.gates()[a]@ as int) by {
                    assert(g.ty(self.gates()[a]@ as int) == before.ty(self.gates()[a]@ as int));
                }
                assert forall|j: int| 0 <= j < old(g).num_slots() && !self.holds_gate(j)
                    implies #[trigger] g.deps(j) == old(g).deps(j) by {
                    assert(g.ty(j) == before.ty(j));
                    assert(self.gates()[k as int] == target);
                }
            }
            k = k + 1;
        }
    }

    /// Connects `other` to the bus, bit by bit; `other` must be as wide as the bus.
    pub fn connect(&self, g: &mut GateGraphBuilder, other: &[GateIndex])
        requires
            old(g).wf(),
            self.wf_in(old(g)),
            old(g).all_in(other@),
            other@.len() == self.gates().len(),
        ensures
            final(g).grows_from(old(g)),
            final(g).num_slots() == old(g).num_slots(),
            final(g).levers() == old(g).levers(),
            forall|k: int| 0 <= k < self.gates().len()
                ==> #[trigger] final(g).deps(self.gates()[k]@ as int) == old(g).deps(self.gates()[k]@ as int).push(other@[k]@),
            forall|j: int| 0 <= j < old(g).num_slots() && !self.holds_gate(j)
                ==> #[trigger] final(g).deps(j) == old(g).deps(j),
    {
        self.connect_some(g, other);
    }

    /// Connects the bits of `other` to the bus and returns a copy of the bus.
    pub fn merge(&self, g: &mut GateGraphBuilder, other: Bus) -> (r: Bus)
        requires
            old(g).wf(),
            self.wf_in(old(g)),
            old(g).all_in(other.gates()),
            other.gates().len() == self.gates().len(),
        ensures
            final(g).grows_from(old(g)),
            final(g).num_slots() == old(g).num_slots(),
            final(g).levers() == old(g).levers(),
            forall|k: int| 0 <= k < self.gates().len()
                ==> #[trigger] final(g).deps(self.gates()[k]@ as int) == old(g).deps(self.gates()[k]@ as int).push(other.gates()[k]@),
            r.gates() == self.gates(),
    {
        self.connect(g, other.bits());
        let mut bits: Vec<GateIndex> = Vec::new();
        let mut k: usize = 0;
        while k < self.bits.len()
            invariant
                k <= self.gates().len(),
                bits@ == self.gates().subrange(0, k as int),
            decreases self.gates().len() - k,
        {
            bits.push(self.bits[k]);
            k = k + 1;
        }
        Bus { bits }
    }

    /// Returns the width of the bus.
    pub fn len(&self) -> (r: usize)
        ensures
            r == self.gates().len(),
    {
        self.bits.len()
    }

    /// Returns true if the bus has no gates.
    pub fn is_empty(&self) -> (r: bool)
        ensures
            r == (self.gates().len() == 0),
    {
        self.bits.len() == 0
    }

    /// Returns the gates of the bus, to connect to other components.
    pub fn bits(&self) -> (r: &[GateIndex])
        ensures
            r@ == self.gates(),
    {
        self.bits.as_slice()
    }

    /// Returns bit `n` of the bus.
    pub fn bx(&self, n: usize) -> (r: GateIndex)
        requires
            n < self.gates().len(),
        ensures
            r == self.gates()[n as int],
    {
        self.bits[n]
    }

    /// Returns bit 0 of the bus.
    pub fn b0(&self) -> (r: GateIndex)
        requires
            self.gates().len() > 0,
        ensures
            r == self.gates()[0],
    {
        self.bits[0]
    }

    /// Connects each bit of the bus to the corresponding wire of `other`, which must be as
    /// many as the bits.
    pub fn split_wires(&self, g: &mut GateGraphBuilder, other: &mut [Wire])
        requires
            old(g).wf(),
            self.wf_in(old(g)),
            old(other)@.len() == self.gates().len(),
            forall|k: int| 0 <= k < old(other)@.len() ==> (#[trigger] old(other)@[k]).wf_in(old(g)),
        ensures
            final(g).grows_from(old(g)),
            final(g).num_slots() == old(g).num_slots(),
            final(g).levers() == old(g).levers(),
            final(other)@ == old(other)@,
            forall|j: int| 0 <= j < old(g).num_slots() ==> #[trigger] final(g).deps(j)
                == old(g).deps(j) + wiring_added(old(other)@, self.gates(), j, self.gates().len() as int),
    {
        proof {
            g.lemma_grows_refl();
        }
        let mut k: usize = 0;
        while k < self.bits.len()
            invariant
                g.grows_from(old(g)),
                g.num_slots() == old(g).num_slots(),
                g.levers() == old(g).levers(),
                self.wf_in(old(g)),
                other@ == old(other)@,
                forall|j: int| 0 <= j < old(g).num_slots() ==> #[trigger] g.deps(j)
                    == old(g).deps(j) + wiring_added(old(other)@, self.gates(), j, k as int),
                other@.len() == self.gates().len(),
                forall|k: int| 0 <= k < old(other)@.len() ==> (#[trigger] old(other)@[k]).wf_in(old(g)),
                k <= self.gates().len(),
            decreases self.gates().len() - k,
        {
            let ghost before = *g;
            proof {
                let w = other@[k as int];
                assert(w.wf_in(old(g)));
                assert(g.ty(w.gate()@ as int) == old(g).ty(w.gate()@ as int));
            }
            other[k].connect(g, self.bits[k]);
            proof {
                GateGraphBuilder::lemma_grows_trans(old(g), &before, g);
                assert forall|j: int| 0 <= j < old(g).num_slots() implies #[trigger] g.deps(j)
                    == old(g).deps(j) + wiring_added(old(other)@, self.gates(), j, k + 1) by {
                    let prev = wiring_added(old(other)@, self.gates(), j, k as int);
                    assert(before.deps(j) == old(g).deps(j) + prev);
                    if old(other)@[k as int].gate()@ == j {
                        assert((old(g).deps(j) + prev).push(self.gates()[k as int]@) =~= old(g).deps(j) + prev.push(self.gates()[k as int]@));
                    }
                }
            }
            k = k + 1;
        }
    }

    /// Returns the gates of the bus, least significant first.
    pub fn into_bits(self) -> (r: Vec<GateIndex>)
        ensures
            r@ == self.gates(),
    {
        self.bits
    }
}

} // verus!
