use crate::graph::gate::{is_variadic, GateIndex, GateType};
use crate::graph::graph_builder::GateGraphBuilder;
use crate::graph::handles::LeverHandle;
use vstd::prelude::*;

verus! {

/// The dependencies that gate `j` gains when `inputs[k]` is connected to `wires[k]` for each
/// `k` below `n`, in order.
pub open spec fn wiring_added(wires: Seq<Wire>, inputs: Seq<GateIndex>, j: int, n: int) -> Seq<usize>
    decreases n,
{
    if n <= 0 {
        Seq::empty()
    } else {
        let before = wiring_added(wires, inputs, j, n - 1);
        if wires[n - 1].gate()@ == j {
            before.push(inputs[n - 1]@)
        } else {
            before
        }
    }
}

/// Helps with connecting many components to one signal: an `Or` gate of all that is connected
/// to it, with at most one lever of its own.
#[derive(Debug, Clone)]
pub struct Wire {
    bit: GateIndex,
    lever: Option<LeverHandle>,
    pub name: String,
}

impl Wire {
    /// The wire's own gate.
    pub closed spec fn gate(&self) -> GateIndex {
        self.bit
    }

    /// The lever of the wire, once it has one.
    pub closed spec fn lever_of(&self) -> Option<LeverHandle> {
        self.lever
    }

    /// The name of the wire.
    pub closed spec fn label(&self) -> Seq<char> {
        self.name@
    }

    /// True if the wire's gate is a gate of `g` that takes any number of dependencies, and its
    /// lever, if it has one, is a lever of `g`.
    pub open spec fn wf_in(&self, g: &GateGraphBuilder) -> bool {
        &&& self.gate()@ < g.num_slots()
        &&& is_variadic(g.ty(self.gate()@ as int))
        &&& self.lever_of() matches Some(l) ==> l.handle < g.levers().len()
    }

    /// Returns a new [Wire] named `name`, made of a new `Or` gate with no dependencies.
    pub fn new(g: &mut GateGraphBuilder, name: &str) -> (w: Wire)
        requires
            old(g).wf(),
        ensures
            final(g).adds_gate(old(g), w.gate()@ as int, GateType::Or, Seq::<usize>::empty()),
            final(g).grows_from(old(g)),
            final(g).levers() == old(g).levers(),
            w.lever_of() is None,
            w.wf_in(final(g)),
            w.label() == name@,
    {
        let bit = g.or(name);
        Wire { bit, lever: None, name: name.to_string() }
    }

    /// Returns the lever of the wire, making one and connecting it first if there is none.
    pub fn make_lever(&mut self, g: &mut GateGraphBuilder) -> (r: LeverHandle)
        requires
            old(g).wf(),
            old(self).wf_in(old(g)),
        ensures
            final(g).grows_from(old(g)),
            final(self).gate() == old(self).gate(),
            final(self).label() == old(self).label(),
            final(self).lever_of() == Some(r),
            final(self).wf_in(final(g)),
            old(self).lever_of() matches Some(l) ==> r == l && *final(g) == *old(g),
            old(self).lever_of() is None ==> {
                &&& final(g).levers() == old(g).levers().push(r.idx)
                &&& r.handle == old(g).levers().len()
                &&& final(g).deps(old(self).gate()@ as int) == old(g).deps(old(self).gate()@ as int).push(r.idx@)
                &&& final(g).num_slots() == old(g).num_slots() + 1
                &&& r.idx@ == old(g).num_slots()
                &&& final(g).ty(old(g).num_slots() as int) is Lever
                &&& final(g).deps(old(g).num_slots() as int).len() == 0
                &&& forall|j: int| 0 <= j < old(g).num_slots() && j != old(self).gate()@ ==> #[trigger] final(g).deps(j) == old(g).deps(j)
            },
    {
        match self.lever {
            Some(lever) => lever,
            None => {
                let ghost g0 = *g;
                let lever = g.lever(self.name.as_str());
                let ghost g1 = *g;
                self.connect(g, lever.bit());
                proof {
                    GateGraphBuilder::lemma_grows_trans(&g0, &g1, g);
                    assert(g.levers() == g1.levers());
                    let n = g0.num_slots() as int;
                    assert(g.deps(n) == g1.deps(n));
                    assert forall|j: int| 0 <= j < n && j != self.gate()@ implies #[trigger] g.deps(j) == g0.deps(j) by {
                        assert(g.deps(j) == g1.deps(j));
                        assert(g1.ty(j) == g0.ty(j));
                    }
                }
                self.lever = Some(lever);
                lever
            },
        }
    }

    /// Returns the lever of the wire, if [make_lever](Wire::make_lever) has made one.
    pub fn lever(&self) -> (r: Option<LeverHandle>)
        ensures
            r == self.lever_of(),
    {
        self.lever
    }

    /// Connects `other` to the wire: it becomes one more dependency of the wire's gate.
    pub fn connect(&self, g: &mut GateGraphBuilder, other: GateIndex)
        requires
            old(g).wf(),
            self.wf_in(old(g)),
            other@ < old(g).num_slots(),
        ensures
            final(g).grows_from(old(g)),
            final(g).num_slots() == old(g).num_slots(),
            final(g).levers() == old(g).levers(),
            final(g).deps(self.gate()@ as int) == old(g).deps(self.gate()@ as int).push(other@),
            forall|j: int| 0 <= j < old(g).num_slots() && j != self.gate()@ ==> #[trigger] final(g).deps(j) == old(g).deps(j),
    {
        g.dpush(self.bit, other);
        proof {
            assert(g.ty(self.bit@ as int) == old(g).ty(self.bit@ as int));
            assert forall|j: int| 0 <= j < old(g).num_slots() && j != self.gate()@ implies #[trigger] g.deps(j) == old(g).deps(j) by {
                assert(g.ty(j) == old(g).ty(j));
            }
        }
    }

    /// Returns the wire's own gate.
    pub fn bit(&self) -> (r: GateIndex)
        ensures
            r == self.gate(),
    {
        self.bit
    }
}

} // verus!
