use crate::data_structures::slab::SlabIndex;
use crate::graph::edges::{
    edge_list_from_vec, edge_list_get, edge_list_items, edge_list_len, edge_list_set,
    edge_list_to_vec, edge_set_items, edge_set_new, EdgeList,
};
use indexmap::IndexSet;
use vstd::prelude::*;

verus! {

/// Represents the index of a logic gate in a [GateGraphBuilder](crate::graph::GateGraphBuilder).
#[derive(Clone, Copy, PartialEq, Eq, Structural, Hash, Debug)]
pub struct GateIndex {
    pub idx: usize,
}

/// The `len` gate indexes from `start` on, in order.
pub open spec fn gate_run(start: int, len: nat) -> Seq<GateIndex> {
    Seq::new(len, |k: int| GateIndex { idx: (start + k) as usize })
}

/// The `len` gate indexes `start`, `start + step`, `start + 2 * step`, and so on.
pub open spec fn gate_stride(start: int, step: int, len: nat) -> Seq<GateIndex> {
    Seq::new(len, |k: int| GateIndex { idx: (start + step * k) as usize })
}

/// Returns the [GateIndex] of the OFF constant, which every gate graph holds at index 0.
pub fn off() -> (r: GateIndex)
    ensures
        r@ == 0,
{
    GateIndex { idx: 0 }
}

/// Returns the [GateIndex] of the ON constant, which every gate graph holds at index 1.
pub fn on() -> (r: GateIndex)
    ensures
        r@ == 1,
{
    GateIndex { idx: 1 }
}

impl View for GateIndex {
    type V = usize;

    open spec fn view(&self) -> usize {
        self.idx
    }
}

impl GateIndex {
    /// Returns a new [GateIndex] from a provided `usize`.
    pub fn new(idx: usize) -> (r: GateIndex)
        ensures
            r@ == idx,
    {
        GateIndex { idx }
    }

    /// Returns true if `self` is the index of the OFF constant.
    pub fn is_off(&self) -> (r: bool)
        ensures
            r == (self@ == 0),
    {
        self.idx == 0
    }

    /// Returns true if `self` is the index of the ON constant.
    pub fn is_on(&self) -> (r: bool)
        ensures
            r == (self@ == 1),
    {
        self.idx == 1
    }

    /// Returns true if `self` is [ON] or [OFF].
    pub fn is_const(&self) -> (r: bool)
        ensures
            r == (self@ == 0 || self@ == 1),
    {
        self.idx == 0 || self.idx == 1
    }

    /// Returns `Some(GateIndex { idx: 0 })` if `self` is ON, `Some(GateIndex { idx: 1 })` if `self` is OFF, `None` otherwise.
    pub fn opposite_if_const(&self) -> (r: Option<GateIndex>)
        ensures
            r == opposite_spec(*self),
    {
        if self.is_on() {
            Some(GateIndex { idx: 0 })
        } else if self.is_off() {
            Some(GateIndex { idx: 1 })
        } else {
            None
        }
    }

    /// Returns the [SlabIndex] with the same position.
    pub fn to_slab_index(&self) -> (r: SlabIndex)
        ensures
            r@ == self@,
    {
        SlabIndex::i_actually_really_know_what_i_am_doing_and_i_want_to_construct_from_usize(self.idx)
    }

    /// Returns the [GateIndex] with the same position as `i`.
    pub fn from_slab_index(i: SlabIndex) -> (r: GateIndex)
        ensures
            r@ == i@,
    {
        GateIndex { idx: i.i_actually_really_know_what_i_am_doing_and_i_want_the_inner_usize() }
    }
}

/// The constant of the opposite value, for a constant; `None` for any other gate.
pub open spec fn opposite_spec(x: GateIndex) -> Option<GateIndex> {
    if x@ == 1 {
        Some(GateIndex { idx: 0 })
    } else if x@ == 0 {
        Some(GateIndex { idx: 1 })
    } else {
        None
    }
}

/// Taking the opposite of a constant twice gives the constant back, and only constants have
/// an opposite.
pub proof fn law_opposite_involution(x: GateIndex)
    ensures
        opposite_spec(x) is Some <==> x@ < 2,
        opposite_spec(x) matches Some(y) ==> opposite_spec(y) == Some(x),
{
}

/// The different types of gates in a gate graph.
#[derive(Clone, Copy, PartialEq, Eq, Structural, Hash, Debug)]
pub enum GateType {
    Off,
    On,
    Lever,
    Xor,
    Xnor,
    Not,
    Or,
    And,
    Nand,
    Nor,
}

/// True for gate types that take any number of dependencies.
pub open spec fn is_variadic(ty: GateType) -> bool {
    ty is Or || ty is Nor || ty is And || ty is Nand || ty is Xor || ty is Xnor
}

/// The negated counterpart of a variadic gate type.
pub open spec fn negated_type(ty: GateType) -> GateType {
    match ty {
        GateType::Or => GateType::Nor,
        GateType::Nor => GateType::Or,
        GateType::And => GateType::Nand,
        GateType::Nand => GateType::And,
        GateType::Xor => GateType::Xnor,
        GateType::Xnor => GateType::Xor,
        _ => ty,
    }
}

/// True for gate types whose output is negated.
pub open spec fn negated(ty: GateType) -> bool {
    ty is Nor || ty is Nand || ty is Not || ty is Xnor
}

/// True if any of `s` is true.
pub open spec fn any_true(s: Seq<bool>) -> bool {
    exists|k: int| 0 <= k < s.len() && s[k]
}

/// True if all of `s` are true.
pub open spec fn all_true(s: Seq<bool>) -> bool {
    forall|k: int| 0 <= k < s.len() ==> s[k]
}

/// True if an odd number of `s` are true.
pub open spec fn parity(s: Seq<bool>) -> bool
    decreases s.len(),
{
    if s.len() == 0 {
        false
    } else {
        parity(s.drop_last()) != s.last()
    }
}

/// The output of a gate of type `ty` whose dependencies have the states `inputs`, and whose
/// own state is `own` (which only a lever keeps).
pub open spec fn gate_output(ty: GateType, inputs: Seq<bool>, own: bool) -> bool {
    match ty {
        GateType::Off => false,
        GateType::On => true,
        GateType::Lever => own,
        GateType::Not => !inputs[0],
        GateType::Or => any_true(inputs),
        GateType::Nor => !any_true(inputs),
        GateType::And => all_true(inputs),
        GateType::Nand => !all_true(inputs),
        GateType::Xor => parity(inputs),
        GateType::Xnor => !parity(inputs),
    }
}

/// Negating a variadic gate type twice gives it back, and the negated type computes the
/// opposite output from the same inputs.
pub proof fn law_negated_version(ty: GateType, inputs: Seq<bool>, own: bool)
    requires
        is_variadic(ty),
    ensures
        is_variadic(negated_type(ty)),
        negated_type(ty) != ty,
        negated_type(negated_type(ty)) == ty,
        gate_output(negated_type(ty), inputs, own) == !gate_output(ty, inputs, own),
{
}

impl GateType {
    /// Combines the accumulated state `acc` with the state `b` of one more dependency.
    /// The result still has to be negated for [negated](GateType::is_negated) types.
    pub fn accumulate(&self, acc: bool, b: bool) -> (r: bool)
        requires
            is_variadic(*self),
        ensures
            r == (match *self {
                GateType::Or | GateType::Nor => acc || b,
                GateType::And | GateType::Nand => acc && b,
                _ => acc != b,
            }),
    {
        match self {
            GateType::Or | GateType::Nor => acc || b,
            GateType::And | GateType::Nand => acc && b,
            _ => acc != b,
        }
    }

    /// The value to start an [accumulation](GateType::accumulate) with: the one that neither
    /// short circuits nor affects the result.
    pub fn init(&self) -> (r: bool)
        requires
            is_variadic(*self) || *self is Not,
        ensures
            r == (*self is And || *self is Nand),
    {
        match self {
            GateType::And | GateType::Nand => true,
            _ => false,
        }
    }

    /// Returns true if one dependency with a particular state decides the output.
    pub fn short_circuits(&self) -> (r: bool)
        requires
            is_variadic(*self),
        ensures
            r == !(*self is Xor || *self is Xnor),
    {
        match self {
            GateType::Xor | GateType::Xnor => false,
            _ => true,
        }
    }

    /// Returns the negated version of a variadic gate type, for example Or => Nor.
    pub fn negated_version(&self) -> (r: GateType)
        requires
            is_variadic(*self),
        ensures
            r == negated_type(*self),
    {
        match self {
            GateType::Or => GateType::Nor,
            GateType::Nor => GateType::Or,
            GateType::And => GateType::Nand,
            GateType::Nand => GateType::And,
            GateType::Xor => GateType::Xnor,
            _ => GateType::Xor,
        }
    }

    /// Returns true if this gate type has a negated equivalent.
    pub fn has_negated_version(&self) -> (r: bool)
        ensures
            r == is_variadic(*self),
    {
        !matches!(self, GateType::On | GateType::Off | GateType::Not | GateType::Lever)
    }

    /// Returns true if `self` is `Lever`.
    pub fn is_lever(&self) -> (r: bool)
        ensures
            r == (*self is Lever),
    {
        matches!(self, GateType::Lever)
    }

    /// Returns true if `self` is `Not`.
    pub fn is_not(&self) -> (r: bool)
        ensures
            r == (*self is Not),
    {
        matches!(self, GateType::Not)
    }

    /// Returns true if `self` is `Not`, `Nor`, `Nand` or `Xnor`.
    pub fn is_negated(&self) -> (r: bool)
        ensures
            r == negated(*self),
    {
        matches!(self, GateType::Nor | GateType::Nand | GateType::Not | GateType::Xnor)
    }

    /// The name of this gate type.
    pub fn name(&self) -> (r: &'static str)
        ensures
            r@.len() > 0,
    {
        match self {
            GateType::Lever => {
                proof { reveal_strlit("Lever"); }
                "Lever"
            },
            GateType::On => {
                proof { reveal_strlit("On"); }
                "On"
            },
            GateType::Off => {
                proof { reveal_strlit("Off"); }
                "Off"
            },
            GateType::Not => {
                proof { reveal_strlit("Not"); }
                "Not"
            },
            GateType::Or => {
                proof { reveal_strlit("Or"); }
                "Or"
            },
            GateType::Nor => {
                proof { reveal_strlit("Nor"); }
                "Nor"
            },
            GateType::And => {
                proof { reveal_strlit("And"); }
                "And"
            },
            GateType::Nand => {
                proof { reveal_strlit("Nand"); }
                "Nand"
            },
            GateType::Xor => {
                proof { reveal_strlit("Xor"); }
                "Xor"
            },
            GateType::Xnor => {
                proof { reveal_strlit("Xnor"); }
                "Xnor"
            },
        }
    }
}

/// A gate node while the graph is being built: its dependents are kept in an ordered set
/// which is cheap to search.
pub struct BuildGate {
    pub ty: GateType,
    pub dependencies: EdgeList,
    pub dependents: IndexSet<usize>,
}

/// A gate node of an initialized graph: its dependents are only iterated.
pub struct InitializedGate {
    pub ty: GateType,
    pub dependencies: EdgeList,
    pub dependents: EdgeList,
}

impl BuildGate {
    /// The dependencies of this gate, in order.
    pub open spec fn deps(&self) -> Seq<usize> {
        edge_list_items(self.dependencies)
    }

    /// The dependents of this gate, in order.
    pub open spec fn dependents_seq(&self) -> Seq<usize> {
        edge_set_items(self.dependents)
    }

    /// Returns a new gate of type `ty` whose dependencies are `dependencies`, in order, and
    /// which has no dependents.
    pub fn new(ty: GateType, dependencies: Vec<usize>) -> (r: BuildGate)
        ensures
            r.ty == ty,
            r.deps() == dependencies@,
            r.dependents_seq() == Seq::<usize>::empty(),
    {
        BuildGate { ty, dependencies: edge_list_from_vec(dependencies), dependents: edge_set_new() }
    }

    /// Returns the dependencies of this gate, in order.
    pub fn dependencies_list(&self) -> (r: Vec<usize>)
        ensures
            r@ == self.deps(),
    {
        edge_list_to_vec(&self.dependencies)
    }

    /// Replaces every occurrence of `old_dep` with `new_dep` in the dependencies.
    pub fn swap_dependency(&mut self, old_dep: usize, new_dep: usize)
        ensures
            final(self).ty == old(self).ty,
            final(self).dependents == old(self).dependents,
            final(self).deps() == old(self).deps().map_values(
                |d: usize| if d == old_dep { new_dep } else { d },
            ),
    {
        let n = edge_list_len(&self.dependencies);
        let mut i: usize = 0;
        while i < n
            invariant
                n == old(self).deps().len(),
                i <= n,
                self.ty == old(self).ty,
                self.dependents == old(self).dependents,
                self.deps().len() == n,
                forall|k: int|
                    0 <= k < i ==> self.deps()[k] == (if old(self).deps()[k] == old_dep {
                        new_dep
                    } else {
                        old(self).deps()[k]
                    }),
                forall|k: int| i <= k < n ==> self.deps()[k] == old(self).deps()[k],
            decreases n - i,
        {
            if edge_list_get(&self.dependencies, i) == old_dep {
                edge_list_set(&mut self.dependencies, i, new_dep);
            }
            i = i + 1;
        }
        assert(self.deps() =~= old(self).deps().map_values(
            |d: usize| if d == old_dep { new_dep } else { d },
        ));
    }
}

} // verus!
