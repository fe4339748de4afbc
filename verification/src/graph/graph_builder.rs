use crate::data_structures::slab::{Slab, SlabIndex};
use crate::graph::edges::{
    dedup_seq, edge_list_dedup, edge_list_from_vec, edge_list_get, edge_list_items, edge_list_len,
    edge_list_new, edge_list_push, edge_list_remove, edge_list_set, edge_list_sort, edge_set_drain,
    edge_set_insert, edge_set_items, edge_set_len, edge_set_new, edge_set_remove, set_insert,
    set_swap_remove, sorted, EdgeList,
};
use crate::data_structures::double_stack::DoubleStack;
use crate::data_structures::immutable::Immutable;
use crate::data_structures::state::State;
use crate::graph::edges::{edge_list_to_vec, edge_set_to_vec};
use crate::graph::gate::{gate_output, is_variadic, BuildGate, GateIndex, GateType, InitializedGate};
use crate::graph::handles::{CircuitOutput, CircuitOutputHandle, LeverHandle};
use crate::graph::initialized_graph::{gate_ok_in, gates_ok, handles_ok, InitializedGateGraph};
use crate::graph::optimizations::const_propagation::{const_decided, const_propagated, const_propagation_pass};
use crate::graph::optimizations::dead_code_elimination::{dead_code_elimination_pass, is_dead};
use crate::graph::optimizations::dependency_deduplication::{dependency_deduplication_pass, deps_deduplicated};
use crate::graph::optimizations::equal_gate_merging::{cleaned, equal_gate_merging_pass, gates_merged};
use crate::graph::optimizations::global_value_numbering::{global_value_numbering_pass, value_numbered};
use crate::graph::optimizations::not_deduplication::{not_deduplication_pass, nots_merged};
use crate::graph::optimizations::single_dependency_collapsing::{collapsed, single_dependency_collapsing_pass};
use std::collections::{HashMap, HashSet};
use vstd::prelude::*;

verus! {

broadcast use vstd::std_specs::hash::group_hash_axioms;

/// A graph of logic gates under construction; [initializing](GateGraphBuilder::init) it yields a
/// graph that can be simulated.
///
/// Gates are nodes with dependency edges to the gates whose states they combine and dependent
/// edges to the gates that read them. Inputs are the constants ON (index 1) and OFF (index 0)
/// and [levers](GateGraphBuilder::lever); outputs are created by [GateGraphBuilder::output].
pub struct GateGraphBuilder {
    pub(crate) nodes: Slab<BuildGate>,
    pub(crate) output_handles: Vec<CircuitOutput>,
    pub(crate) lever_handles: Vec<GateIndex>,
    pub(crate) outputs: HashSet<usize>,
}

/// The image of gate index `i` under the compaction map `m`; indexes it does not know go to
/// OFF.
pub open spec fn remap_index(m: Map<usize, usize>, i: usize) -> usize {
    if m.contains_key(i) {
        m[i]
    } else {
        0
    }
}

/// The new index of gate `i` when the gates `live` are renumbered in order: its position in
/// `live`, or 0 (`OFF`) for an index that is not there.
pub open spec fn rank_of(live: Seq<usize>, i: usize) -> usize {
    if live.contains(i) {
        live.index_of(i) as usize
    } else {
        0
    }
}

/// The indexes `s` renumbered by [rank_of].
pub open spec fn renumbered(s: Seq<usize>, live: Seq<usize>) -> Seq<usize> {
    s.map_values(|d: usize| rank_of(live, d))
}

/// Gate indexes `s`, renumbered by [rank_of].
pub open spec fn renumbered_gates(s: Seq<GateIndex>, live: Seq<usize>) -> Seq<usize> {
    s.map_values(|d: GateIndex| rank_of(live, d@))
}

/// The position of an item of a strictly increasing sequence is its rank.
pub proof fn lemma_rank_at(live: Seq<usize>, j: int)
    requires
        forall|a: int, c: int| 0 <= a < c < live.len() ==> live[a] < live[c],
        0 <= j < live.len(),
        live.len() <= usize::MAX,
    ensures
        rank_of(live, live[j]) == j,
{
    assert(live.contains(live[j]));
    let k = live.index_of(live[j]);
    assert(0 <= k < live.len() && live[k] == live[j]);
    if k < j { assert(live[k] < live[j]); }
    if j < k { assert(live[j] < live[k]); }
}

/// A map that sends each item of a strictly increasing sequence to its position, and knows no
/// other key, renumbers as [rank_of] does.
proof fn lemma_rank_map(live: Seq<usize>, m: Map<usize, usize>, d: usize)
    requires
        forall|a: int, c: int| 0 <= a < c < live.len() ==> live[a] < live[c],
        live.len() <= usize::MAX,
        forall|j: int| 0 <= j < live.len() ==> m.contains_key(#[trigger] live[j]) && m[live[j]] == j,
        forall|key: usize| #[trigger] m.contains_key(key) ==> live.contains(key),
    ensures
        remap_index(m, d) == rank_of(live, d),
{
    if live.contains(d) {
        let j = choose|j: int| 0 <= j < live.len() && live[j] == d;
        lemma_rank_at(live, j);
        assert(m.contains_key(live[j]));
    }
}

/// The gates, outputs and levers of a graph whose gates have been renumbered contiguously.
struct CompactedGateGraph {
    nodes: Vec<InitializedGate>,
    output_handles: Vec<CircuitOutput>,
    lever_handles: Vec<GateIndex>,
    outputs: HashSet<usize>,
}

/// True if `gate` has the type, the dependencies and the dependents of gate `j` of `b`.
pub open spec fn same_gate(gate: InitializedGate, b: &GateGraphBuilder, j: int) -> bool {
    &&& gate.ty == b.ty(j)
    &&& edge_list_items(gate.dependencies) == b.deps(j)
    &&& edge_list_items(gate.dependents) == b.dependents(j)
}

/// True if the gates `g` are those of `b`, index for index.
pub open spec fn same_gates(g: Seq<InitializedGate>, b: &GateGraphBuilder) -> bool {
    &&& g.len() == b.num_slots()
    &&& forall|j: int| 0 <= j < g.len() ==> #[trigger] same_gate(g[j], b, j)
}

/// Returns the image of `i` under `m`, or 0 (OFF) if `m` does not know `i`.
fn remap(m: &HashMap<usize, usize>, i: usize) -> (r: usize)
    ensures
        r == remap_index(m@, i),
{
    match m.get(&i) {
        Some(v) => *v,
        None => 0,
    }
}

/// Returns the images of `items` under `m` (the identity when `m` is `None`).
fn remap_all(m: Option<&HashMap<usize, usize>>, items: &Vec<usize>) -> (r: Vec<usize>)
    ensures
        r@.len() == items@.len(),
        forall|k: int| 0 <= k < items@.len() ==> #[trigger] r@[k] == match m {
            Some(m) => remap_index(m@, items@[k]),
            None => items@[k],
        },
{
    let mut r: Vec<usize> = Vec::new();
    let mut k: usize = 0;
    while k < items.len()
        invariant
            k <= items@.len(),
            r@.len() == k,
            forall|j: int| 0 <= j < k ==> #[trigger] r@[j] == match m {
                Some(m) => remap_index(m@, items@[j]),
                None => items@[j],
            },
        decreases items@.len() - k,
    {
        let x = match m {
            Some(m) => remap(m, items[k]),
            None => items[k],
        };
        r.push(x);
        k = k + 1;
    }
    r
}

/// A strictly increasing sequence of indexes below `n` has at most `n` items.
proof fn lemma_increasing_bound(s: Seq<usize>, n: int)
    requires
        0 <= n,
        forall|j: int, l: int| 0 <= j < l < s.len() ==> s[j] < s[l],
        forall|j: int| 0 <= j < s.len() ==> s[j] < n,
    ensures
        s.len() <= n,
{
    if s.len() > 0 {
        lemma_increasing_at_least(s, s.len() - 1);
        assert(s[s.len() - 1] < n);
    }
}

proof fn lemma_increasing_at_least(s: Seq<usize>, j: int)
    requires
        forall|a: int, b: int| 0 <= a < b < s.len() ==> s[a] < s[b],
        0 <= j < s.len(),
    ensures
        s[j] >= j,
    decreases j,
{
    if j > 0 {
        lemma_increasing_at_least(s, j - 1);
        assert(s[j - 1] < s[j]);
    }
}

/// True if `v` is an item of `s`.
pub open spec fn seq_holds(s: Seq<usize>, v: int) -> bool {
    exists|a: int| 0 <= a < s.len() && s[a] == v
}

/// A strictly increasing sequence of indexes below `n` that holds each of them is `0, 1, ..., n-1`.
proof fn lemma_increasing_cover(s: Seq<usize>, n: int)
    requires
        0 <= n,
        forall|j: int, l: int| 0 <= j < l < s.len() ==> s[j] < s[l],
        forall|j: int| 0 <= j < s.len() ==> s[j] < n,
        forall|v: int| 0 <= v < n ==> #[trigger] seq_holds(s, v),
    ensures
        s.len() == n,
        forall|j: int| 0 <= j < s.len() ==> s[j] == j,
{
    assert forall|j: int| 0 <= j < s.len() implies s[j] == j by {
        lemma_increasing_cover_prefix(s, n, j);
    }
    if s.len() > 0 {
        assert(s[s.len() - 1] == s.len() - 1);
        assert(s[s.len() - 1] < n);
    }
    if n > 0 {
        assert(seq_holds(s, n - 1));
        let p = choose|j: int| 0 <= j < s.len() && s[j] == n - 1;
        assert(s[p] == p);
    }
}

proof fn lemma_increasing_cover_prefix(s: Seq<usize>, n: int, j: int)
    requires
        forall|a: int, b: int| 0 <= a < b < s.len() ==> s[a] < s[b],
        forall|a: int| 0 <= a < s.len() ==> s[a] < n,
        forall|v: int| 0 <= v < n ==> #[trigger] seq_holds(s, v),
        0 <= j < s.len(),
    ensures
        s[j] == j,
    decreases j,
{
    if j > 0 {
        lemma_increasing_cover_prefix(s, n, j - 1);
        assert(s[j] >= j);
    }
    assert(s[j] >= j) by {
        if j > 0 { assert(s[j - 1] < s[j]); }
    }
    assert(j < n);
    assert(seq_holds(s, j));
    let p = choose|a: int| 0 <= a < s.len() && s[a] == j;
    if p < j {
        lemma_increasing_cover_prefix(s, n, p);
    }
    assert(p >= j);
    if p > j {
        assert(s[j] < s[p]);
    }
}

/// True if a gate of type `ty` may have the dependencies `deps`.
pub open spec fn arity_ok(ty: GateType, deps: Seq<usize>) -> bool {
    &&& (ty is Off || ty is On || ty is Lever) ==> deps.len() == 0
    &&& ty is Not ==> deps.len() >= 1
    &&& deps.len() <= isize::MAX
}

impl GateGraphBuilder {
    /// Slots of gates; a removed gate leaves `None`.
    pub closed spec fn slots(&self) -> Seq<Option<BuildGate>> {
        self.nodes.slots()
    }

    /// The removed slots, most recent last.
    pub closed spec fn free(&self) -> Seq<usize> {
        self.nodes.free()
    }

    /// The lever gates, in creation order.
    pub closed spec fn levers(&self) -> Seq<GateIndex> {
        self.lever_handles@
    }

    /// The output groups, in creation order.
    pub closed spec fn output_list(&self) -> Seq<CircuitOutput> {
        self.output_handles@
    }

    /// The gates that belong to some output.
    pub closed spec fn output_set(&self) -> Set<usize> {
        self.outputs@
    }

    /// The number of slots ever handed out.
    pub open spec fn num_slots(&self) -> nat {
        self.slots().len()
    }

    /// True if there is a gate at `i`.
    pub open spec fn has(&self, i: int) -> bool {
        0 <= i < self.slots().len() && self.slots()[i] is Some
    }

    /// The type of gate `i`.
    pub open spec fn ty(&self, i: int) -> GateType {
        self.slots()[i].unwrap().ty
    }

    /// The dependencies of gate `i`, in order.
    pub open spec fn deps(&self, i: int) -> Seq<usize> {
        edge_list_items(self.slots()[i].unwrap().dependencies)
    }

    /// The dependents of gate `i`, in order.
    pub open spec fn dependents(&self, i: int) -> Seq<usize> {
        edge_set_items(self.slots()[i].unwrap().dependents)
    }

    /// True if gate `i` can be seen from outside: it is a lever or part of an output.
    pub open spec fn observable(&self, i: int) -> bool {
        self.output_set().contains(i as usize) || self.ty(i) is Lever
    }

    /// True if gate `i` is well formed.
    pub open spec fn gate_ok(&self, i: int) -> bool {
        &&& arity_ok(self.ty(i), self.deps(i))
        &&& forall|k: int| 0 <= k < self.deps(i).len() ==> #[trigger] self.deps(i)[k] < self.num_slots()
        &&& forall|k: int| 0 <= k < self.dependents(i).len() ==> #[trigger] self.dependents(i)[k] < self.num_slots()
        &&& self.dependents(i).no_duplicates()
    }

    /// The invariant that every gate graph keeps, also while it is being optimized.
    pub closed spec fn base_wf(&self) -> bool {
        &&& self.nodes.wf()
        &&& self.has(0) && self.ty(0) is Off
        &&& self.has(1) && self.ty(1) is On
        &&& forall|i: int| #[trigger] self.has(i) ==> self.gate_ok(i)
        &&& forall|k: int| 0 <= k < self.levers().len() ==> self.has(#[trigger] self.levers()[k]@ as int)
            && self.ty(self.levers()[k]@ as int) is Lever
        &&& forall|x: usize| #[trigger] self.output_set().contains(x) ==> self.has(x as int)
        &&& forall|k: int, b: int| 0 <= k < self.output_list().len() && 0 <= b < self.output_list()[k].bits@.len()
            ==> self.output_set().contains(#[trigger] self.output_list()[k].bits@[b]@)
    }

    /// The invariant of a graph under construction: well formed, and no gate has been removed.
    pub open spec fn wf(&self) -> bool {
        &&& self.base_wf()
        &&& self.free().len() == 0
    }

    /// True if `self` is `old` with nothing changed but gate `at`, which is still there.
    pub open spec fn same_except(&self, old: &Self, at: int) -> bool {
        &&& self.slots().len() == old.slots().len()
        &&& self.free() == old.free()
        &&& self.levers() == old.levers()
        &&& self.output_list() == old.output_list()
        &&& self.output_set() == old.output_set()
        &&& forall|j: int| 0 <= j < self.slots().len() && j != at ==> #[trigger] self.slots()[j] == old.slots()[j]
        &&& self.has(at) == old.has(at)
    }

    /// True if `self` is `old` with one more gate, at index `idx`, of type `ty` with the
    /// dependencies `deps`, registered as a dependent of each of them.
    pub open spec fn adds_gate(&self, old: &Self, idx: int, ty: GateType, deps: Seq<usize>) -> bool {
        &&& self.wf()
        &&& idx == old.num_slots()
        &&& self.num_slots() == old.num_slots() + 1
        &&& self.ty(idx) == ty
        &&& self.deps(idx) == deps
        &&& self.dependents(idx) == Seq::<usize>::empty()
        &&& forall|j: int| 0 <= j < old.num_slots() ==> {
            &&& #[trigger] self.ty(j) == old.ty(j)
            &&& self.deps(j) == old.deps(j)
            &&& self.dependents(j) == (if deps.contains(j as usize) {
                old.dependents(j).push(idx as usize)
            } else {
                old.dependents(j)
            })
        }
        &&& self.output_list() == old.output_list()
        &&& self.output_set() == old.output_set()
    }

    /// True if `self` is `old` grown by building: still well formed, no fewer gates and levers,
    /// the same outputs, and every gate of `old` of the same type (its dependencies may have
    /// grown or changed).
    pub open spec fn grows_from(&self, old: &Self) -> bool {
        &&& self.wf()
        &&& old.num_slots() <= self.num_slots()
        &&& old.levers().len() <= self.levers().len()
        &&& forall|k: int| 0 <= k < old.levers().len() ==> #[trigger] self.levers()[k] == old.levers()[k]
        &&& self.output_list() == old.output_list()
        &&& self.output_set() == old.output_set()
        &&& forall|j: int| 0 <= j < old.num_slots() ==> #[trigger] self.ty(j) == old.ty(j)
    }

    /// True if every gate is among the dependents of each of its dependencies.
    pub open spec fn dependents_mirrored(&self) -> bool {
        forall|i: int, k: int| 0 <= i < self.num_slots() && 0 <= k < self.deps(i).len()
            ==> #[trigger] self.dependents(self.deps(i)[k] as int).contains(i as usize)
    }

    /// True if every gate of `old` keeps its dependencies in `self`.
    pub open spec fn keeps_deps(&self, old: &Self) -> bool {
        forall|j: int| 0 <= j < old.num_slots() ==> #[trigger] self.deps(j) == old.deps(j)
    }

    /// True if every gate of `bits` is a slot of `self`.
    pub open spec fn all_in(&self, bits: Seq<GateIndex>) -> bool {
        forall|k: int| 0 <= k < bits.len() ==> #[trigger] bits[k]@ < self.num_slots()
    }

    /// Growing is transitive.
    pub proof fn lemma_grows_trans(a: &Self, b: &Self, c: &Self)
        requires
            b.grows_from(a),
            c.grows_from(b),
        ensures
            c.grows_from(a),
    {
        assert forall|k: int| 0 <= k < a.levers().len() implies #[trigger] c.levers()[k] == a.levers()[k] by {
            assert(c.levers()[k] == b.levers()[k]);
        }
        assert forall|j: int| 0 <= j < a.num_slots() implies #[trigger] c.ty(j) == a.ty(j) by {
            assert(b.ty(j) == a.ty(j));
        }
    }

    /// A well formed graph has grown from itself.
    pub proof fn lemma_grows_refl(&self)
        requires
            self.wf(),
        ensures
            self.grows_from(self),
    {
    }

    /// Returns a new [GateGraphBuilder] containing only OFF (index 0) and ON (index 1).
    pub fn new() -> (g: GateGraphBuilder)
        ensures
            g.wf(),
            g.num_slots() == 2,
            g.ty(0) is Off && g.deps(0) == Seq::<usize>::empty() && g.dependents(0) == Seq::<usize>::empty(),
            g.ty(1) is On && g.deps(1) == Seq::<usize>::empty() && g.dependents(1) == Seq::<usize>::empty(),
            g.levers() == Seq::<GateIndex>::empty(),
            g.output_list() == Seq::<CircuitOutput>::empty(),
            g.output_set() == Set::<usize>::empty(),
    {
        let mut nodes = Slab::new();
        nodes.insert(BuildGate { ty: GateType::Off, dependencies: edge_list_new(), dependents: edge_set_new() });
        nodes.insert(BuildGate { ty: GateType::On, dependencies: edge_list_new(), dependents: edge_set_new() });
        let g = GateGraphBuilder {
            nodes,
            output_handles: Vec::new(),
            lever_handles: Vec::new(),
            outputs: HashSet::new(),
        };
        proof {
            assert(g.has(0) && g.has(1));
            assert forall|i: int| #[trigger] g.has(i) implies g.gate_ok(i) by {
                assert(i == 0 || i == 1);
            }
        }
        g
    }

    /// Adds `x` to the dependents of gate `at`, if there is one.
    pub(crate) fn insert_dependent(&mut self, at: usize, x: usize)
        requires
            old(self).base_wf(),
            x < old(self).num_slots(),
        ensures
            final(self).optimized_from(old(self)),
            final(self).base_wf(),
            final(self).same_except(old(self), at as int),
            old(self).has(at as int) ==> final(self).ty(at as int) == old(self).ty(at as int)
                && final(self).deps(at as int) == old(self).deps(at as int)
                && final(self).dependents(at as int) == set_insert(old(self).dependents(at as int), x),
    {
        match self.nodes.get_mut(SlabIndex::i_actually_really_know_what_i_am_doing_and_i_want_to_construct_from_usize(at)) {
            Some(gate) => {
                edge_set_insert(&mut gate.dependents, x);
            },
            None => {},
        }
        proof {
            if old(self).has(at as int) {
                let s = old(self).dependents(at as int);
                assert(old(self).gate_ok(at as int));
                if !s.contains(x) {
                    let r = s.push(x);
                    assert forall|k: int| 0 <= k < r.len() implies #[trigger] r[k] < self.num_slots() by {
                        if k < s.len() { assert(r[k] == s[k]); }
                    }
                    assert(r.no_duplicates()) by {
                        assert forall|a: int, b: int| 0 <= a < r.len() && 0 <= b < r.len() && a != b implies r[a] != r[b] by {
                            if a < s.len() && b < s.len() {
                                assert(r[a] == s[a] && r[b] == s[b]);
                            } else if a < s.len() {
                                assert(r[a] == s[a]);
                            } else {
                                assert(r[b] == s[b]);
                            }
                        }
                    }
                }
            }
            self.lemma_base_wf_after_change(old(self), at as int);
            self.lemma_same_except_optimized(old(self), at as int);
        }
    }

    /// Removes `x` from the dependents of gate `at`, if there is one.
    pub(crate) fn remove_dependent(&mut self, at: usize, x: usize)
        requires
            old(self).base_wf(),
        ensures
            final(self).optimized_from(old(self)),
            final(self).base_wf(),
            final(self).same_except(old(self), at as int),
            old(self).has(at as int) ==> final(self).ty(at as int) == old(self).ty(at as int)
                && final(self).deps(at as int) == old(self).deps(at as int)
                && final(self).dependents(at as int) == set_swap_remove(old(self).dependents(at as int), x),
    {
        match self.nodes.get_mut(SlabIndex::i_actually_really_know_what_i_am_doing_and_i_want_to_construct_from_usize(at)) {
            Some(gate) => {
                edge_set_remove(&mut gate.dependents, x);
            },
            None => {},
        }
        proof {
            if old(self).has(at as int) {
                let s = old(self).dependents(at as int);
                assert(old(self).gate_ok(at as int));
                if s.contains(x) {
                    let i = s.index_of(x);
                    let r = s.update(i, s.last()).drop_last();
                    assert forall|k: int| 0 <= k < r.len() implies #[trigger] r[k] < self.num_slots() by {
                        if k == i { assert(s[s.len() - 1] < self.num_slots()); } else { assert(r[k] == s[k]); }
                    }
                    assert(r.no_duplicates()) by {
                        assert forall|a: int, b: int| 0 <= a < r.len() && 0 <= b < r.len() && a != b implies r[a] != r[b] by {
                            let aa = if a == i { s.len() - 1 } else { a };
                            let bb = if b == i { s.len() - 1 } else { b };
                            assert(r[a] == s[aa] && r[b] == s[bb]);
                        }
                    }
                }
            }
            self.lemma_base_wf_after_change(old(self), at as int);
            self.lemma_same_except_optimized(old(self), at as int);
        }
    }

    /// In a graph under construction every slot holds a gate.
    pub proof fn lemma_wf_has(&self, i: int)
        requires
            self.wf(),
            0 <= i < self.num_slots(),
        ensures
            self.has(i),
    {
        if self.slots()[i] is None {
            assert(self.nodes.slots()[i] is None);
            assert(self.nodes.free().contains(i as usize));
        }
    }

    /// Changing the levers keeps a graph well formed if they still are lever gates.
    proof fn lemma_base_wf_same_gates(&self, old: &Self)
        requires
            old.base_wf(),
            self.nodes == old.nodes,
            self.output_handles == old.output_handles,
            self.outputs == old.outputs,
            forall|k: int| 0 <= k < self.levers().len() ==> self.has(#[trigger] self.levers()[k]@ as int)
                && self.ty(self.levers()[k]@ as int) is Lever,
        ensures
            self.base_wf(),
    {
        assert forall|i: int| #[trigger] self.has(i) implies self.gate_ok(i) by {
            assert(old.has(i));
        }
        assert forall|x: usize| #[trigger] self.output_set().contains(x) implies self.has(x as int) by {
            assert(old.output_set().contains(x));
        }
        assert forall|k: int, b: int| 0 <= k < self.output_list().len() && 0 <= b < self.output_list()[k].bits@.len()
            implies self.output_set().contains(#[trigger] self.output_list()[k].bits@[b]@) by {
            assert(old.output_set().contains(old.output_list()[k].bits@[b]@));
        }
    }

    /// A change to one gate that keeps it well formed keeps the graph well formed.
    proof fn lemma_base_wf_after_change(&self, old: &Self, at: int)
        requires
            old.base_wf(),
            self.same_except(old, at),
            self.nodes.wf() || self.slots() == old.slots(),
            self.has(at) ==> self.ty(at) == old.ty(at) || !(self.ty(at) is Lever) && !(old.ty(at) is Lever)
                && !(self.ty(at) is Off) && !(self.ty(at) is On) && !(old.ty(at) is Off) && !(old.ty(at) is On),
            self.has(at) ==> self.gate_ok(at),
            self.nodes.free() == old.nodes.free(),
        ensures
            self.base_wf(),
    {
        assert(self.nodes.wf()) by {
            if self.slots() != old.slots() {
            } else {
                assert(self.nodes.slots() == old.nodes.slots());
            }
        }
        assert forall|i: int| #[trigger] self.has(i) implies self.gate_ok(i) by {
            if i != at {
                assert(self.slots()[i] == old.slots()[i]);
                assert(old.has(i));
                assert(old.gate_ok(i));
            }
        }
        assert(self.has(0) && self.ty(0) is Off) by {
            if at != 0 { assert(self.slots()[0] == old.slots()[0]); }
        }
        assert(self.has(1) && self.ty(1) is On) by {
            if at != 1 { assert(self.slots()[1] == old.slots()[1]); }
        }
        assert forall|k: int| 0 <= k < self.levers().len() implies #[trigger] self.has(self.levers()[k]@ as int)
            && self.ty(self.levers()[k]@ as int) is Lever by {
            let l = old.levers()[k]@ as int;
            assert(old.has(l) && old.ty(l) is Lever);
            if l != at { assert(self.slots()[l] == old.slots()[l]); }
        }
        assert forall|x: usize| #[trigger] self.output_set().contains(x) implies self.has(x as int) by {
            assert(old.has(x as int));
            if x as int != at { assert(self.slots()[x as int] == old.slots()[x as int]); }
        }
    }

    /// Creates a gate of type `ty` whose dependencies are `deps`, and registers it as a
    /// dependent of each of them.
    fn create_gate(&mut self, ty: GateType, deps: &[GateIndex]) -> (idx: GateIndex)
        requires
            old(self).wf(),
            arity_ok(ty, deps@.map_values(|d: GateIndex| d@)),
            forall|k: int| 0 <= k < deps@.len() ==> #[trigger] deps@[k]@ < old(self).num_slots(),
        ensures
            final(self).adds_gate(old(self), idx@ as int, ty, deps@.map_values(|d: GateIndex| d@)),
            final(self).levers() == old(self).levers(),
    {
        let ghost dseq = deps@.map_values(|d: GateIndex| d@);
        let mut list: Vec<usize> = Vec::new();
        let mut k: usize = 0;
        while k < deps.len()
            invariant
                k <= deps@.len(),
                dseq == deps@.map_values(|d: GateIndex| d@),
                list@ == dseq.subrange(0, k as int),
            decreases deps@.len() - k,
        {
            list.push(deps[k].idx);
            k = k + 1;
            proof {
                assert(list@ =~= dseq.subrange(0, k as int));
            }
        }
        proof {
            assert(list@ =~= dseq);
        }
        let gate = BuildGate::new(ty, list);
        let si = self.nodes.insert(gate);
        let idx = GateIndex::from_slab_index(si);
        let ghost mid = *self;
        proof {
            assert(self.has(idx@ as int));
            assert forall|i: int| #[trigger] self.has(i) implies self.gate_ok(i) by {
                if i != idx@ as int {
                    assert(self.slots()[i] == old(self).slots()[i]);
                    assert(old(self).has(i));
                    assert(old(self).gate_ok(i));
                }
            }
            assert forall|k: int| 0 <= k < self.levers().len() implies self.has(#[trigger] self.levers()[k]@ as int)
                && self.ty(self.levers()[k]@ as int) is Lever by {
                assert(old(self).has(old(self).levers()[k]@ as int));
            }
            assert forall|x: usize| #[trigger] self.output_set().contains(x) implies self.has(x as int) by {
                assert(old(self).output_set().contains(x));
                assert(old(self).has(x as int));
            }
            assert(self.free() =~= Seq::<usize>::empty());
            assert(self.nodes.wf());
            assert(self.slots()[0] == old(self).slots()[0]);
            assert(self.slots()[1] == old(self).slots()[1]);
            assert(self.has(0) && self.ty(0) is Off);
            assert(self.has(1) && self.ty(1) is On);
            assert forall|k: int, b: int| 0 <= k < self.output_list().len() && 0 <= b < self.output_list()[k].bits@.len()
                implies self.output_set().contains(#[trigger] self.output_list()[k].bits@[b]@) by {
                assert(old(self).output_set().contains(old(self).output_list()[k].bits@[b]@));
            }
            assert(self.gate_ok(idx@ as int)) by {
                assert(self.deps(idx@ as int) == dseq);
                assert forall|k: int| 0 <= k < self.deps(idx@ as int).len() implies #[trigger] self.deps(idx@ as int)[k] < self.num_slots() by {
                    assert(dseq[k] == deps@[k]@);
                }
                assert(self.dependents(idx@ as int) == Seq::<usize>::empty());
            }
            assert(self.base_wf());
        }
        let mut k: usize = 0;
        while k < deps.len()
            invariant
                k <= deps@.len(),
                dseq == deps@.map_values(|d: GateIndex| d@),
                forall|k: int| 0 <= k < deps@.len() ==> #[trigger] deps@[k]@ < old(self).num_slots(),
                idx@ == old(self).num_slots(),
                self.wf(),
                old(self).wf(),
                self.num_slots() == old(self).num_slots() + 1,
                self.ty(idx@ as int) == ty,
                self.deps(idx@ as int) == dseq,
                self.dependents(idx@ as int) == Seq::<usize>::empty(),
                forall|j: int| 0 <= j < old(self).num_slots() ==> {
                    &&& #[trigger] self.ty(j) == old(self).ty(j)
                    &&& self.deps(j) == old(self).deps(j)
                    &&& self.dependents(j) == (if dseq.subrange(0, k as int).contains(j as usize) {
                        old(self).dependents(j).push(idx@)
                    } else {
                        old(self).dependents(j)
                    })
                },
                self.levers() == old(self).levers(),
                self.output_list() == old(self).output_list(),
                self.output_set() == old(self).output_set(),
            decreases deps@.len() - k,
        {
            let d = deps[k].idx;
            let ghost before = *self;
            self.insert_dependent(d, idx.idx);
            k = k + 1;
            proof {
                assert forall|j: int| 0 <= j < old(self).num_slots() implies {
                    &&& #[trigger] self.ty(j) == old(self).ty(j)
                    &&& self.deps(j) == old(self).deps(j)
                    &&& self.dependents(j) == (if dseq.subrange(0, k as int).contains(j as usize) {
                        old(self).dependents(j).push(idx@)
                    } else {
                        old(self).dependents(j)
                    })
                } by {
                    old(self).lemma_wf_has(j);
                    assert(old(self).gate_ok(j));
                    assert(before.ty(j) == old(self).ty(j));
                    assert(!old(self).dependents(j).contains(idx@));
                    assert(dseq.subrange(0, k as int) =~= dseq.subrange(0, k - 1).push(d));
                    if j != d as int {
                        assert(self.slots()[j] == before.slots()[j]);
                        assert(dseq.subrange(0, k as int).contains(j as usize) == dseq.subrange(0, k - 1).contains(j as usize)) by {
                            if dseq.subrange(0, k as int).contains(j as usize) {
                                let cur = dseq.subrange(0, k as int);
                                let m = choose|m: int| 0 <= m < cur.len() && cur[m] == j as usize;
                                assert(m != k - 1);
                                assert(dseq.subrange(0, k - 1)[m] == j as usize);
                            }
                            if dseq.subrange(0, k - 1).contains(j as usize) {
                                let pre = dseq.subrange(0, k - 1);
                                let m = choose|m: int| 0 <= m < pre.len() && pre[m] == j as usize;
                                assert(dseq.subrange(0, k as int)[m] == j as usize);
                            }
                        }
                    } else {
                        before.lemma_wf_has(j);
                        assert(dseq.subrange(0, k as int).contains(j as usize)) by {
                            assert(dseq.subrange(0, k as int)[k - 1] == d);
                        }
                        if dseq.subrange(0, k - 1).contains(j as usize) {
                            assert(before.dependents(j).contains(idx@)) by {
                                assert(before.dependents(j)[before.dependents(j).len() - 1] == idx@);
                            }
                        }
                    }
                }
                if d as int != idx@ as int {
                    assert(self.slots()[idx@ as int] == before.slots()[idx@ as int]);
                }
            }
        }
        proof {
            assert(dseq.subrange(0, deps@.len() as int) =~= dseq);
        }
        idx
    }

    /// Returns the [LeverHandle] of a new lever gate.
    ///
    /// `name` labels the lever for debugging.
    pub fn lever(&mut self, name: &str) -> (r: LeverHandle)
        requires
            old(self).wf(),
        ensures
            final(self).grows_from(old(self)),
            final(self).adds_gate(old(self), r.idx@ as int, GateType::Lever, Seq::<usize>::empty()),
            final(self).levers() == old(self).levers().push(r.idx),
            r.handle == old(self).levers().len(),
    {
        let deps: [GateIndex; 0] = [];
        let idx = self.create_gate(GateType::Lever, &deps);
        proof {
            assert(deps@.map_values(|d: GateIndex| d@) =~= Seq::<usize>::empty());
        }
        let handle = self.lever_handles.len();
        let ghost mid = *self;
        self.lever_handles.push(idx);
        proof {
            assert(self.slots() == mid.slots());
            assert(mid.base_wf());
            assert forall|j: int| 0 <= j < old(self).num_slots() implies {
                &&& #[trigger] self.ty(j) == old(self).ty(j)
                &&& self.deps(j) == old(self).deps(j)
                &&& self.dependents(j) == old(self).dependents(j)
            } by {
                assert(mid.ty(j) == old(self).ty(j));
            }
            assert forall|k: int| 0 <= k < self.levers().len() implies self.has(#[trigger] self.levers()[k]@ as int)
                && self.ty(self.levers()[k]@ as int) is Lever by {
                if k < old(self).levers().len() {
                    assert(self.levers()[k] == old(self).levers()[k]);
                    assert(old(self).has(old(self).levers()[k]@ as int));
                }
            }
        }
        proof {
            self.lemma_base_wf_same_gates(&mid);
        }
        LeverHandle { handle, idx }
    }

    /// Returns the index of a new not gate whose dependency is `dep`.
    pub fn not1(&mut self, dep: GateIndex, name: &str) -> (r: GateIndex)
        requires
            old(self).wf(),
            dep@ < old(self).num_slots(),
        ensures
            final(self).grows_from(old(self)),
            final(self).adds_gate(old(self), r@ as int, GateType::Not, seq![dep@]),
            final(self).levers() == old(self).levers(),
    {
        let deps = [dep];
        let r = self.create_gate(GateType::Not, &deps);
        proof {
            assert(deps@.map_values(|d: GateIndex| d@) =~= seq![dep@]);
        }
        r
    }

    /// Returns the index of a new `Or` gate with no dependencies; add them with
    /// [GateGraphBuilder::dpush].
    ///
    /// `name` labels this gate for debugging.
    pub fn or(&mut self, name: &str) -> (r: GateIndex)
        requires
            old(self).wf(),
        ensures
            final(self).grows_from(old(self)),
            final(self).adds_gate(old(self), r@ as int, GateType::Or, Seq::<usize>::empty()),
            final(self).levers() == old(self).levers(),
    {
        let deps: [GateIndex; 0] = [];
        let r = self.create_gate(GateType::Or, &deps);
        proof {
            assert(deps@.map_values(|d: GateIndex| d@) =~= Seq::<usize>::empty());
        }
        r
    }

    /// Returns the index of a new `Or` gate with 1 dependency.
    pub fn or1(&mut self, dep: GateIndex, name: &str) -> (r: GateIndex)
        requires
            old(self).wf(),
            dep@ < old(self).num_slots(),
        ensures
            final(self).grows_from(old(self)),
            final(self).adds_gate(old(self), r@ as int, GateType::Or, seq![dep@]),
            final(self).levers() == old(self).levers(),
    {
        let deps = [dep];
        let r = self.create_gate(GateType::Or, &deps);
        proof {
            assert(deps@.map_values(|d: GateIndex| d@) =~= seq![dep@]);
        }
        r
    }

    /// Returns the index of a new `Or` gate with 2 dependencies.
    pub fn or2(&mut self, dep1: GateIndex, dep2: GateIndex, name: &str) -> (r: GateIndex)
        requires
            old(self).wf(),
            dep1@ < old(self).num_slots(),
            dep2@ < old(self).num_slots(),
        ensures
            final(self).grows_from(old(self)),
            final(self).adds_gate(old(self), r@ as int, GateType::Or, seq![dep1@, dep2@]),
            final(self).levers() == old(self).levers(),
    {
        let deps = [dep1, dep2];
        let r = self.create_gate(GateType::Or, &deps);
        proof {
            assert(deps@.map_values(|d: GateIndex| d@) =~= seq![dep1@, dep2@]);
        }
        r
    }

    /// Returns the index of a new `Or` gate whose dependencies are `deps`, in order.
    pub fn orx(&mut self, deps: &[GateIndex], name: &str) -> (r: GateIndex)
        requires
            old(self).wf(),
            forall|k: int| 0 <= k < deps@.len() ==> #[trigger] deps@[k]@ < old(self).num_slots(),
            deps@.len() <= isize::MAX,
        ensures
            final(self).grows_from(old(self)),
            final(self).adds_gate(old(self), r@ as int, GateType::Or, deps@.map_values(|d: GateIndex| d@)),
            final(self).levers() == old(self).levers(),
    {
        self.create_gate(GateType::Or, deps)
    }

    /// Returns the index of a new `Nor` gate with no dependencies; add them with
    /// [GateGraphBuilder::dpush].
    ///
    /// `name` labels this gate for debugging.
    pub fn nor(&mut self, name: &str) -> (r: GateIndex)
        requires
            old(self).wf(),
        ensures
            final(self).grows_from(old(self)),
            final(self).adds_gate(old(self), r@ as int, GateType::Nor, Seq::<usize>::empty()),
            final(self).levers() == old(self).levers(),
    {
        let deps: [GateIndex; 0] = [];
        let r = self.create_gate(GateType::Nor, &deps);
        proof {
            assert(deps@.map_values(|d: GateIndex| d@) =~= Seq::<usize>::empty());
        }
        r
    }

    /// Returns the index of a new `Nor` gate with 1 dependency.
    pub fn nor1(&mut self, dep: GateIndex, name: &str) -> (r: GateIndex)
        requires
            old(self).wf(),
            dep@ < old(self).num_slots(),
        ensures
            final(self).grows_from(old(self)),
            final(self).adds_gate(old(self), r@ as int, GateType::Nor, seq![dep@]),
            final(self).levers() == old(self).levers(),
    {
        let deps = [dep];
        let r = self.create_gate(GateType::Nor, &deps);
        proof {
            assert(deps@.map_values(|d: GateIndex| d@) =~= seq![dep@]);
        }
        r
    }

    /// Returns the index of a new `Nor` gate with 2 dependencies.
    pub fn nor2(&mut self, dep1: GateIndex, dep2: GateIndex, name: &str) -> (r: GateIndex)
        requires
            old(self).wf(),
            dep1@ < old(self).num_slots(),
            dep2@ < old(self).num_slots(),
        ensures
            final(self).grows_from(old(self)),
            final(self).adds_gate(old(self), r@ as int, GateType::Nor, seq![dep1@, dep2@]),
            final(self).levers() == old(self).levers(),
    {
        let deps = [dep1, dep2];
        let r = self.create_gate(GateType::Nor, &deps);
        proof {
            assert(deps@.map_values(|d: GateIndex| d@) =~= seq![dep1@, dep2@]);
        }
        r
    }

    /// Returns the index of a new `Nor` gate whose dependencies are `deps`, in order.
    pub fn norx(&mut self, deps: &[GateIndex], name: &str) -> (r: GateIndex)
        requires
            old(self).wf(),
            forall|k: int| 0 <= k < deps@.len() ==> #[trigger] deps@[k]@ < old(self).num_slots(),
            deps@.len() <= isize::MAX,
        ensures
            final(self).grows_from(old(self)),
            final(self).adds_gate(old(self), r@ as int, GateType::Nor, deps@.map_values(|d: GateIndex| d@)),
            final(self).levers() == old(self).levers(),
    {
        self.create_gate(GateType::Nor, deps)
    }

    /// Returns the index of a new `And` gate with no dependencies; add them with
    /// [GateGraphBuilder::dpush].
    ///
    /// `name` labels this gate for debugging.
    pub fn and(&mut self, name: &str) -> (r: GateIndex)
        requires
            old(self).wf(),
        ensures
            final(self).grows_from(old(self)),
            final(self).adds_gate(old(self), r@ as int, GateType::And, Seq::<usize>::empty()),
            final(self).levers() == old(self).levers(),
    {
        let deps: [GateIndex; 0] = [];
        let r = self.create_gate(GateType::And, &deps);
        proof {
            assert(deps@.map_values(|d: GateIndex| d@) =~= Seq::<usize>::empty());
        }
        r
    }

    /// Returns the index of a new `And` gate with 1 dependency.
    pub fn and1(&mut self, dep: GateIndex, name: &str) -> (r: GateIndex)
        requires
            old(self).wf(),
            dep@ < old(self).num_slots(),
        ensures
            final(self).grows_from(old(self)),
            final(self).adds_gate(old(self), r@ as int, GateType::And, seq![dep@]),
            final(self).levers() == old(self).levers(),
    {
        let deps = [dep];
        let r = self.create_gate(GateType::And, &deps);
        proof {
            assert(deps@.map_values(|d: GateIndex| d@) =~= seq![dep@]);
        }
        r
    }

    /// Returns the index of a new `And` gate with 2 dependencies.
    pub fn and2(&mut self, dep1: GateIndex, dep2: GateIndex, name: &str) -> (r: GateIndex)
        requires
            old(self).wf(),
            dep1@ < old(self).num_slots(),
            dep2@ < old(self).num_slots(),
        ensures
            final(self).grows_from(old(self)),
            final(self).adds_gate(old(self), r@ as int, GateType::And, seq![dep1@, dep2@]),
            final(self).levers() == old(self).levers(),
    {
        let deps = [dep1, dep2];
        let r = self.create_gate(GateType::And, &deps);
        proof {
            assert(deps@.map_values(|d: GateIndex| d@) =~= seq![dep1@, dep2@]);
        }
        r
    }

    /// Returns the index of a new `And` gate whose dependencies are `deps`, in order.
    pub fn andx(&mut self, deps: &[GateIndex], name: &str) -> (r: GateIndex)
        requires
            old(self).wf(),
            forall|k: int| 0 <= k < deps@.len() ==> #[trigger] deps@[k]@ < old(self).num_slots(),
            deps@.len() <= isize::MAX,
        ensures
            final(self).grows_from(old(self)),
            final(self).adds_gate(old(self), r@ as int, GateType::And, deps@.map_values(|d: GateIndex| d@)),
            final(self).levers() == old(self).levers(),
    {
        self.create_gate(GateType::And, deps)
    }

    /// Returns the index of a new `Nand` gate with no dependencies; add them with
    /// [GateGraphBuilder::dpush].
    ///
    /// `name` labels this gate for debugging.
    pub fn nand(&mut self, name: &str) -> (r: GateIndex)
        requires
            old(self).wf(),
        ensures
            final(self).grows_from(old(self)),
            final(self).adds_gate(old(self), r@ as int, GateType::Nand, Seq::<usize>::empty()),
            final(self).levers() == old(self).levers(),
    {
        let deps: [GateIndex; 0] = [];
        let r = self.create_gate(GateType::Nand, &deps);
        proof {
            assert(deps@.map_values(|d: GateIndex| d@) =~= Seq::<usize>::empty());
        }
        r
    }

    /// Returns the index of a new `Nand` gate with 1 dependency.
    pub fn nand1(&mut self, dep: GateIndex, name: &str) -> (r: GateIndex)
        requires
            old(self).wf(),
            dep@ < old(self).num_slots(),
        ensures
            final(self).grows_from(old(self)),
            final(self).adds_gate(old(self), r@ as int, GateType::Nand, seq![dep@]),
            final(self).levers() == old(self).levers(),
    {
        let deps = [dep];
        let r = self.create_gate(GateType::Nand, &deps);
        proof {
            assert(deps@.map_values(|d: GateIndex| d@) =~= seq![dep@]);
        }
        r
    }

    /// Returns the index of a new `Nand` gate with 2 dependencies.
    pub fn nand2(&mut self, dep1: GateIndex, dep2: GateIndex, name: &str) -> (r: GateIndex)
        requires
            old(self).wf(),
            dep1@ < old(self).num_slots(),
            dep2@ < old(self).num_slots(),
        ensures
            final(self).grows_from(old(self)),
            final(self).adds_gate(old(self), r@ as int, GateType::Nand, seq![dep1@, dep2@]),
            final(self).levers() == old(self).levers(),
    {
        let deps = [dep1, dep2];
        let r = self.create_gate(GateType::Nand, &deps);
        proof {
            assert(deps@.map_values(|d: GateIndex| d@) =~= seq![dep1@, dep2@]);
        }
        r
    }

    /// Returns the index of a new `Nand` gate whose dependencies are `deps`, in order.
    pub fn nandx(&mut self, deps: &[GateIndex], name: &str) -> (r: GateIndex)
        requires
            old(self).wf(),
            forall|k: int| 0 <= k < deps@.len() ==> #[trigger] deps@[k]@ < old(self).num_slots(),
            deps@.len() <= isize::MAX,
        ensures
            final(self).grows_from(old(self)),
            final(self).adds_gate(old(self), r@ as int, GateType::Nand, deps@.map_values(|d: GateIndex| d@)),
            final(self).levers() == old(self).levers(),
    {
        self.create_gate(GateType::Nand, deps)
    }

    /// Returns the index of a new `Xor` gate with no dependencies; add them with
    /// [GateGraphBuilder::dpush].
    ///
    /// `name` labels this gate for debugging.
    pub fn xor(&mut self, name: &str) -> (r: GateIndex)
        requires
            old(self).wf(),
        ensures
            final(self).grows_from(old(self)),
            final(self).adds_gate(old(self), r@ as int, GateType::Xor, Seq::<usize>::empty()),
            final(self).levers() == old(self).levers(),
    {
        let deps: [GateIndex; 0] = [];
        let r = self.create_gate(GateType::Xor, &deps);
        proof {
            assert(deps@.map_values(|d: GateIndex| d@) =~= Seq::<usize>::empty());
        }
        r
    }

    /// Returns the index of a new `Xor` gate with 1 dependency.
    pub fn xor1(&mut self, dep: GateIndex, name: &str) -> (r: GateIndex)
        requires
            old(self).wf(),
            dep@ < old(self).num_slots(),
        ensures
            final(self).grows_from(old(self)),
            final(self).adds_gate(old(self), r@ as int, GateType::Xor, seq![dep@]),
            final(self).levers() == old(self).levers(),
    {
        let deps = [dep];
        let r = self.create_gate(GateType::Xor, &deps);
        proof {
            assert(deps@.map_values(|d: GateIndex| d@) =~= seq![dep@]);
        }
        r
    }

    /// Returns the index of a new `Xor` gate with 2 dependencies.
    pub fn xor2(&mut self, dep1: GateIndex, dep2: GateIndex, name: &str) -> (r: GateIndex)
        requires
            old(self).wf(),
            dep1@ < old(self).num_slots(),
            dep2@ < old(self).num_slots(),
        ensures
            final(self).grows_from(old(self)),
            final(self).adds_gate(old(self), r@ as int, GateType::Xor, seq![dep1@, dep2@]),
            final(self).levers() == old(self).levers(),
    {
        let deps = [dep1, dep2];
        let r = self.create_gate(GateType::Xor, &deps);
        proof {
            assert(deps@.map_values(|d: GateIndex| d@) =~= seq![dep1@, dep2@]);
        }
        r
    }

    /// Returns the index of a new `Xor` gate whose dependencies are `deps`, in order.
    pub fn xorx(&mut self, deps: &[GateIndex], name: &str) -> (r: GateIndex)
        requires
            old(self).wf(),
            forall|k: int| 0 <= k < deps@.len() ==> #[trigger] deps@[k]@ < old(self).num_slots(),
            deps@.len() <= isize::MAX,
        ensures
            final(self).grows_from(old(self)),
            final(self).adds_gate(old(self), r@ as int, GateType::Xor, deps@.map_values(|d: GateIndex| d@)),
            final(self).levers() == old(self).levers(),
    {
        self.create_gate(GateType::Xor, deps)
    }

    /// Returns the index of a new `Xnor` gate with no dependencies; add them with
    /// [GateGraphBuilder::dpush].
    ///
    /// `name` labels this gate for debugging.
    pub fn xnor(&mut self, name: &str) -> (r: GateIndex)
        requires
            old(self).wf(),
        ensures
            final(self).grows_from(old(self)),
            final(self).adds_gate(old(self), r@ as int, GateType::Xnor, Seq::<usize>::empty()),
            final(self).levers() == old(self).levers(),
    {
        let deps: [GateIndex; 0] = [];
        let r = self.create_gate(GateType::Xnor, &deps);
        proof {
            assert(deps@.map_values(|d: GateIndex| d@) =~= Seq::<usize>::empty());
        }
        r
    }

    /// Returns the index of a new `Xnor` gate with 1 dependency.
    pub fn xnor1(&mut self, dep: GateIndex, name: &str) -> (r: GateIndex)
        requires
            old(self).wf(),
            dep@ < old(self).num_slots(),
        ensures
            final(self).grows_from(old(self)),
            final(self).adds_gate(old(self), r@ as int, GateType::Xnor, seq![dep@]),
            final(self).levers() == old(self).levers(),
    {
        let deps = [dep];
        let r = self.create_gate(GateType::Xnor, &deps);
        proof {
            assert(deps@.map_values(|d: GateIndex| d@) =~= seq![dep@]);
        }
        r
    }

    /// Returns the index of a new `Xnor` gate with 2 dependencies.
    pub fn xnor2(&mut self, dep1: GateIndex, dep2: GateIndex, name: &str) -> (r: GateIndex)
        requires
            old(self).wf(),
            dep1@ < old(self).num_slots(),
            dep2@ < old(self).num_slots(),
        ensures
            final(self).grows_from(old(self)),
            final(self).adds_gate(old(self), r@ as int, GateType::Xnor, seq![dep1@, dep2@]),
            final(self).levers() == old(self).levers(),
    {
        let deps = [dep1, dep2];
        let r = self.create_gate(GateType::Xnor, &deps);
        proof {
            assert(deps@.map_values(|d: GateIndex| d@) =~= seq![dep1@, dep2@]);
        }
        r
    }

    /// Returns the index of a new `Xnor` gate whose dependencies are `deps`, in order.
    pub fn xnorx(&mut self, deps: &[GateIndex], name: &str) -> (r: GateIndex)
        requires
            old(self).wf(),
            forall|k: int| 0 <= k < deps@.len() ==> #[trigger] deps@[k]@ < old(self).num_slots(),
            deps@.len() <= isize::MAX,
        ensures
            final(self).grows_from(old(self)),
            final(self).adds_gate(old(self), r@ as int, GateType::Xnor, deps@.map_values(|d: GateIndex| d@)),
            final(self).levers() == old(self).levers(),
    {
        self.create_gate(GateType::Xnor, deps)
    }


    /// Appends `d` to the dependencies of gate `at`.
    pub(crate) fn push_dependency(&mut self, at: usize, d: usize)
        requires
            old(self).base_wf(),
            old(self).has(at as int),
            is_variadic(old(self).ty(at as int)),
            d < old(self).num_slots(),
        ensures
            final(self).optimized_from(old(self)),
            final(self).base_wf(),
            final(self).same_except(old(self), at as int),
            final(self).ty(at as int) == old(self).ty(at as int),
            final(self).deps(at as int) == old(self).deps(at as int).push(d),
            final(self).dependents(at as int) == old(self).dependents(at as int),
    {
        proof {
            assert(old(self).gate_ok(at as int));
        }
        match self.nodes.get_mut(SlabIndex::i_actually_really_know_what_i_am_doing_and_i_want_to_construct_from_usize(at)) {
            Some(gate) => {
                edge_list_push(&mut gate.dependencies, d);
            },
            None => {},
        }
        proof {
            let r = self.deps(at as int);
            assert forall|k: int| 0 <= k < r.len() implies #[trigger] r[k] < self.num_slots() by {
                if k < r.len() - 1 { assert(r[k] == old(self).deps(at as int)[k]); }
            }
            self.lemma_base_wf_after_change(old(self), at as int);
            self.lemma_same_except_optimized(old(self), at as int);
        }
    }

    /// Replaces the dependency at position `pos` of gate `at` with `d`.
    pub(crate) fn set_dependency(&mut self, at: usize, pos: usize, d: usize)
        requires
            old(self).base_wf(),
            old(self).has(at as int),
            pos < old(self).deps(at as int).len(),
            d < old(self).num_slots(),
        ensures
            final(self).optimized_from(old(self)),
            final(self).base_wf(),
            final(self).same_except(old(self), at as int),
            final(self).ty(at as int) == old(self).ty(at as int),
            final(self).deps(at as int) == old(self).deps(at as int).update(pos as int, d),
            final(self).dependents(at as int) == old(self).dependents(at as int),
    {
        proof {
            assert(old(self).gate_ok(at as int));
        }
        match self.nodes.get_mut(SlabIndex::i_actually_really_know_what_i_am_doing_and_i_want_to_construct_from_usize(at)) {
            Some(gate) => {
                edge_list_set(&mut gate.dependencies, pos, d);
            },
            None => {},
        }
        proof {
            let r = self.deps(at as int);
            assert forall|k: int| 0 <= k < r.len() implies #[trigger] r[k] < self.num_slots() by {
                if k != pos { assert(r[k] == old(self).deps(at as int)[k]); }
            }
            self.lemma_base_wf_after_change(old(self), at as int);
            self.lemma_same_except_optimized(old(self), at as int);
        }
    }

    /// Appends `d` to the dependencies of gate `target` and records `target` as a dependent of
    /// `d`.
    pub fn dpush(&mut self, target: GateIndex, new_dep: GateIndex)
        requires
            old(self).wf(),
            target@ < old(self).num_slots(),
            new_dep@ < old(self).num_slots(),
            is_variadic(old(self).ty(target@ as int)),
        ensures
            final(self).grows_from(old(self)),
            final(self).wf(),
            final(self).num_slots() == old(self).num_slots(),
            final(self).levers() == old(self).levers(),
            final(self).output_list() == old(self).output_list(),
            final(self).output_set() == old(self).output_set(),
            forall|j: int| 0 <= j < old(self).num_slots() ==> {
                &&& #[trigger] final(self).ty(j) == old(self).ty(j)
                &&& final(self).deps(j) == (if j == target@ { old(self).deps(j).push(new_dep@) } else { old(self).deps(j) })
                &&& final(self).dependents(j) == (if j == new_dep@ {
                    set_insert(old(self).dependents(j), target@)
                } else {
                    old(self).dependents(j)
                })
            },
    {
        proof {
            old(self).lemma_wf_has(target@ as int);
            old(self).lemma_wf_has(new_dep@ as int);
        }
        self.push_dependency(target.idx, new_dep.idx);
        let ghost mid = *self;
        self.insert_dependent(new_dep.idx, target.idx);
        proof {
            assert forall|j: int| 0 <= j < old(self).num_slots() implies {
                &&& #[trigger] self.ty(j) == old(self).ty(j)
                &&& self.deps(j) == (if j == target@ { old(self).deps(j).push(new_dep@) } else { old(self).deps(j) })
                &&& self.dependents(j) == (if j == new_dep@ {
                    set_insert(old(self).dependents(j), target@)
                } else {
                    old(self).dependents(j)
                })
            } by {
                old(self).lemma_wf_has(j);
                if j != new_dep@ as int { assert(self.slots()[j] == mid.slots()[j]); }
                if j != target@ as int { assert(mid.slots()[j] == old(self).slots()[j]); }
            }
        }
    }

    /// Sets the dependency at position `x` of gate `target` to `new_dep`, and moves `target`
    /// from the dependents of the old dependency to those of `new_dep`.
    pub fn dx(&mut self, target: GateIndex, new_dep: GateIndex, x: usize)
        requires
            old(self).wf(),
            target@ < old(self).num_slots(),
            new_dep@ < old(self).num_slots(),
            x < old(self).deps(target@ as int).len(),
            is_variadic(old(self).ty(target@ as int)) || old(self).ty(target@ as int) is Not && x == 0,
        ensures
            final(self).grows_from(old(self)),
            final(self).wf(),
            final(self).num_slots() == old(self).num_slots(),
            final(self).levers() == old(self).levers(),
            final(self).output_list() == old(self).output_list(),
            final(self).output_set() == old(self).output_set(),
            forall|j: int| 0 <= j < old(self).num_slots() ==> {
                let o = old(self).deps(target@ as int)[x as int];
                let removed = if j == o { set_swap_remove(old(self).dependents(j), target@) } else { old(self).dependents(j) };
                &&& #[trigger] final(self).ty(j) == old(self).ty(j)
                &&& final(self).deps(j) == (if j == target@ { old(self).deps(j).update(x as int, new_dep@) } else { old(self).deps(j) })
                &&& final(self).dependents(j) == (if j == new_dep@ { set_insert(removed, target@) } else { removed })
            },
    {
        proof {
            old(self).lemma_wf_has(target@ as int);
            assert(old(self).gate_ok(target@ as int));
        }
        let old_dep = edge_list_get(&self.nodes.get(target.to_slab_index()).unwrap().dependencies, x);
        self.set_dependency(target.idx, x, new_dep.idx);
        let ghost a = *self;
        self.remove_dependent(old_dep, target.idx);
        let ghost b = *self;
        self.insert_dependent(new_dep.idx, target.idx);
        proof {
            assert forall|j: int| 0 <= j < old(self).num_slots() implies {
                let o = old(self).deps(target@ as int)[x as int];
                let removed = if j == o { set_swap_remove(old(self).dependents(j), target@) } else { old(self).dependents(j) };
                &&& #[trigger] self.ty(j) == old(self).ty(j)
                &&& self.deps(j) == (if j == target@ { old(self).deps(j).update(x as int, new_dep@) } else { old(self).deps(j) })
                &&& self.dependents(j) == (if j == new_dep@ { set_insert(removed, target@) } else { removed })
            } by {
                old(self).lemma_wf_has(j);
                if j != new_dep@ as int { assert(self.slots()[j] == b.slots()[j]); }
                if j != old_dep as int { assert(b.slots()[j] == a.slots()[j]); }
                if j != target@ as int { assert(a.slots()[j] == old(self).slots()[j]); }
            }
        }
    }

    /// Sets the first dependency of gate `target` to `new_dep`, see [GateGraphBuilder::dx].
    pub fn d0(&mut self, target: GateIndex, new_dep: GateIndex)
        requires
            old(self).wf(),
            target@ < old(self).num_slots(),
            new_dep@ < old(self).num_slots(),
            0 < old(self).deps(target@ as int).len(),
            is_variadic(old(self).ty(target@ as int)) || old(self).ty(target@ as int) is Not,
        ensures
            final(self).grows_from(old(self)),
            final(self).wf(),
            final(self).num_slots() == old(self).num_slots(),
            final(self).levers() == old(self).levers(),
            final(self).output_list() == old(self).output_list(),
            final(self).output_set() == old(self).output_set(),
            forall|j: int| 0 <= j < old(self).num_slots() ==> {
                let o = old(self).deps(target@ as int)[0];
                let removed = if j == o { set_swap_remove(old(self).dependents(j), target@) } else { old(self).dependents(j) };
                &&& #[trigger] final(self).ty(j) == old(self).ty(j)
                &&& final(self).deps(j) == (if j == target@ { old(self).deps(j).update(0, new_dep@) } else { old(self).deps(j) })
                &&& final(self).dependents(j) == (if j == new_dep@ { set_insert(removed, target@) } else { removed })
            },
    {
        self.dx(target, new_dep, 0)
    }

    /// Sets the second dependency of gate `target` to `new_dep`, see [GateGraphBuilder::dx].
    pub fn d1(&mut self, target: GateIndex, new_dep: GateIndex)
        requires
            old(self).wf(),
            target@ < old(self).num_slots(),
            new_dep@ < old(self).num_slots(),
            1 < old(self).deps(target@ as int).len(),
            is_variadic(old(self).ty(target@ as int)),
        ensures
            final(self).grows_from(old(self)),
            final(self).wf(),
            final(self).num_slots() == old(self).num_slots(),
            final(self).levers() == old(self).levers(),
            final(self).output_list() == old(self).output_list(),
            final(self).output_set() == old(self).output_set(),
            forall|j: int| 0 <= j < old(self).num_slots() ==> {
                let o = old(self).deps(target@ as int)[1];
                let removed = if j == o { set_swap_remove(old(self).dependents(j), target@) } else { old(self).dependents(j) };
                &&& #[trigger] final(self).ty(j) == old(self).ty(j)
                &&& final(self).deps(j) == (if j == target@ { old(self).deps(j).update(1, new_dep@) } else { old(self).deps(j) })
                &&& final(self).dependents(j) == (if j == new_dep@ { set_insert(removed, target@) } else { removed })
            },
    {
        self.dx(target, new_dep, 1)
    }

    /// Returns a new output handle named `name` for the gates in `bits`, least significant
    /// first.
    pub fn output(&mut self, bits: &[GateIndex], name: &str) -> (r: CircuitOutputHandle)
        requires
            old(self).wf(),
            forall|k: int| 0 <= k < bits@.len() ==> #[trigger] bits@[k]@ < old(self).num_slots(),
        ensures
            final(self).wf(),
            final(self).slots() == old(self).slots(),
            final(self).levers() == old(self).levers(),
            final(self).output_set() == old(self).output_set() + bits@.map_values(|b: GateIndex| b@).to_set(),
            final(self).output_list().len() == old(self).output_list().len() + 1,
            final(self).output_list().drop_last() == old(self).output_list(),
            final(self).output_list().last().bits@ == bits@,
            r.0 == old(self).output_list().len(),
    {
        let mut list: Vec<GateIndex> = Vec::new();
        let mut k: usize = 0;
        while k < bits.len()
            invariant
                k <= bits@.len(),
                list@ == bits@.subrange(0, k as int),
                self.slots() == old(self).slots(),
                self.free() == old(self).free(),
                self.levers() == old(self).levers(),
                self.output_list() == old(self).output_list(),
                self.nodes == old(self).nodes,
                self.output_handles == old(self).output_handles,
                self.lever_handles == old(self).lever_handles,
                self.output_set() == old(self).output_set() + bits@.subrange(0, k as int).map_values(|b: GateIndex| b@).to_set(),
            decreases bits@.len() - k,
        {
            self.outputs.insert(bits[k].idx);
            list.push(bits[k]);
            k = k + 1;
            proof {
                assert(list@ =~= bits@.subrange(0, k as int));
                assert(bits@.subrange(0, k as int).map_values(|b: GateIndex| b@)
                    =~= bits@.subrange(0, k - 1).map_values(|b: GateIndex| b@).push(bits@[k - 1]@));
                let cur = bits@.subrange(0, k as int).map_values(|b: GateIndex| b@);
                let pre = bits@.subrange(0, k - 1).map_values(|b: GateIndex| b@);
                assert forall|y: usize| #[trigger] cur.to_set().contains(y) == (pre.to_set().contains(y) || y == bits@[k - 1]@) by {
                    if cur.to_set().contains(y) {
                        let m = choose|m: int| 0 <= m < cur.len() && cur[m] == y;
                        if m < k - 1 { assert(pre[m] == y); }
                    }
                    if pre.to_set().contains(y) {
                        let m = choose|m: int| 0 <= m < pre.len() && pre[m] == y;
                        assert(cur[m] == y);
                    }
                    if y == bits@[k - 1]@ {
                        assert(cur[k - 1] == y);
                    }
                }
                assert(self.output_set() =~= old(self).output_set() + cur.to_set());
            }
        }
        proof {
            assert(bits@.subrange(0, bits@.len() as int) =~= bits@);
            assert(list@ =~= bits@);
        }
        let handle = self.output_handles.len();
        self.output_handles.push(CircuitOutput { name: name.to_owned(), bits: list });
        proof {
            assert(self.output_list().drop_last() =~= old(self).output_list());
            assert forall|x: usize| #[trigger] self.output_set().contains(x) implies self.has(x as int) by {
                if old(self).output_set().contains(x) {
                } else {
                    let bs = bits@.map_values(|b: GateIndex| b@);
                    assert(bs.to_set().contains(x));
                    let m = choose|m: int| 0 <= m < bs.len() && bs[m] == x;
                    assert(bits@[m]@ < old(self).num_slots());
                    old(self).lemma_wf_has(x as int);
                }
            }
            assert forall|k: int, b: int| 0 <= k < self.output_list().len() && 0 <= b < self.output_list()[k].bits@.len()
                implies self.output_set().contains(#[trigger] self.output_list()[k].bits@[b]@) by {
                if k < old(self).output_list().len() {
                    assert(self.output_list()[k] == old(self).output_list()[k]);
                    assert(old(self).output_set().contains(old(self).output_list()[k].bits@[b]@));
                } else {
                    let bs = bits@.map_values(|b: GateIndex| b@);
                    assert(bs[b] == bits@[b]@);
                    assert(bs.to_set().contains(bits@[b]@));
                }
            }
            assert forall|i: int| #[trigger] self.has(i) implies self.gate_ok(i) by {
                assert(old(self).has(i));
            }
            assert forall|k: int| 0 <= k < self.levers().len() implies self.has(#[trigger] self.levers()[k]@ as int)
                && self.ty(self.levers()[k]@ as int) is Lever by {
                assert(old(self).has(old(self).levers()[k]@ as int));
            }
        }
        CircuitOutputHandle(handle)
    }

    /// Returns a new output handle named `name` for the single gate `bit`.
    pub fn output1(&mut self, bit: GateIndex, name: &str) -> (r: CircuitOutputHandle)
        requires
            old(self).wf(),
            bit@ < old(self).num_slots(),
        ensures
            final(self).wf(),
            final(self).slots() == old(self).slots(),
            final(self).levers() == old(self).levers(),
            final(self).output_set() == old(self).output_set().insert(bit@),
            final(self).output_list().len() == old(self).output_list().len() + 1,
            final(self).output_list().drop_last() == old(self).output_list(),
            final(self).output_list().last().bits@ == seq![bit],
            r.0 == old(self).output_list().len(),
    {
        let bits = [bit];
        let r = self.output(&bits, name);
        proof {
            assert(bits@ =~= seq![bit]);
            assert(bits@.map_values(|b: GateIndex| b@).to_set() =~= set![bit@]) by {
                assert(bits@.map_values(|b: GateIndex| b@)[0] == bit@);
            }
            assert(self.output_set() =~= old(self).output_set().insert(bit@));
        }
        r
    }

    /// Returns the number of gates in the graph.
    pub fn len(&self) -> (r: usize)
        requires
            self.base_wf(),
        ensures
            r == self.num_slots() - self.free().len(),
    {
        proof {
            self.nodes.lemma_occupied_len();
        }
        self.nodes.len()
    }

    /// Returns true if `gate` is a lever or belongs to an output.
    pub(crate) fn is_observable(&self, gate: usize) -> (r: bool)
        requires
            self.base_wf(),
            self.has(gate as int),
        ensures
            r == self.observable(gate as int),
    {
        if self.outputs.contains(&gate) {
            return true;
        }
        self.nodes.get(SlabIndex::i_actually_really_know_what_i_am_doing_and_i_want_to_construct_from_usize(gate)).unwrap().ty.is_lever()
    }

    /// Returns the initialized version of `gate`, with its edges renumbered by `m` (kept as
    /// they are when `m` is `None`).
    fn convert_gate(gate: &BuildGate, m: Option<&HashMap<usize, usize>>) -> (r: InitializedGate)
        ensures
            r.ty == gate.ty,
            edge_list_items(r.dependencies).len() == gate.deps().len(),
            edge_list_items(r.dependents).len() == gate.dependents_seq().len(),
            forall|k: int| 0 <= k < gate.deps().len() ==> #[trigger] edge_list_items(r.dependencies)[k] == match m {
                Some(m) => remap_index(m@, gate.deps()[k]),
                None => gate.deps()[k],
            },
            forall|k: int| 0 <= k < gate.dependents_seq().len() ==> #[trigger] edge_list_items(r.dependents)[k] == match m {
                Some(m) => remap_index(m@, gate.dependents_seq()[k]),
                None => gate.dependents_seq()[k],
            },
    {
        let deps = edge_list_to_vec(&gate.dependencies);
        let dependents = edge_set_to_vec(&gate.dependents);
        InitializedGate {
            ty: gate.ty,
            dependencies: edge_list_from_vec(remap_all(m, &deps)),
            dependents: edge_list_from_vec(remap_all(m, &dependents)),
        }
    }

    /// Renumbers the gates contiguously, in increasing order of their current index, and
    /// updates every reference to them.
    fn compacted(self) -> (c: CompactedGateGraph)
        requires
            self.base_wf(),
        ensures
            gates_ok(c.nodes@),
            handles_ok(c.nodes@, c.lever_handles@, c.output_handles@),
            c.nodes@.len() <= self.num_slots(),
            c.lever_handles@.len() == self.levers().len(),
            c.output_handles@.len() == self.output_list().len(),
            forall|k: int| 0 <= k < c.output_handles@.len() ==> #[trigger] c.output_handles@[k].bits@.len()
                == self.output_list()[k].bits@.len(),
            self.free().len() == 0 ==> same_gates(c.nodes@, &self) && c.lever_handles@ == self.levers(),
            exists|live: Seq<usize>| #[trigger] self.compacts_to(live, c.nodes@, c.lever_handles@, c.output_handles@),
    {
        let items = self.nodes.items();
        let n = items.len();
        let ghost live = items@.map_values(|x: (SlabIndex, &BuildGate)| x.0@);
        proof {
            assert forall|a: int, c: int| 0 <= a < c < live.len() implies live[a] < live[c] by {
                assert(items@[a].0@ < items@[c].0@);
            }
            assert forall|j: int| 0 <= j < live.len() implies self.has(#[trigger] live[j] as int) by {
                assert(self.nodes.has(items@[j].0@ as int));
            }
            assert forall|i: int| #[trigger] self.has(i) implies live.contains(i as usize) by {
                assert(self.nodes.has(i));
                let k = choose|k: int| 0 <= k < items@.len() && items@[k].0@ == i;
                assert(live[k] == i as usize);
            }
            assert(self.live_order(live));
        }
        proof {
            self.nodes.lemma_occupied_len();
            assert(self.nodes.has(0));
            assert(self.nodes.has(1));
            let k0 = choose|k: int| 0 <= k < items@.len() && items@[k].0@ == 0;
            let k1 = choose|k: int| 0 <= k < items@.len() && items@[k].0@ == 1;
            assert(k1 > 0);
            assert(n >= 2);
            assert(items@[0].0@ == 0) by {
                if k0 != 0 { assert(items@[0].0@ < items@[k0].0@); }
            }
            assert(items@[1].0@ == 1) by {
                if k1 != 1 { assert(items@[1].0@ < items@[k1].0@); }
                assert(items@[0].0@ < items@[1].0@);
            }
        }
        let fast = self.nodes.len() == self.nodes.total_len();
        proof {
            self.nodes.lemma_occupied_len();
            assert(fast <==> self.free().len() == 0);
            let idx = items@.map_values(|x: (SlabIndex, &BuildGate)| x.0@);
            assert forall|j: int| 0 <= j < idx.len() implies idx[j] < self.num_slots() by {
                assert(self.nodes.has(items@[j].0@ as int));
            }
            lemma_increasing_bound(idx, self.num_slots() as int);
            if fast {
                let idx = items@.map_values(|x: (SlabIndex, &BuildGate)| x.0@);
                assert(self.free().len() == 0);
                assert forall|v: int| 0 <= v < self.num_slots() implies #[trigger] seq_holds(idx, v) by {
                    if self.slots()[v] is None {
                        assert(self.nodes.slots()[v] is None);
                        assert(self.nodes.free().contains(v as usize));
                    }
                    assert(self.nodes.has(v));
                    let j = choose|j: int| 0 <= j < items@.len() && items@[j].0@ == v;
                    assert(idx[j] == v);
                }
                assert forall|j: int| 0 <= j < idx.len() implies idx[j] < self.num_slots() by {
                    assert(self.nodes.has(items@[j].0@ as int));
                }
                lemma_increasing_cover(idx, self.num_slots() as int);
                assert forall|j: int| 0 <= j < n implies items@[j].0@ == j by {
                    assert(idx[j] == j);
                }
            }
        }
        let mut index_map: HashMap<usize, usize> = HashMap::new();
        let mut k: usize = 0;
        while k < n
            invariant
                n == items@.len(),
                k <= n,
                forall|key: usize| #[trigger] index_map@.contains_key(key) ==> index_map@[key] < n,
                forall|j: int| 0 <= j < k ==> index_map@.contains_key((#[trigger] items@[j]).0@)
                    && index_map@[items@[j].0@] == j,
                forall|j: int, l: int| 0 <= j < l < items@.len() ==> items@[j].0@ < items@[l].0@,
                live == items@.map_values(|x: (SlabIndex, &BuildGate)| x.0@),
                forall|key: usize| #[trigger] index_map@.contains_key(key) ==> live.contains(key),
            decreases n - k,
        {
            let ghost prev_map = index_map@;
            index_map.insert(items[k].0.i_actually_really_know_what_i_am_doing_and_i_want_the_inner_usize(), k);
            proof {
                assert forall|key: usize| #[trigger] index_map@.contains_key(key) implies live.contains(key) by {
                    if key == items@[k as int].0@ {
                        assert(live[k as int] == key);
                    } else {
                        assert(prev_map.contains_key(key));
                    }
                }
                assert forall|j: int| 0 <= j < k + 1 implies index_map@.contains_key((#[trigger] items@[j]).0@)
                    && index_map@[items@[j].0@] == j by {
                    if j < k { assert(items@[j].0@ != items@[k as int].0@); }
                }
            }
            k = k + 1;
        }
        let map_ref: Option<&HashMap<usize, usize>> = if fast { None } else { Some(&index_map) };
        assert(fast ==> n == self.num_slots() && forall|j: int| 0 <= j < n ==> items@[j].0@ == j);
        let ghost gs = self;
        let mut new_nodes: Vec<InitializedGate> = Vec::new();
        let mut k: usize = 0;
        while k < n
            invariant
                n == items@.len(),
                k <= n,
                new_nodes@.len() == k,
                gs == self,
                self.base_wf(),
                n >= 2,
                items@[0].0@ == 0,
                items@[1].0@ == 1,
                forall|j: int| 0 <= j < items@.len() ==> self.has((#[trigger] items@[j]).0@ as int)
                    && *items@[j].1 == self.slots()[items@[j].0@ as int].unwrap(),
                forall|key: usize| #[trigger] index_map@.contains_key(key) ==> index_map@[key] < n,
                map_ref is None ==> n == self.num_slots(),
                fast ==> n == self.num_slots(),
                map_ref is None <==> fast,
                map_ref matches Some(m) ==> m@ == index_map@,
                forall|j: int| 0 <= j < k ==> {
                    &&& (#[trigger] new_nodes@[j]).ty == self.ty(items@[j].0@ as int)
                    &&& arity_ok(new_nodes@[j].ty, edge_list_items(new_nodes@[j].dependencies))
                    &&& forall|d: int| 0 <= d < edge_list_items(new_nodes@[j].dependencies).len()
                        ==> #[trigger] edge_list_items(new_nodes@[j].dependencies)[d] < n
                    &&& forall|d: int| 0 <= d < edge_list_items(new_nodes@[j].dependents).len()
                        ==> #[trigger] edge_list_items(new_nodes@[j].dependents)[d] < n
                },
                fast ==> forall|j: int| 0 <= j < n ==> items@[j].0@ == j,
                fast ==> forall|j: int| 0 <= j < k ==> #[trigger] same_gate(new_nodes@[j], &self, j),
                live == items@.map_values(|x: (SlabIndex, &BuildGate)| x.0@),
                self.live_order(live),
                forall|j: int| 0 <= j < n ==> index_map@.contains_key((#[trigger] items@[j]).0@)
                    && index_map@[items@[j].0@] == j,
                forall|key: usize| #[trigger] index_map@.contains_key(key) ==> live.contains(key),
                forall|j: int| 0 <= j < k ==> (#[trigger] new_nodes@[j]).ty == self.ty(live[j] as int)
                    && edge_list_items(new_nodes@[j].dependencies) == renumbered(self.deps(live[j] as int), live)
                    && edge_list_items(new_nodes@[j].dependents) == renumbered(self.dependents(live[j] as int), live),
            decreases n - k,
        {
            let gate = items[k].1;
            let g = Self::convert_gate(gate, map_ref);
            proof {
                let i = items@[k as int].0@ as int;
                assert(self.has(i));
                assert(self.gate_ok(i));
                assert(gate.deps() == self.deps(i));
                assert(edge_list_items(g.dependencies) =~= edge_list_items(g.dependencies));
                assert forall|d: int| 0 <= d < edge_list_items(g.dependencies).len()
                    implies #[trigger] edge_list_items(g.dependencies)[d] < n by {
                    assert(self.deps(i)[d] < self.num_slots());
                }
                assert forall|d: int| 0 <= d < edge_list_items(g.dependents).len()
                    implies #[trigger] edge_list_items(g.dependents)[d] < n by {
                    assert(self.dependents(i)[d] < self.num_slots());
                }
            }
            proof {
                if fast {
                    let i = items@[k as int].0@ as int;
                    assert(i == k);
                    assert(edge_list_items(g.dependencies) =~= self.deps(i));
                    assert(edge_list_items(g.dependents) =~= self.dependents(i));
                }
            }
            proof {
                let i = items@[k as int].0@ as int;
                assert(live[k as int] == i);
                assert forall|x: usize| x < self.num_slots() || map_ref is Some implies
                    (match map_ref { Some(m) => remap_index(m@, x), None => x }) == rank_of(live, x) by {
                    match map_ref {
                        Some(m) => {
                            assert forall|j: int| 0 <= j < live.len() implies m@.contains_key(#[trigger] live[j]) && m@[live[j]] == j by {
                                assert(index_map@.contains_key(items@[j].0@));
                            }
                            lemma_rank_map(live, m@, x);
                        },
                        None => {
                            assert(items@[x as int].0@ == x);
                            assert(live[x as int] == x);
                            lemma_rank_at(live, x as int);
                        },
                    }
                }
                assert(edge_list_items(g.dependencies) =~= renumbered(self.deps(i), live)) by {
                    assert forall|d: int| 0 <= d < self.deps(i).len() implies #[trigger] edge_list_items(g.dependencies)[d]
                        == rank_of(live, self.deps(i)[d]) by {
                        assert(self.deps(i)[d] < self.num_slots());
                    }
                }
                assert(edge_list_items(g.dependents) =~= renumbered(self.dependents(i), live)) by {
                    assert(gate.dependents_seq() == self.dependents(i));
                    assert forall|d: int| 0 <= d < self.dependents(i).len() implies #[trigger] edge_list_items(g.dependents)[d]
                        == rank_of(live, self.dependents(i)[d]) by {
                        assert(self.dependents(i)[d] < self.num_slots());
                    }
                }
            }
            let ghost prev = new_nodes@;
            new_nodes.push(g);
            proof {
                assert forall|j: int| 0 <= j < k + 1 implies (#[trigger] new_nodes@[j]).ty == self.ty(live[j] as int)
                    && edge_list_items(new_nodes@[j].dependencies) == renumbered(self.deps(live[j] as int), live)
                    && edge_list_items(new_nodes@[j].dependents) == renumbered(self.dependents(live[j] as int), live) by {
                    if j < k { assert(new_nodes@[j] == prev[j]); }
                }
                if fast {
                    assert forall|j: int| 0 <= j < k + 1 implies #[trigger] same_gate(new_nodes@[j], &self, j) by {
                        if j < k { assert(new_nodes@[j] == prev[j]); }
                    }
                }
            }
            k = k + 1;
        }
        proof {
            assert(gates_ok(new_nodes@)) by {
                assert forall|i: int| 0 <= i < new_nodes@.len() implies #[trigger] gate_ok_in(new_nodes@, i) by {
                    assert(new_nodes@[i].ty == self.ty(items@[i].0@ as int));
                }
                assert(new_nodes@[0].ty == self.ty(0));
                assert(new_nodes@[1].ty == self.ty(1));
            }
        }
        let mut lever_handles: Vec<GateIndex> = Vec::new();
        let mut k: usize = 0;
        while k < self.lever_handles.len()
            invariant
                k <= self.levers().len(),
                lever_handles@.len() == k,
                self.base_wf(),
                n == items@.len(),
                gates_ok(new_nodes@),
                new_nodes@.len() == n,
                forall|j: int| 0 <= j < items@.len() ==> self.has((#[trigger] items@[j]).0@ as int),
                forall|i: int| #[trigger] self.nodes.has(i) ==> exists|j: int| 0 <= j < items@.len() && items@[j].0@ == i,
                forall|j: int| 0 <= j < n ==> (#[trigger] new_nodes@[j]).ty == self.ty(items@[j].0@ as int),
                forall|key: usize| #[trigger] index_map@.contains_key(key) ==> index_map@[key] < n,
                forall|j: int| 0 <= j < n ==> index_map@.contains_key((#[trigger] items@[j]).0@)
                    && index_map@[items@[j].0@] == j,
                map_ref is None ==> n == self.num_slots() && forall|j: int| 0 <= j < n ==> items@[j].0@ == j,
                map_ref matches Some(m) ==> m@ == index_map@,
                forall|j: int| 0 <= j < k ==> #[trigger] lever_handles@[j]@ < n
                    && new_nodes@[lever_handles@[j]@ as int].ty is Lever,
                map_ref is None ==> lever_handles@ == self.levers().subrange(0, k as int),
                live == items@.map_values(|x: (SlabIndex, &BuildGate)| x.0@),
                self.live_order(live),
                forall|key: usize| #[trigger] index_map@.contains_key(key) ==> live.contains(key),
                forall|j: int| 0 <= j < k ==> (#[trigger] lever_handles@[j])@ == rank_of(live, self.levers()[j]@),
            decreases self.levers().len() - k,
        {
            let old_idx = self.lever_handles[k].idx;
            let new_idx = match map_ref {
                Some(m) => remap(m, old_idx),
                None => old_idx,
            };
            proof {
                assert(self.levers()[k as int]@ == old_idx);
                assert(self.has(old_idx as int) && self.ty(old_idx as int) is Lever);
                assert(self.nodes.has(old_idx as int));
                let j = choose|j: int| 0 <= j < items@.len() && items@[j].0@ == old_idx as int;
                assert(index_map@[items@[j].0@] == j);
                assert(new_nodes@[j].ty is Lever);
            }
            proof {
                match map_ref {
                    Some(m) => {
                        assert forall|j: int| 0 <= j < live.len() implies m@.contains_key(#[trigger] live[j]) && m@[live[j]] == j by {
                            assert(index_map@.contains_key(items@[j].0@));
                        }
                        lemma_rank_map(live, m@, old_idx);
                    },
                    None => {
                        assert(items@[old_idx as int].0@ == old_idx);
                        assert(live[old_idx as int] == old_idx);
                        lemma_rank_at(live, old_idx as int);
                    },
                }
                assert(new_idx == rank_of(live, self.levers()[k as int]@));
            }
            let ghost prev_levers = lever_handles@;
            lever_handles.push(GateIndex { idx: new_idx });
            proof {
                assert forall|j: int| 0 <= j < k + 1 implies (#[trigger] lever_handles@[j])@ == rank_of(live, self.levers()[j]@) by {
                    if j < k { assert(lever_handles@[j] == prev_levers[j]); }
                }
                if map_ref is None {
                    assert(lever_handles@ =~= self.levers().subrange(0, k + 1));
                }
            }
            k = k + 1;
        }
        proof {
            if map_ref is None {
                assert(lever_handles@ =~= self.levers());
            }
            if fast {
                assert(same_gates(new_nodes@, &self));
            }
        }
        let mut output_handles: Vec<CircuitOutput> = Vec::new();
        let mut outputs: HashSet<usize> = HashSet::new();
        let mut k: usize = 0;
        while k < self.output_handles.len()
            invariant
                k <= self.output_list().len(),
                output_handles@.len() == k,
                self.base_wf(),
                n == items@.len(),
                new_nodes@.len() == n,
                forall|i: int| #[trigger] self.nodes.has(i) ==> exists|j: int| 0 <= j < items@.len() && items@[j].0@ == i,
                forall|key: usize| #[trigger] index_map@.contains_key(key) ==> index_map@[key] < n,
                forall|j: int| 0 <= j < n ==> index_map@.contains_key((#[trigger] items@[j]).0@)
                    && index_map@[items@[j].0@] == j,
                map_ref is None ==> n == self.num_slots(),
                map_ref matches Some(m) ==> m@ == index_map@,
                forall|j: int| 0 <= j < k ==> #[trigger] output_handles@[j].bits@.len() == self.output_list()[j].bits@.len(),
                forall|j: int, b: int| 0 <= j < k && 0 <= b < output_handles@[j].bits@.len()
                    ==> #[trigger] output_handles@[j].bits@[b]@ < n,
                live == items@.map_values(|x: (SlabIndex, &BuildGate)| x.0@),
                self.live_order(live),
                map_ref is None ==> forall|j: int| 0 <= j < n ==> items@[j].0@ == j,
                forall|key: usize| #[trigger] index_map@.contains_key(key) ==> live.contains(key),
                forall|j: int| 0 <= j < k ==> (#[trigger] output_handles@[j]).bits@.map_values(|b: GateIndex| b@)
                    == renumbered_gates(self.output_list()[j].bits@, live),
            decreases self.output_list().len() - k,
        {
            let handle = &self.output_handles[k];
            let mut bits: Vec<GateIndex> = Vec::new();
            let mut b: usize = 0;
            while b < handle.bits.len()
                invariant
                    b <= handle.bits@.len(),
                    bits@.len() == b,
                    *handle == self.output_list()[k as int],
                    k < self.output_list().len(),
                    self.base_wf(),
                    n == items@.len(),
                    forall|i: int| #[trigger] self.nodes.has(i) ==> exists|j: int| 0 <= j < items@.len() && items@[j].0@ == i,
                    forall|key: usize| #[trigger] index_map@.contains_key(key) ==> index_map@[key] < n,
                    forall|j: int| 0 <= j < n ==> index_map@.contains_key((#[trigger] items@[j]).0@)
                        && index_map@[items@[j].0@] == j,
                    map_ref is None ==> n == self.num_slots(),
                    map_ref matches Some(m) ==> m@ == index_map@,
                    forall|c: int| 0 <= c < b ==> #[trigger] bits@[c]@ < n,
                    live == items@.map_values(|x: (SlabIndex, &BuildGate)| x.0@),
                    self.live_order(live),
                    map_ref is None ==> forall|j: int| 0 <= j < n ==> items@[j].0@ == j,
                    forall|key: usize| #[trigger] index_map@.contains_key(key) ==> live.contains(key),
                    forall|c: int| 0 <= c < b ==> (#[trigger] bits@[c])@ == rank_of(live, handle.bits@[c]@),
                decreases handle.bits@.len() - b,
            {
                let old_idx = handle.bits[b].idx;
                proof {
                    assert(self.output_set().contains(self.output_list()[k as int].bits@[b as int]@));
                    assert(self.has(old_idx as int));
                    assert(self.nodes.has(old_idx as int));
                    let j = choose|j: int| 0 <= j < items@.len() && items@[j].0@ == old_idx as int;
                    assert(index_map@[items@[j].0@] == j);
                }
                let new_idx = match map_ref {
                    Some(m) => remap(m, old_idx),
                    None => old_idx,
                };
                proof {
                    match map_ref {
                        Some(m) => {
                            assert forall|j: int| 0 <= j < live.len() implies m@.contains_key(#[trigger] live[j]) && m@[live[j]] == j by {
                                assert(index_map@.contains_key(items@[j].0@));
                            }
                            lemma_rank_map(live, m@, old_idx);
                        },
                        None => {
                            assert(items@[old_idx as int].0@ == old_idx);
                            assert(live[old_idx as int] == old_idx);
                            lemma_rank_at(live, old_idx as int);
                        },
                    }
                }
                let ghost prev_bits = bits@;
                bits.push(GateIndex { idx: new_idx });
                proof {
                    assert forall|c: int| 0 <= c < b + 1 implies (#[trigger] bits@[c])@ == rank_of(live, handle.bits@[c]@) by {
                        if c < b { assert(bits@[c] == prev_bits[c]); }
                    }
                }
                outputs.insert(new_idx);
                b = b + 1;
            }
            let ghost prev_outs = output_handles@;
            let out = CircuitOutput { name: handle.name.clone(), bits };
            proof {
                assert(out.bits@.map_values(|b: GateIndex| b@) =~= renumbered_gates(self.output_list()[k as int].bits@, live));
            }
            output_handles.push(out);
            proof {
                assert forall|j: int| 0 <= j < k + 1 implies (#[trigger] output_handles@[j]).bits@.map_values(|b: GateIndex| b@)
                    == renumbered_gates(self.output_list()[j].bits@, live) by {
                    if j < k { assert(output_handles@[j] == prev_outs[j]); }
                }
            }
            k = k + 1;
        }
        proof {
            assert(new_nodes@.len() == live.len());
            assert(lever_handles@.len() == self.levers().len());
            assert(output_handles@.len() == self.output_list().len());
            assert(self.compacts_to(live, new_nodes@, lever_handles@, output_handles@));
        }
        let c = CompactedGateGraph { nodes: new_nodes, output_handles, lever_handles, outputs };
        proof {
            assert(self.compacts_to(live, c.nodes@, c.lever_handles@, c.output_handles@));
        }
        c
    }

    /// True if `s` are the graphs before and after each optimization pass in the order that
    /// [GateGraphBuilder::optimize] runs them, each related to the one before it as that pass
    /// states.
    pub open spec fn optimization_chain(s: Seq<GateGraphBuilder>) -> bool {
        &&& s.len() == 10
        &&& const_propagated(&s[0], &s[1])
        &&& nots_merged(&s[1], &s[2])
        &&& collapsed(&s[2], &s[3])
        &&& cleaned(&s[3], &s[4])
        &&& value_numbered(&s[4], &s[5])
        &&& gates_merged(&s[5], &s[6])
        &&& deps_deduplicated(&s[6], &s[7])
        &&& const_propagated(&s[7], &s[8])
        &&& cleaned(&s[8], &s[9])
    }

    /// Runs all optimizations, in the order: const propagation, not deduplication, single
    /// dependency collapsing, dead code elimination, global value numbering, equal gate merging,
    /// dependency deduplication, const propagation again, and dead code elimination again, so
    /// that no dead gate is left. Every gate that cannot be observed, that a constant lists
    /// among its dependents and whose output that constant decides (see [const_decided]) is
    /// gone afterwards.
    fn optimize(&mut self)
        requires
            old(self).base_wf(),
        ensures
            final(self).optimized_from(old(self)),
            forall|i: usize, on: bool| #[trigger] const_decided(old(self), i, on) ==> !final(self).has(i as int),
            forall|i: usize| !#[trigger] is_dead(final(self), i),
            exists|s: Seq<GateGraphBuilder>| #[trigger] Self::optimization_chain(s) && s[0] == *old(self)
                && s.last() == *final(self),
    {
        let ghost s0 = *self;
        const_propagation_pass(self);
        let ghost s1 = *self;
        not_deduplication_pass(self);
        let ghost s2 = *self;
        single_dependency_collapsing_pass(self);
        let ghost s3 = *self;
        dead_code_elimination_pass(self);
        let ghost s4 = *self;
        global_value_numbering_pass(self);
        let ghost s5 = *self;
        equal_gate_merging_pass(self);
        let ghost s6 = *self;
        dependency_deduplication_pass(self);
        let ghost s7 = *self;
        const_propagation_pass(self);
        let ghost s8 = *self;
        dead_code_elimination_pass(self);
        proof {
            Self::lemma_optimized_trans(&s7, &s8, self);
            Self::lemma_optimized_trans(&s0, &s1, &s2);
            Self::lemma_optimized_trans(&s0, &s2, &s3);
            Self::lemma_optimized_trans(&s0, &s3, &s4);
            Self::lemma_optimized_trans(&s0, &s4, &s5);
            Self::lemma_optimized_trans(&s0, &s5, &s6);
            Self::lemma_optimized_trans(&s0, &s6, &s7);
            Self::lemma_optimized_trans(&s0, &s7, self);
            Self::lemma_optimized_trans(&s1, &s2, &s3);
            Self::lemma_optimized_trans(&s1, &s3, &s4);
            Self::lemma_optimized_trans(&s1, &s4, &s5);
            Self::lemma_optimized_trans(&s1, &s5, &s6);
            Self::lemma_optimized_trans(&s1, &s6, &s7);
            Self::lemma_optimized_trans(&s1, &s7, self);
            assert forall|i: usize, on: bool| #[trigger] const_decided(&s0, i, on) implies !self.has(i as int) by {
                assert(!s1.has(i as int));
                assert(!s7.has(i as int));
            }
            let chain = seq![s0, s1, s2, s3, s4, s5, s6, s7, s8, *self];
            assert(Self::optimization_chain(chain));
        }
    }

    /// True if `opt` can come out of [GateGraphBuilder::optimize] run on `self`: it ends a chain
    /// of the passes, each as it states (see [GateGraphBuilder::optimization_chain]); it is
    /// optimized from `self` (see [GateGraphBuilder::optimized_from]); no gate that cannot be
    /// observed and whose output a constant listing it decides is left (see [const_decided]);
    /// and no gate is dead (see [is_dead]).
    pub open spec fn optimizes_to(&self, opt: GateGraphBuilder) -> bool {
        &&& exists|s: Seq<GateGraphBuilder>| #[trigger] Self::optimization_chain(s) && s[0] == *self && s.last() == opt
        &&& opt.optimized_from(self)
        &&& forall|i: usize, on: bool| #[trigger] const_decided(self, i, on) ==> !opt.has(i as int)
        &&& forall|i: usize| !#[trigger] is_dead(&opt, i)
    }

    /// Returns an [InitializedGateGraph] made from `self` after running the optimizations (see
    /// [GateGraphBuilder::optimizes_to]): the optimized graph with its gates renumbered
    /// contiguously, every lever off, and every gate computed once, in index order, each
    /// propagated to its dependents (see [InitializedGateGraph::computed_once]).
    pub fn init(self) -> (g: InitializedGateGraph)
        requires
            self.base_wf(),
            self.num_slots() <= usize::MAX - 63,
        ensures
            g.wf(),
            g.levers().len() == self.levers().len(),
            g.output_list().len() == self.output_list().len(),
            forall|k: int| 0 <= k < g.output_list().len() ==> #[trigger] g.output_list()[k].bits@.len()
                == self.output_list()[k].bits@.len(),
            exists|opt: GateGraphBuilder| #[trigger] self.optimizes_to(opt) && opt.initializes(&g),
            forall|i: int| 0 <= i < g.num_gates() && g.ty(i) is Lever ==> !g.states()[i],
            forall|i: int| 0 <= i < g.num_gates() ==> #[trigger] g.updated()[i],
            InitializedGateGraph::computed_once(g),
    {
        let mut this = self;
        this.optimize();
        let ghost opt = this;
        let g = this.init_unoptimized();
        proof {
            assert(self.optimizes_to(opt));
        }
        g
    }

    /// Returns an [InitializedGateGraph] made from `self` without running optimizations. A graph
    /// from which no gate has been removed keeps its gates, index for index, and its levers.
    pub fn init_unoptimized(self) -> (g: InitializedGateGraph)
        requires
            self.base_wf(),
            self.num_slots() <= usize::MAX - 63,
        ensures
            g.wf(),
            g.levers().len() == self.levers().len(),
            g.output_list().len() == self.output_list().len(),
            forall|k: int| 0 <= k < g.output_list().len() ==> #[trigger] g.output_list()[k].bits@.len()
                == self.output_list()[k].bits@.len(),
            self.free().len() == 0 ==> same_gates(g.gates(), &self) && g.levers() == self.levers(),
            self.free().len() == 0 && self.dependents_mirrored() ==> g.dependents_complete(),
            self.initializes(&g),
            forall|i: int| 0 <= i < g.num_gates() && g.ty(i) is Lever ==> !g.states()[i],
            forall|i: int| 0 <= i < g.num_gates() ==> #[trigger] g.updated()[i],
            InitializedGateGraph::computed_once(g),
    {
        let c = self.compacted();
        let ghost cn = c.nodes@;
        let ghost cl = c.lever_handles@;
        let ghost co = c.output_handles@;
        let g = InitializedGateGraph::from_parts(c.nodes, c.output_handles, c.lever_handles, c.outputs);
        proof {
            let live = choose|live: Seq<usize>| #[trigger] self.compacts_to(live, cn, cl, co);
            assert(self.compacts_to(live, g.gates(), g.levers(), g.output_list()));
            if self.free().len() == 0 && self.dependents_mirrored() {
                let gs = g.gates();
                assert forall|i: int, k: int| 0 <= i < gs.len() && 0 <= k < edge_list_items(gs[i].dependencies).len()
                    implies #[trigger] edge_list_items(gs[edge_list_items(gs[i].dependencies)[k] as int].dependents).contains(i as usize) by {
                    assert(same_gate(gs[i], &self, i));
                    let d = self.deps(i)[k] as int;
                    assert(self.dependents(d).contains(i as usize));
                    assert(d < self.num_slots()) by {
                        self.lemma_wf_has(i);
                    }
                    assert(same_gate(gs[d], &self, d));
                }
            }
        }
        g
    }

    /// The state that gate `i` reaches when every gate is computed from its dependencies
    /// `fuel` levels deep, the levers holding `levers` (and a gate that is not there, or one
    /// reached with no fuel left, reading false). On a graph without cycles, enough fuel gives
    /// the state that gate `i` settles to.
    pub open spec fn eval(&self, levers: spec_fn(int) -> bool, i: int, fuel: nat) -> bool
        decreases fuel, 0nat,
    {
        if fuel == 0 || !self.has(i) {
            false
        } else {
            gate_output(self.ty(i), self.eval_all(levers, self.deps(i), (fuel - 1) as nat), levers(i))
        }
    }

    /// The states of the gates `ds`, each computed as [GateGraphBuilder::eval] does.
    pub open spec fn eval_all(&self, levers: spec_fn(int) -> bool, ds: Seq<usize>, fuel: nat) -> Seq<bool>
        decreases fuel, ds.len() + 1,
    {
        if ds.len() == 0 {
            Seq::empty()
        } else {
            self.eval_all(levers, ds.drop_last(), fuel).push(self.eval(levers, ds.last() as int, fuel))
        }
    }

    /// True if the gates `live` of `self` are its gates, in increasing order.
    pub open spec fn live_order(&self, live: Seq<usize>) -> bool {
        &&& forall|a: int, c: int| 0 <= a < c < live.len() ==> live[a] < live[c]
        &&& forall|j: int| 0 <= j < live.len() ==> self.has(#[trigger] live[j] as int)
        &&& forall|i: int| #[trigger] self.has(i) ==> live.contains(i as usize)
    }

    /// True if `nodes`, `levers` and `outputs` are the gates, levers and outputs of `self`
    /// renumbered contiguously: gate `j` is gate `live[j]` of `self`, with its dependencies and
    /// dependents renumbered by [rank_of], and so are the levers and the output gates.
    pub open spec fn compacts_to(&self, live: Seq<usize>, nodes: Seq<InitializedGate>, levers: Seq<GateIndex>,
        outputs: Seq<CircuitOutput>) -> bool {
        &&& self.live_order(live)
        &&& nodes.len() == live.len()
        &&& forall|j: int| 0 <= j < nodes.len() ==> (#[trigger] nodes[j]).ty == self.ty(live[j] as int)
        &&& forall|j: int| 0 <= j < nodes.len() ==> edge_list_items((#[trigger] nodes[j]).dependencies)
            == renumbered(self.deps(live[j] as int), live)
        &&& forall|j: int| 0 <= j < nodes.len() ==> edge_list_items((#[trigger] nodes[j]).dependents)
            == renumbered(self.dependents(live[j] as int), live)
        &&& levers.len() == self.levers().len()
        &&& forall|k: int| 0 <= k < levers.len() ==> (#[trigger] levers[k])@ == rank_of(live, self.levers()[k]@)
        &&& outputs.len() == self.output_list().len()
        &&& forall|k: int| 0 <= k < outputs.len() ==> (#[trigger] outputs[k]).bits@.map_values(|b: GateIndex| b@)
            == renumbered_gates(self.output_list()[k].bits@, live)
    }

    /// True if `g` is `self` with its gates renumbered contiguously (see [GateGraphBuilder::compacts_to]).
    pub open spec fn initializes(&self, g: &InitializedGateGraph) -> bool {
        exists|live: Seq<usize>| #[trigger] self.compacts_to(live, g.gates(), g.levers(), g.output_list())
    }

    /// True if `self` can result from optimizing `old`: no gate appears, observable gates stay,
    /// levers stay levers, and the levers and outputs are unchanged.
    pub open spec fn optimized_from(&self, old: &Self) -> bool {
        &&& self.base_wf()
        &&& self.num_slots() == old.num_slots()
        &&& self.levers() == old.levers()
        &&& self.output_list() == old.output_list()
        &&& self.output_set() == old.output_set()
        &&& forall|i: int| #[trigger] self.has(i) ==> old.has(i)
        &&& forall|i: int| #[trigger] old.has(i) && old.observable(i) ==> self.has(i)
        &&& forall|i: int| #[trigger] old.has(i) && old.ty(i) is Lever ==> self.has(i) && self.ty(i) is Lever
    }

    /// Optimizing is transitive.
    pub proof fn lemma_optimized_trans(a: &Self, b: &Self, c: &Self)
        requires
            b.optimized_from(a),
            c.optimized_from(b),
        ensures
            c.optimized_from(a),
    {
        assert forall|i: int| #[trigger] a.has(i) && a.observable(i) implies c.has(i) by {
            assert(b.has(i));
            if a.output_set().contains(i as usize) {
                assert(b.observable(i));
            } else {
                assert(b.ty(i) is Lever);
                assert(b.observable(i));
            }
        }
        assert forall|i: int| #[trigger] a.has(i) && a.ty(i) is Lever implies c.has(i) && c.ty(i) is Lever by {
            assert(b.has(i) && b.ty(i) is Lever);
        }
        assert forall|i: int| #[trigger] c.has(i) implies a.has(i) by {
            assert(b.has(i));
        }
    }

    /// A well formed graph is an optimized version of itself.
    pub proof fn lemma_optimized_refl(&self)
        requires
            self.base_wf(),
        ensures
            self.optimized_from(self),
    {
    }

    /// A change to one gate that keeps levers as they are is an optimization step.
    proof fn lemma_same_except_optimized(&self, old: &Self, at: int)
        requires
            old.base_wf(),
            self.base_wf(),
            self.same_except(old, at),
            old.has(at) ==> (old.ty(at) is Lever ==> self.ty(at) is Lever),
        ensures
            self.optimized_from(old),
    {
        assert forall|i: int| #[trigger] self.has(i) implies old.has(i) by {
            if i != at { assert(self.slots()[i] == old.slots()[i]); }
        }
        assert forall|i: int| #[trigger] old.has(i) && old.observable(i) implies self.has(i) by {
            if i != at { assert(self.slots()[i] == old.slots()[i]); }
        }
        assert forall|i: int| #[trigger] old.has(i) && old.ty(i) is Lever implies self.has(i) && self.ty(i) is Lever by {
            if i != at { assert(self.slots()[i] == old.slots()[i]); }
        }
    }

    /// Fewer slots are free than there are slots, as long as a gate is there.
    pub proof fn lemma_free_bound(&self, at: int)
        requires
            self.base_wf(),
            self.has(at),
        ensures
            self.free().len() < self.num_slots(),
    {
        self.nodes.lemma_occupied_len();
        assert(self.nodes.occupied().contains(at));
        assert(self.nodes.occupied().len() > 0);
    }

    /// Every gate of a well formed graph is well formed.
    pub proof fn lemma_gate_ok(&self, i: int)
        requires
            self.base_wf(),
            self.has(i),
        ensures
            self.gate_ok(i),
    {
    }

    /// The constants are always there.
    pub proof fn lemma_consts(&self)
        requires
            self.base_wf(),
        ensures
            self.has(0) && self.ty(0) is Off,
            self.has(1) && self.ty(1) is On,
            self.free().len() < self.num_slots(),
    {
        self.lemma_free_bound(0);
    }

    /// Returns true if `gate` belongs to an output.
    pub fn is_output(&self, gate: usize) -> (r: bool)
        ensures
            r == self.output_set().contains(gate),
    {
        self.outputs.contains(&gate)
    }

    /// Returns the gates of the levers, in creation order.
    pub(crate) fn lever_indexes(&self) -> (r: Vec<usize>)
        requires
            self.base_wf(),
        ensures
            r@.len() == self.levers().len(),
            forall|k: int| 0 <= k < r@.len() ==> #[trigger] r@[k] == self.levers()[k]@,
            forall|k: int| 0 <= k < r@.len() ==> self.has(#[trigger] r@[k] as int),
    {
        let mut r: Vec<usize> = Vec::new();
        let mut k: usize = 0;
        while k < self.lever_handles.len()
            invariant
                self.base_wf(),
                k <= self.lever_handles@.len(),
                r@.len() == k,
                forall|j: int| 0 <= j < k ==> #[trigger] r@[j] == self.levers()[j]@,
            decreases self.lever_handles@.len() - k,
        {
            r.push(self.lever_handles[k].idx);
            k = k + 1;
        }
        proof {
            assert forall|j: int| 0 <= j < r@.len() implies self.has(#[trigger] r@[j] as int) by {
                assert(self.has(self.levers()[j]@ as int));
            }
        }
        r
    }

    /// Returns the number of slots ever handed out, removed gates included.
    pub fn total_len(&self) -> (r: usize)
        ensures
            r == self.num_slots(),
    {
        self.nodes.total_len()
    }

    /// Returns the type of gate `at`, or `None` if there is none.
    pub fn gate_type(&self, at: usize) -> (r: Option<GateType>)
        requires
            self.base_wf(),
        ensures
            r == (if self.has(at as int) { Some(self.ty(at as int)) } else { None }),
    {
        match self.nodes.get(SlabIndex::i_actually_really_know_what_i_am_doing_and_i_want_to_construct_from_usize(at)) {
            Some(g) => Some(g.ty),
            None => None,
        }
    }

    /// Returns the dependencies of gate `at`, in order.
    pub fn dependencies_of(&self, at: usize) -> (r: Vec<usize>)
        requires
            self.base_wf(),
            self.has(at as int),
        ensures
            r@ == self.deps(at as int),
    {
        edge_list_to_vec(&self.nodes.get(SlabIndex::i_actually_really_know_what_i_am_doing_and_i_want_to_construct_from_usize(at)).unwrap().dependencies)
    }

    /// Returns the dependents of gate `at`, in order.
    pub fn dependents_of(&self, at: usize) -> (r: Vec<usize>)
        requires
            self.base_wf(),
            self.has(at as int),
        ensures
            r@ == self.dependents(at as int),
    {
        edge_set_to_vec(&self.nodes.get(SlabIndex::i_actually_really_know_what_i_am_doing_and_i_want_to_construct_from_usize(at)).unwrap().dependents)
    }

    /// Returns the number of dependents of gate `at`.
    pub(crate) fn dependents_len(&self, at: usize) -> (r: usize)
        requires
            self.base_wf(),
            self.has(at as int),
        ensures
            r == self.dependents(at as int).len(),
    {
        edge_set_len(&self.nodes.get(SlabIndex::i_actually_really_know_what_i_am_doing_and_i_want_to_construct_from_usize(at)).unwrap().dependents)
    }

    /// Changes the type of gate `at` to `ty`.
    pub(crate) fn set_type(&mut self, at: usize, ty: GateType)
        requires
            old(self).base_wf(),
            old(self).has(at as int),
            arity_ok(ty, old(self).deps(at as int)),
            !(ty is Lever || ty is Off || ty is On),
            !(old(self).ty(at as int) is Lever || old(self).ty(at as int) is Off || old(self).ty(at as int) is On),
        ensures
            final(self).optimized_from(old(self)),
            final(self).same_except(old(self), at as int),
            final(self).ty(at as int) == ty,
            final(self).deps(at as int) == old(self).deps(at as int),
            final(self).dependents(at as int) == old(self).dependents(at as int),
    {
        proof {
            assert(old(self).gate_ok(at as int));
        }
        match self.nodes.get_mut(SlabIndex::i_actually_really_know_what_i_am_doing_and_i_want_to_construct_from_usize(at)) {
            Some(gate) => {
                gate.ty = ty;
            },
            None => {},
        }
        proof {
            self.lemma_base_wf_after_change(old(self), at as int);
            self.lemma_same_except_optimized(old(self), at as int);
        }
    }

    /// Removes the dependency at position `pos` of gate `at`.
    pub(crate) fn remove_dependency_at(&mut self, at: usize, pos: usize)
        requires
            old(self).base_wf(),
            old(self).has(at as int),
            pos < old(self).deps(at as int).len(),
            arity_ok(old(self).ty(at as int), old(self).deps(at as int).remove(pos as int)),
        ensures
            final(self).optimized_from(old(self)),
            final(self).same_except(old(self), at as int),
            final(self).ty(at as int) == old(self).ty(at as int),
            final(self).deps(at as int) == old(self).deps(at as int).remove(pos as int),
            final(self).dependents(at as int) == old(self).dependents(at as int),
    {
        proof {
            assert(old(self).gate_ok(at as int));
        }
        match self.nodes.get_mut(SlabIndex::i_actually_really_know_what_i_am_doing_and_i_want_to_construct_from_usize(at)) {
            Some(gate) => {
                edge_list_remove(&mut gate.dependencies, pos);
            },
            None => {},
        }
        proof {
            let r = self.deps(at as int);
            let o = old(self).deps(at as int);
            assert forall|k: int| 0 <= k < r.len() implies #[trigger] r[k] < self.num_slots() by {
                if k < pos { assert(r[k] == o[k]); } else { assert(r[k] == o[k + 1]); }
            }
            self.lemma_base_wf_after_change(old(self), at as int);
            self.lemma_same_except_optimized(old(self), at as int);
        }
    }

    /// Replaces the dependencies of gate `at` with `deps`.
    pub(crate) fn set_dependencies(&mut self, at: usize, deps: Vec<usize>)
        requires
            old(self).base_wf(),
            old(self).has(at as int),
            arity_ok(old(self).ty(at as int), deps@),
            forall|k: int| 0 <= k < deps@.len() ==> #[trigger] deps@[k] < old(self).num_slots(),
        ensures
            final(self).optimized_from(old(self)),
            final(self).same_except(old(self), at as int),
            final(self).ty(at as int) == old(self).ty(at as int),
            final(self).deps(at as int) == deps@,
            final(self).dependents(at as int) == old(self).dependents(at as int),
    {
        proof {
            assert(old(self).gate_ok(at as int));
        }
        let list = edge_list_from_vec(deps);
        match self.nodes.get_mut(SlabIndex::i_actually_really_know_what_i_am_doing_and_i_want_to_construct_from_usize(at)) {
            Some(gate) => {
                gate.dependencies = list;
            },
            None => {},
        }
        proof {
            self.lemma_base_wf_after_change(old(self), at as int);
            self.lemma_same_except_optimized(old(self), at as int);
        }
    }

    /// Replaces every occurrence of `old_dep` with `new_dep` in the dependencies of gate
    /// `at`, if there is one.
    pub(crate) fn swap_dependency_of(&mut self, at: usize, old_dep: usize, new_dep: usize)
        requires
            old(self).base_wf(),
            new_dep < old(self).num_slots(),
        ensures
            final(self).optimized_from(old(self)),
            final(self).same_except(old(self), at as int),
            old(self).has(at as int) ==> final(self).ty(at as int) == old(self).ty(at as int)
                && final(self).deps(at as int) == old(self).deps(at as int).map_values(
                    |d: usize| if d == old_dep { new_dep } else { d })
                && final(self).dependents(at as int) == old(self).dependents(at as int),
    {
        match self.nodes.get_mut(SlabIndex::i_actually_really_know_what_i_am_doing_and_i_want_to_construct_from_usize(at)) {
            Some(gate) => {
                gate.swap_dependency(old_dep, new_dep);
            },
            None => {},
        }
        proof {
            if old(self).has(at as int) {
                assert(old(self).gate_ok(at as int));
                let r = self.deps(at as int);
                let o = old(self).deps(at as int);
                assert forall|k: int| 0 <= k < r.len() implies #[trigger] r[k] < self.num_slots() by {
                    assert(o[k] < self.num_slots());
                }
            }
            self.lemma_base_wf_after_change(old(self), at as int);
            self.lemma_same_except_optimized(old(self), at as int);
        }
    }

    /// Empties the dependents of gate `at` and returns them, in order.
    pub(crate) fn take_dependents(&mut self, at: usize) -> (r: Vec<usize>)
        requires
            old(self).base_wf(),
            old(self).has(at as int),
        ensures
            final(self).optimized_from(old(self)),
            final(self).same_except(old(self), at as int),
            final(self).ty(at as int) == old(self).ty(at as int),
            final(self).deps(at as int) == old(self).deps(at as int),
            final(self).dependents(at as int) == Seq::<usize>::empty(),
            r@ == old(self).dependents(at as int),
    {
        proof {
            assert(old(self).gate_ok(at as int));
        }
        let mut r: Vec<usize> = Vec::new();
        match self.nodes.get_mut(SlabIndex::i_actually_really_know_what_i_am_doing_and_i_want_to_construct_from_usize(at)) {
            Some(gate) => {
                r = edge_set_drain(&mut gate.dependents);
            },
            None => {},
        }
        proof {
            self.lemma_base_wf_after_change(old(self), at as int);
            self.lemma_same_except_optimized(old(self), at as int);
        }
        r
    }

    /// Sorts the dependencies of gate `at`.
    pub(crate) fn sort_dependencies(&mut self, at: usize)
        requires
            old(self).base_wf(),
            old(self).has(at as int),
        ensures
            final(self).optimized_from(old(self)),
            final(self).same_except(old(self), at as int),
            final(self).ty(at as int) == old(self).ty(at as int),
            sorted(final(self).deps(at as int)),
            final(self).deps(at as int).to_multiset() == old(self).deps(at as int).to_multiset(),
            final(self).dependents(at as int) == old(self).dependents(at as int),
    {
        proof {
            assert(old(self).gate_ok(at as int));
        }
        match self.nodes.get_mut(SlabIndex::i_actually_really_know_what_i_am_doing_and_i_want_to_construct_from_usize(at)) {
            Some(gate) => {
                edge_list_sort(&mut gate.dependencies);
            },
            None => {},
        }
        proof {
            let r = self.deps(at as int);
            let o = old(self).deps(at as int);
            r.to_multiset_ensures();
            o.to_multiset_ensures();
            assert(r.len() == o.len());
            assert forall|k: int| 0 <= k < r.len() implies #[trigger] r[k] < self.num_slots() by {
                assert(r.contains(r[k]));
                assert(r.to_multiset().count(r[k]) > 0);
                assert(o.contains(r[k]));
                let m = choose|m: int| 0 <= m < o.len() && o[m] == r[k];
            }
            self.lemma_base_wf_after_change(old(self), at as int);
            self.lemma_same_except_optimized(old(self), at as int);
        }
    }

    /// Removes consecutive repeated dependencies of gate `at`.
    pub(crate) fn dedup_dependencies(&mut self, at: usize)
        requires
            old(self).base_wf(),
            old(self).has(at as int),
        ensures
            final(self).optimized_from(old(self)),
            final(self).same_except(old(self), at as int),
            final(self).ty(at as int) == old(self).ty(at as int),
            final(self).deps(at as int) == dedup_seq(old(self).deps(at as int)),
            final(self).dependents(at as int) == old(self).dependents(at as int),
    {
        proof {
            assert(old(self).gate_ok(at as int));
        }
        match self.nodes.get_mut(SlabIndex::i_actually_really_know_what_i_am_doing_and_i_want_to_construct_from_usize(at)) {
            Some(gate) => {
                edge_list_dedup(&mut gate.dependencies);
            },
            None => {},
        }
        proof {
            let r = self.deps(at as int);
            let o = old(self).deps(at as int);
            lemma_dedup(o);
            assert forall|k: int| 0 <= k < r.len() implies #[trigger] r[k] < self.num_slots() by {
                assert(r.contains(r[k]));
                let m = choose|m: int| 0 <= m < o.len() && o[m] == r[k];
            }
            self.lemma_base_wf_after_change(old(self), at as int);
            self.lemma_same_except_optimized(old(self), at as int);
        }
    }

    /// Removes gate `at`, which must not be observable nor a constant.
    pub(crate) fn remove_gate(&mut self, at: usize)
        requires
            old(self).base_wf(),
            old(self).has(at as int),
            !old(self).observable(at as int),
            at >= 2,
        ensures
            final(self).optimized_from(old(self)),
            !final(self).has(at as int),
            final(self).free().len() == old(self).free().len() + 1,
            forall|j: int| 0 <= j < final(self).num_slots() && j != at ==> #[trigger] final(self).slots()[j] == old(self).slots()[j],
    {
        self.nodes.remove(SlabIndex::i_actually_really_know_what_i_am_doing_and_i_want_to_construct_from_usize(at));
        proof {
            assert forall|i: int| #[trigger] self.has(i) implies self.gate_ok(i) by {
                assert(self.slots()[i] == old(self).slots()[i]);
                assert(old(self).has(i));
            }
            assert(self.slots()[0] == old(self).slots()[0]);
            assert(self.slots()[1] == old(self).slots()[1]);
            assert forall|k: int| 0 <= k < self.levers().len() implies self.has(#[trigger] self.levers()[k]@ as int)
                && self.ty(self.levers()[k]@ as int) is Lever by {
                let l = old(self).levers()[k]@ as int;
                assert(old(self).has(l) && old(self).ty(l) is Lever);
                assert(l != at as int);
                assert(self.slots()[l] == old(self).slots()[l]);
            }
            assert forall|x: usize| #[trigger] self.output_set().contains(x) implies self.has(x as int) by {
                assert(old(self).has(x as int));
                assert(x != at);
                assert(self.slots()[x as int] == old(self).slots()[x as int]);
            }
            assert forall|k: int, b: int| 0 <= k < self.output_list().len() && 0 <= b < self.output_list()[k].bits@.len()
                implies self.output_set().contains(#[trigger] self.output_list()[k].bits@[b]@) by {
                assert(old(self).output_set().contains(old(self).output_list()[k].bits@[b]@));
            }
            assert forall|i: int| #[trigger] self.has(i) implies old(self).has(i) by {
                assert(self.slots()[i] == old(self).slots()[i]);
            }
            assert forall|i: int| #[trigger] old(self).has(i) && old(self).observable(i) implies self.has(i) by {
                assert(i != at as int);
                assert(self.slots()[i] == old(self).slots()[i]);
            }
            assert forall|i: int| #[trigger] old(self).has(i) && old(self).ty(i) is Lever implies self.has(i) && self.ty(i) is Lever by {
                assert(i != at as int);
                assert(self.slots()[i] == old(self).slots()[i]);
            }
        }
    }

    /// Returns true if `d` is among the dependencies of gate `at`.
    pub(crate) fn has_dependency(&self, at: usize, d: usize) -> (r: bool)
        requires
            self.base_wf(),
            self.has(at as int),
        ensures
            r == self.deps(at as int).contains(d),
    {
        let deps = self.dependencies_of(at);
        let mut k: usize = 0;
        while k < deps.len()
            invariant
                k <= deps@.len(),
                deps@ == self.deps(at as int),
                forall|j: int| 0 <= j < k ==> deps@[j] != d,
            decreases deps@.len() - k,
        {
            if deps[k] == d {
                assert(deps@[k as int] == d);
                return true;
            }
            k = k + 1;
        }
        false
    }
}

/// Dropping consecutive repeats keeps only items of `s`, and keeps at least one if there is any.
pub proof fn lemma_dedup(s: Seq<usize>)
    ensures
        dedup_seq(s).len() <= s.len(),
        s.len() > 0 ==> dedup_seq(s).len() > 0,
        forall|k: int| 0 <= k < dedup_seq(s).len() ==> s.contains(#[trigger] dedup_seq(s)[k]),
    decreases s.len(),
{
    if s.len() > 1 {
        let t = s.drop_last();
        lemma_dedup(t);
        let r = dedup_seq(t);
        assert forall|k: int| 0 <= k < dedup_seq(s).len() implies s.contains(#[trigger] dedup_seq(s)[k]) by {
            if k < r.len() {
                assert(dedup_seq(s)[k] == r[k]);
                assert(t.contains(r[k]));
                let m = choose|m: int| 0 <= m < t.len() && t[m] == r[k];
                assert(s[m] == r[k]);
            } else {
                assert(dedup_seq(s)[k] == s.last());
                assert(s[s.len() - 1] == s.last());
            }
        }
    } else if s.len() == 1 {
        assert(s[0] == dedup_seq(s)[0]);
    }
}

} // verus!
