use crate::data_structures::double_stack::DoubleStack;
use crate::data_structures::immutable::Immutable;
use crate::data_structures::state::State;
use crate::graph::edges::{edge_list_contains, edge_list_get, edge_list_items, edge_list_len, EdgeList};
use crate::graph::gate::{
    all_true, any_true, gate_output, is_variadic, parity, GateIndex, GateType, InitializedGate,
};
use crate::graph::graph_builder::arity_ok;
use crate::graph::handles::{CircuitOutput, CircuitOutputHandle, LeverHandle};
use std::collections::HashSet;
use vstd::prelude::*;

verus! {

broadcast use vstd::std_specs::hash::group_hash_axioms;

/// A gate graph that can be simulated. It is created by
/// [GateGraphBuilder::init](crate::graph::GateGraphBuilder::init) and its gates cannot change.
pub struct InitializedGateGraph {
    pub(crate) nodes: Immutable<Vec<InitializedGate>>,
    pub(crate) pending_updates: DoubleStack<GateIndex>,
    pub(crate) propagation_queue: DoubleStack<GateIndex>,
    pub(crate) output_handles: Immutable<Vec<CircuitOutput>>,
    pub(crate) lever_handles: Immutable<Vec<GateIndex>>,
    pub(crate) outputs: Immutable<HashSet<usize>>,
    pub(crate) state: State,
}

/// True if every gate of `g` is among the dependents of each of its dependencies.
pub open spec fn dependents_complete_in(g: Seq<InitializedGate>) -> bool {
    forall|i: int, k: int| 0 <= i < g.len() && 0 <= k < edge_list_items(g[i].dependencies).len()
        ==> #[trigger] edge_list_items(g[edge_list_items(g[i].dependencies)[k] as int].dependents).contains(i as usize)
}

/// True if every item of `s` is below `n`.
pub open spec fn all_below(s: Seq<GateIndex>, n: nat) -> bool {
    forall|k: int| 0 <= k < s.len() ==> #[trigger] s[k]@ < n
}

/// True if some item of `s` is gate `i`.
pub open spec fn lists_gate(s: Seq<GateIndex>, i: int) -> bool {
    exists|k: int| 0 <= k < s.len() && s[k]@ == i
}

/// Gate indexes made of the given numbers, in order.
pub open spec fn index_seq(s: Seq<usize>) -> Seq<GateIndex> {
    s.map_values(|d: usize| GateIndex { idx: d })
}

/// Taking the last item off a list keeps every other gate listed.
proof fn lemma_lists_pop(s: Seq<GateIndex>, i: int)
    requires
        s.len() > 0,
        lists_gate(s, i),
    ensures
        lists_gate(s.drop_last(), i) || s.last()@ == i,
{
    let k = choose|k: int| 0 <= k < s.len() && s[k]@ == i;
    if k < s.len() - 1 {
        assert(s.drop_last()[k] == s[k]);
    }
}

/// A list with one more item keeps what it listed and lists the new item.
proof fn lemma_lists_push(s: Seq<GateIndex>, x: GateIndex, i: int)
    ensures
        lists_gate(s, i) ==> lists_gate(s.push(x), i),
        lists_gate(s.push(x), x@ as int),
{
    if lists_gate(s, i) {
        let k = choose|k: int| 0 <= k < s.len() && s[k]@ == i;
        assert(s.push(x)[k] == s[k]);
    }
    assert(s.push(x)[s.len() as int] == x);
}

/// True if gate `i` of `g` is well formed: its arity suits its type and its edges point at
/// gates of `g`.
pub open spec fn gate_ok_in(g: Seq<InitializedGate>, i: int) -> bool {
    &&& arity_ok(g[i].ty, edge_list_items(g[i].dependencies))
    &&& forall|k: int| 0 <= k < edge_list_items(g[i].dependencies).len()
        ==> #[trigger] edge_list_items(g[i].dependencies)[k] < g.len()
    &&& forall|k: int| 0 <= k < edge_list_items(g[i].dependents).len()
        ==> #[trigger] edge_list_items(g[i].dependents)[k] < g.len()
}

/// True if every gate of `g` is well formed, gate 0 is OFF and gate 1 is ON.
pub open spec fn gates_ok(g: Seq<InitializedGate>) -> bool {
    &&& g.len() >= 2
    &&& g[0].ty is Off
    &&& g[1].ty is On
    &&& forall|i: int| 0 <= i < g.len() ==> #[trigger] gate_ok_in(g, i)
}

/// True if the levers are lever gates of `g` and the outputs are gates of `g`.
pub open spec fn handles_ok(g: Seq<InitializedGate>, levers: Seq<GateIndex>, outputs: Seq<CircuitOutput>) -> bool {
    &&& forall|k: int| 0 <= k < levers.len() ==> #[trigger] levers[k]@ < g.len()
        && g[levers[k]@ as int].ty is Lever
    &&& forall|k: int, b: int| 0 <= k < outputs.len() && 0 <= b < outputs[k].bits@.len()
        ==> #[trigger] outputs[k].bits@[b]@ < g.len()
}

/// `2` to the power `i`.
pub open spec fn bit_weight(i: nat) -> nat
    decreases i,
{
    if i == 0 {
        1
    } else {
        2 * bit_weight((i - 1) as nat)
    }
}

/// The number whose binary digits, least significant first, are `s`.
pub open spec fn bits_value(s: Seq<bool>) -> nat
    decreases s.len(),
{
    if s.len() == 0 {
        0
    } else {
        bits_value(s.drop_last()) + if s.last() { bit_weight((s.len() - 1) as nat) } else { 0 }
    }
}

/// A number written with `n` binary digits is below `2^n`.
pub proof fn lemma_bits_value_bound(s: Seq<bool>)
    ensures
        bits_value(s) < bit_weight(s.len()),
    decreases s.len(),
{
    if s.len() > 0 {
        lemma_bits_value_bound(s.drop_last());
    }
}

/// The number of `false` items of `s`.
pub open spec fn count_false(s: Seq<bool>) -> nat
    decreases s.len(),
{
    if s.len() == 0 {
        0
    } else {
        count_false(s.drop_last()) + if s.last() { 0nat } else { 1nat }
    }
}

pub(crate) proof fn lemma_count_false_update(s: Seq<bool>, i: int)
    requires
        0 <= i < s.len(),
        !s[i],
    ensures
        count_false(s.update(i, true)) + 1 == count_false(s),
    decreases s.len(),
{
    let t = s.update(i, true);
    if i == s.len() - 1 {
        assert(t.drop_last() =~= s.drop_last());
    } else {
        assert(t.drop_last() =~= s.drop_last().update(i, true));
        lemma_count_false_update(s.drop_last(), i);
    }
}

impl InitializedGateGraph {
    /// The gates, by index.
    pub closed spec fn gates(&self) -> Seq<InitializedGate> {
        self.nodes.inner()@
    }

    /// The number of gates.
    pub open spec fn num_gates(&self) -> nat {
        self.gates().len()
    }

    /// The type of gate `i`.
    pub open spec fn ty(&self, i: int) -> GateType {
        self.gates()[i].ty
    }

    /// The dependencies of gate `i`, in order.
    pub open spec fn deps(&self, i: int) -> Seq<usize> {
        edge_list_items(self.gates()[i].dependencies)
    }

    /// The dependents of gate `i`, in order.
    pub open spec fn dependents(&self, i: int) -> Seq<usize> {
        edge_list_items(self.gates()[i].dependents)
    }

    /// The state of every gate (and of some unused bits after the last gate).
    pub closed spec fn states(&self) -> Seq<bool> {
        self.state.states()
    }

    /// For every gate, whether it has been updated during the current tick.
    pub closed spec fn updated(&self) -> Seq<bool> {
        self.state.updated()
    }

    /// The lever gates, in creation order.
    pub closed spec fn levers(&self) -> Seq<GateIndex> {
        self.lever_handles.inner()@
    }

    /// The output groups, in creation order.
    pub closed spec fn output_list(&self) -> Seq<CircuitOutput> {
        self.output_handles.inner()@
    }

    /// The gates that belong to some output.
    pub closed spec fn output_set(&self) -> Set<usize> {
        self.outputs.inner()@
    }

    /// The gates whose propagation was deferred to the next tick: the read stack, then the write
    /// stack.
    pub closed spec fn pending(&self) -> (Seq<GateIndex>, Seq<GateIndex>) {
        (self.pending_updates.read(), self.pending_updates.write())
    }

    /// The gates waiting to be visited in the current tick: the read stack, then the write
    /// stack.
    pub closed spec fn queue(&self) -> (Seq<GateIndex>, Seq<GateIndex>) {
        (self.propagation_queue.read(), self.propagation_queue.write())
    }

    /// True if no propagation is pending, that is, the graph is stable.
    pub open spec fn is_stable(&self) -> bool {
        self.pending().0.len() == 0 && self.pending().1.len() == 0
    }

    /// The states of the dependencies of gate `i`, in order.
    pub open spec fn inputs(&self, i: int) -> Seq<bool> {
        self.deps(i).map_values(|d: usize| self.states()[d as int])
    }

    /// The state that gate `i` computes from the current states.
    pub open spec fn gate_value(&self, i: int) -> bool {
        gate_output(self.ty(i), self.inputs(i), self.states()[i])
    }

    /// True if gate `i` is well formed.
    pub open spec fn gate_ok(&self, i: int) -> bool {
        gate_ok_in(self.gates(), i)
    }

    /// True if every gate is among the dependents of each of its dependencies, so that a
    /// change of state reaches every gate that reads it.
    pub open spec fn dependents_complete(&self) -> bool {
        dependents_complete_in(self.gates())
    }

    /// True if gate `i` waits in the propagation queue.
    pub closed spec fn queued(&self, i: int) -> bool {
        lists_gate(self.propagation_queue.read(), i) || lists_gate(self.propagation_queue.write(), i)
    }

    /// True if every gate listed in `start` has been updated in the current tick or is queued.
    pub closed spec fn visited_or_queued(&self, start: Seq<GateIndex>) -> bool {
        forall|j: int| 0 <= j < self.num_gates() && #[trigger] lists_gate(start, j) ==> self.updated()[j] || self.queued(j)
    }

    /// True if gate `i` waits for a later tick.
    pub closed spec fn deferred(&self, i: int) -> bool {
        lists_gate(self.pending_updates.read(), i) || lists_gate(self.pending_updates.write(), i)
    }

    /// True if lever `l` has been changed and its dependents have not been visited since.
    pub closed spec fn lever_waiting(&self, l: int) -> bool {
        &&& self.ty(l) is Lever
        &&& self.deferred(l) || (self.queued(l) && !self.updated()[l])
    }

    /// True if gate `i` holds the state it computes, or will be visited again: it waits
    /// itself, or one of its dependencies is a lever that waits.
    pub closed spec fn settled(&self, i: int) -> bool {
        ||| self.states()[i] == self.gate_value(i)
        ||| self.queued(i)
        ||| self.deferred(i)
        ||| exists|k: int| 0 <= k < self.deps(i).len() && #[trigger] self.lever_waiting(self.deps(i)[k] as int)
    }

    /// True if every gate below `bound`, and every gate updated in the current tick, is
    /// settled.
    pub closed spec fn settled_below(&self, bound: int) -> bool {
        forall|i: int| 0 <= i < self.num_gates() && (i < bound || self.updated()[i]) ==> #[trigger] self.settled(i)
    }

    /// The parts of the invariant that do not depend on the propagation queue.
    pub closed spec fn wf_core(&self) -> bool {
        &&& self.state.wf()
        &&& self.num_gates() <= self.state.bit_len()
        &&& self.num_gates() <= usize::MAX
        &&& gates_ok(self.gates())
        &&& handles_ok(self.gates(), self.levers(), self.output_list())
        &&& all_below(self.pending_updates.read(), self.num_gates())
        &&& all_below(self.pending_updates.write(), self.num_gates())
        &&& !self.states()[0]
        &&& self.states()[1]
    }

    /// The invariant between propagations: nothing waits in the propagation queue.
    pub closed spec fn wf_quiet(&self) -> bool {
        &&& self.wf_core()
        &&& self.propagation_queue.read().len() == 0
        &&& self.propagation_queue.write().len() == 0
    }

    /// The invariant of an initialized graph: quiet, and, where every change reaches the gates
    /// that read it, every gate settled.
    pub closed spec fn wf(&self) -> bool {
        &&& self.wf_quiet()
        &&& self.dependents_complete() ==> self.settled_below(self.num_gates() as int)
    }

    /// The invariant while propagating: the queue may hold gates to visit.
    pub closed spec fn wf_propagating(&self) -> bool {
        &&& self.wf_core()
        &&& all_below(self.propagation_queue.read(), self.num_gates())
        &&& all_below(self.propagation_queue.write(), self.num_gates())
    }

    /// Returns the combined state of `deps` for a short circuiting gate type: `!ty.init()` as
    /// soon as one dependency decides it, `ty.init()` otherwise.
    fn fold_short(&self, ty: GateType, deps: &EdgeList) -> (r: bool)
        requires
            self.state.wf(),
            ty is Or || ty is Nor || ty is And || ty is Nand,
            forall|k: int| 0 <= k < edge_list_items(*deps).len() ==> #[trigger] edge_list_items(*deps)[k] < self.state.bit_len(),
        ensures
            r == (if ty is And || ty is Nand {
                all_true(edge_list_items(*deps).map_values(|d: usize| self.states()[d as int]))
            } else {
                any_true(edge_list_items(*deps).map_values(|d: usize| self.states()[d as int]))
            }),
    {
        let ghost inputs = edge_list_items(*deps).map_values(|d: usize| self.states()[d as int]);
        let init = ty.init();
        let short = !init;
        let n = edge_list_len(deps);
        let mut i: usize = 0;
        while i < n
            invariant
                self.state.wf(),
                n == inputs.len(),
                i <= n,
                inputs == edge_list_items(*deps).map_values(|d: usize| self.states()[d as int]),
                init == (ty is And || ty is Nand),
                short == !init,
                is_variadic(ty),
                forall|k: int| 0 <= k < edge_list_items(*deps).len() ==> #[trigger] edge_list_items(*deps)[k] < self.state.bit_len(),
                forall|k: int| 0 <= k < i ==> inputs[k] == init,
            decreases n - i,
        {
            let d = edge_list_get(deps, i);
            let state = self.state.get_state(d);
            assert(state == inputs[i as int]);
            if ty.accumulate(init, state) == short {
                return short;
            }
            i = i + 1;
        }
        init
    }

    /// Returns the parity of the states of `deps`.
    fn fold_xor(&self, deps: &EdgeList) -> (r: bool)
        requires
            self.state.wf(),
            forall|k: int| 0 <= k < edge_list_items(*deps).len() ==> #[trigger] edge_list_items(*deps)[k] < self.state.bit_len(),
        ensures
            r == parity(edge_list_items(*deps).map_values(|d: usize| self.states()[d as int])),
    {
        let ghost inputs = edge_list_items(*deps).map_values(|d: usize| self.states()[d as int]);
        let n = edge_list_len(deps);
        let mut result = false;
        let mut i: usize = 0;
        while i < n
            invariant
                self.state.wf(),
                n == inputs.len(),
                i <= n,
                inputs == edge_list_items(*deps).map_values(|d: usize| self.states()[d as int]),
                forall|k: int| 0 <= k < edge_list_items(*deps).len() ==> #[trigger] edge_list_items(*deps)[k] < self.state.bit_len(),
                result == parity(inputs.subrange(0, i as int)),
            decreases n - i,
        {
            let d = edge_list_get(deps, i);
            let state = self.state.get_state(d);
            proof {
                assert(inputs.subrange(0, i + 1).drop_last() =~= inputs.subrange(0, i as int));
            }
            result = result != state;
            i = i + 1;
        }
        proof {
            assert(inputs.subrange(0, n as int) =~= inputs);
        }
        result
    }

    /// Returns the state that gate `idx` computes from the current states.
    fn evaluate(&self, idx: usize) -> (r: bool)
        requires
            self.wf_propagating(),
            idx < self.num_gates(),
        ensures
            r == self.gate_value(idx as int),
    {
        let node = &self.nodes.get()[idx];
        proof {
            assert(gate_ok_in(self.gates(), idx as int));
            assert forall|k: int| 0 <= k < edge_list_items(node.dependencies).len() implies #[trigger] edge_list_items(node.dependencies)[k] < self.state.bit_len() by {
                assert(edge_list_items(node.dependencies)[k] < self.num_gates());
            }
        }
        match node.ty {
            GateType::On => true,
            GateType::Off => false,
            GateType::Lever => self.state.get_state(idx),
            GateType::Not => {
                let d = edge_list_get(&node.dependencies, 0);
                !self.state.get_state(d)
            },
            _ => {
                let ty = node.ty;
                let mut new_state = if ty.short_circuits() {
                    self.fold_short(ty, &node.dependencies)
                } else {
                    self.fold_xor(&node.dependencies)
                };
                if ty.is_negated() {
                    new_state = !new_state;
                }
                new_state
            },
        }
    }

    /// Pushes the dependents of gate `idx` to the write stack of the propagation queue.
    fn queue_dependents(&mut self, idx: usize)
        requires
            old(self).wf_propagating(),
            idx < old(self).num_gates(),
        ensures
            final(self).wf_propagating(),
            final(self).nodes == old(self).nodes,
            final(self).state == old(self).state,
            final(self).pending_updates == old(self).pending_updates,
            final(self).lever_handles == old(self).lever_handles,
            final(self).output_handles == old(self).output_handles,
            final(self).outputs == old(self).outputs,
            final(self).propagation_queue.read() == old(self).propagation_queue.read(),
            final(self).propagation_queue.write().len() >= old(self).propagation_queue.write().len(),
            forall|j: int| lists_gate(old(self).propagation_queue.write(), j) ==> #[trigger] lists_gate(final(self).propagation_queue.write(), j),
            forall|d: usize| old(self).dependents(idx as int).contains(d) ==> #[trigger] lists_gate(final(self).propagation_queue.write(), d as int),
            final(self).propagation_queue.write() == old(self).propagation_queue.write() + index_seq(old(self).dependents(idx as int)),
    {
        let node = &self.nodes.get()[idx];
        proof {
            assert(gate_ok_in(self.gates(), idx as int));
        }
        let n = edge_list_len(&node.dependents);
        let mut i: usize = 0;
        while i < n
            invariant
                node == old(self).gates()[idx as int],
                n == edge_list_items(node.dependents).len(),
                i <= n,
                self.nodes == old(self).nodes,
                self.state == old(self).state,
                self.pending_updates == old(self).pending_updates,
                self.lever_handles == old(self).lever_handles,
                self.output_handles == old(self).output_handles,
                self.outputs == old(self).outputs,
                self.propagation_queue.read() == old(self).propagation_queue.read(),
                self.propagation_queue.write().len() >= old(self).propagation_queue.write().len(),
                forall|j: int| lists_gate(old(self).propagation_queue.write(), j) ==> #[trigger] lists_gate(self.propagation_queue.write(), j),
                forall|k: int| 0 <= k < i ==> #[trigger] lists_gate(self.propagation_queue.write(), edge_list_items(node.dependents)[k] as int),
                old(self).wf_propagating(),
                idx < old(self).num_gates(),
                all_below(self.propagation_queue.write(), self.num_gates()),
                self.wf_propagating(),
                self.propagation_queue.write() == old(self).propagation_queue.write()
                    + index_seq(edge_list_items(node.dependents).take(i as int)),
            decreases n - i,
        {
            let d = edge_list_get(&node.dependents, i);
            proof {
                assert(gate_ok_in(old(self).gates(), idx as int));
                assert(edge_list_items(node.dependents)[i as int] == d);
            }
            let ghost w = self.propagation_queue.write();
            self.propagation_queue.push(GateIndex { idx: d });
            proof {
                assert(index_seq(edge_list_items(node.dependents).take(i + 1))
                    =~= index_seq(edge_list_items(node.dependents).take(i as int)).push(GateIndex { idx: d }));
            }
            i = i + 1;
            proof {
                assert forall|k: int| 0 <= k < self.propagation_queue.write().len() implies #[trigger] self.propagation_queue.write()[k]@ < self.num_gates() by {
                    if k < w.len() { assert(self.propagation_queue.write()[k] == w[k]); }
                }
                assert forall|j: int| lists_gate(old(self).propagation_queue.write(), j) implies #[trigger] lists_gate(self.propagation_queue.write(), j) by {
                    lemma_lists_push(w, GateIndex { idx: d }, j);
                }
                assert forall|k: int| 0 <= k < i implies #[trigger] lists_gate(self.propagation_queue.write(), edge_list_items(node.dependents)[k] as int) by {
                    lemma_lists_push(w, GateIndex { idx: d }, edge_list_items(node.dependents)[k] as int);
                }
            }
        }
        proof {
            assert forall|d: usize| old(self).dependents(idx as int).contains(d) implies #[trigger] lists_gate(self.propagation_queue.write(), d as int) by {
                let k = choose|k: int| 0 <= k < old(self).dependents(idx as int).len() && old(self).dependents(idx as int)[k] == d;
                assert(edge_list_items(node.dependents)[k] == d);
            }
            assert(edge_list_items(node.dependents).take(n as int) =~= edge_list_items(node.dependents));
        }
    }

    /// The states that gate `i` reads are the same in `a` and `b` if they differ at most at
    /// gate `x`, which `i` does not read.
    proof fn lemma_inputs_unchanged(b: &Self, a: &Self, i: int, x: int)
        requires
            a.gates() == b.gates(),
            0 <= i < b.num_gates(),
            gates_ok(b.gates()),
            b.num_gates() <= b.states().len(),
            a.states().len() == b.states().len(),
            forall|j: int| 0 <= j < b.states().len() && j != x ==> a.states()[j] == b.states()[j],
            !b.deps(i).contains(x as usize),
        ensures
            a.inputs(i) == b.inputs(i),
    {
        assert(gate_ok_in(b.gates(), i));
        assert forall|k: int| 0 <= k < b.deps(i).len() implies a.inputs(i)[k] == b.inputs(i)[k] by {
            let d = b.deps(i)[k];
            assert(d < b.num_gates());
            if d as int == x {
                assert(b.deps(i).contains(x as usize));
            }
        }
        assert(a.inputs(i) =~= b.inputs(i));
    }

    /// Visiting gate `idx` without setting it (it was already updated in this tick) keeps the
    /// gates settled: it either already holds its state or is deferred.
    proof fn lemma_visit_kept(b: &Self, a: &Self, idx: int, deferred_idx: bool, bound: int)
        requires
            b.settled_below(bound),
            a.gates() == b.gates(),
            a.states() == b.states(),
            a.updated() == b.updated(),
            0 <= idx < b.num_gates(),
            b.updated()[idx],
            b.propagation_queue.read().len() > 0,
            b.propagation_queue.read().last()@ == idx,
            a.propagation_queue.read() == b.propagation_queue.read().drop_last(),
            a.propagation_queue.write() == b.propagation_queue.write(),
            a.pending_updates.read() == b.pending_updates.read(),
            deferred_idx ==> a.pending_updates.write() == b.pending_updates.write().push(GateIndex { idx: idx as usize }),
            !deferred_idx ==> a.pending_updates.write() == b.pending_updates.write() && b.states()[idx] == b.gate_value(idx),
        ensures
            a.settled_below(bound),
    {
        assert forall|i: int| 0 <= i < a.num_gates() && (i < bound || a.updated()[i]) implies #[trigger] a.settled(i) by {
            assert(b.settled(i));
            lemma_lists_push(b.pending_updates.write(), GateIndex { idx: idx as usize }, i);
            if i == idx {
                if deferred_idx {
                    assert(a.deferred(i));
                }
            } else if b.states()[i] == b.gate_value(i) {
            } else if b.queued(i) {
                if lists_gate(b.propagation_queue.read(), i) {
                    lemma_lists_pop(b.propagation_queue.read(), i);
                }
                assert(a.queued(i));
            } else if b.deferred(i) {
                assert(a.deferred(i));
            } else {
                let k = choose|k: int| 0 <= k < b.deps(i).len() && #[trigger] b.lever_waiting(b.deps(i)[k] as int);
                let l = b.deps(i)[k] as int;
                lemma_lists_push(b.pending_updates.write(), GateIndex { idx: idx as usize }, l);
                if lists_gate(b.propagation_queue.read(), l) && l != idx {
                    lemma_lists_pop(b.propagation_queue.read(), l);
                }
                assert(a.lever_waiting(l));
            }
        }
    }

    /// Visiting gate `idx` and setting it to the state it computes keeps the gates settled,
    /// provided that a change, or a lever, queues its dependents.
    proof fn lemma_visit_set(b: &Self, a: &Self, idx: int, new: bool, bound: int)
        requires
            b.dependents_complete(),
            b.settled_below(bound),
            a.gates() == b.gates(),
            gates_ok(b.gates()),
            b.num_gates() <= b.states().len(),
            b.num_gates() <= usize::MAX,
            b.states().len() == b.updated().len(),
            0 <= idx < b.num_gates(),
            !b.updated()[idx],
            new == b.gate_value(idx),
            a.states() == b.states().update(idx, new),
            a.updated() == b.updated().update(idx, true),
            b.propagation_queue.read().len() > 0,
            b.propagation_queue.read().last()@ == idx,
            a.propagation_queue.read() == b.propagation_queue.read().drop_last(),
            forall|j: int| lists_gate(b.propagation_queue.write(), j) ==> #[trigger] lists_gate(a.propagation_queue.write(), j),
            (b.ty(idx) is Lever || new != b.states()[idx]) ==> forall|d: usize| b.dependents(idx).contains(d)
                ==> #[trigger] lists_gate(a.propagation_queue.write(), d as int),
            a.pending_updates.read() == b.pending_updates.read(),
            a.pending_updates.write() == b.pending_updates.write(),
        ensures
            a.settled_below(bound),
    {
        let changed = new != b.states()[idx];
        assert forall|i: int| 0 <= i < a.num_gates() && (i < bound || a.updated()[i]) implies #[trigger] a.settled(i) by {
            if i == idx {
                if !changed {
                    assert(a.states() =~= b.states());
                } else if b.deps(idx).contains(idx as usize) {
                    let k = b.deps(idx).index_of(idx as usize);
                    assert(b.dependents(b.deps(idx)[k] as int).contains(idx as usize));
                    assert(lists_gate(a.propagation_queue.write(), idx));
                } else {
                    Self::lemma_inputs_unchanged(b, a, idx, idx);
                }
            } else {
                assert(b.settled(i));
                if b.states()[i] == b.gate_value(i) {
                    if !changed {
                        assert(a.states() =~= b.states());
                    } else if b.deps(i).contains(idx as usize) {
                        let k = b.deps(i).index_of(idx as usize);
                        assert(b.dependents(b.deps(i)[k] as int).contains(i as usize));
                        assert(lists_gate(a.propagation_queue.write(), i));
                    } else {
                        Self::lemma_inputs_unchanged(b, a, i, idx);
                    }
                } else if b.queued(i) {
                    if lists_gate(b.propagation_queue.read(), i) {
                        lemma_lists_pop(b.propagation_queue.read(), i);
                    }
                    assert(a.queued(i));
                } else if b.deferred(i) {
                    assert(a.deferred(i));
                } else {
                    let k = choose|k: int| 0 <= k < b.deps(i).len() && #[trigger] b.lever_waiting(b.deps(i)[k] as int);
                    let l = b.deps(i)[k] as int;
                    if b.deferred(l) {
                        assert(a.lever_waiting(l));
                    } else if l == idx {
                        assert(b.dependents(b.deps(i)[k] as int).contains(i as usize));
                        assert(lists_gate(a.propagation_queue.write(), i));
                    } else {
                        assert(gate_ok_in(b.gates(), i));
                        assert(l < b.num_gates());
                        assert(!b.updated()[l]);
                        assert(!a.updated()[l]);
                        if lists_gate(b.propagation_queue.read(), l) {
                            lemma_lists_pop(b.propagation_queue.read(), l);
                            assert(lists_gate(a.propagation_queue.read(), l));
                        } else {
                            assert(lists_gate(b.propagation_queue.write(), l));
                            assert(lists_gate(a.propagation_queue.write(), l));
                        }
                        assert(a.queued(l));
                        assert(a.lever_waiting(l));
                    }
                }
            }
        }
    }

    /// Propagates the gates in the propagation queue until it is empty: every visited gate that
    /// has not been updated in this tick takes its computed state, and if it changed (or is a
    /// lever) its dependents are visited too; a visited gate that was already updated and would
    /// change is deferred to the next tick.
    pub(crate) fn tick_inner(&mut self, Ghost(bound): Ghost<int>)
        requires
            old(self).wf_propagating(),
            old(self).propagation_queue.read().len() == 0,
            old(self).dependents_complete() ==> old(self).settled_below(bound),
        ensures
            final(self).wf_quiet(),
            final(self).dependents_complete() == old(self).dependents_complete(),
            final(self).dependents_complete() ==> final(self).settled_below(bound),
            final(self).gates() == old(self).gates(),
            final(self).levers() == old(self).levers(),
            final(self).output_list() == old(self).output_list(),
            final(self).pending().0 == old(self).pending().0,
            final(self).pending().1.len() >= old(self).pending().1.len(),
            final(self).pending().1.subrange(0, old(self).pending().1.len() as int) == old(self).pending().1,
            final(self).states().len() == old(self).states().len(),
            final(self).updated().len() == old(self).updated().len(),
            forall|i: int| 0 <= i < old(self).num_gates() && old(self).updated()[i] ==> final(self).updated()[i]
                && final(self).states()[i] == old(self).states()[i],
            forall|i: int| 0 <= i < old(self).num_gates() && old(self).ty(i) is Lever ==> final(self).states()[i] == old(self).states()[i],
            forall|j: int| 0 <= j < old(self).num_gates() && #[trigger] lists_gate(old(self).propagation_queue.write(), j)
                ==> final(self).updated()[j],
            Self::propagates_to(*old(self), *final(self)),
    {
        proof {
            assert forall|j: int| 0 <= j < self.num_gates() && #[trigger] lists_gate(old(self).propagation_queue.write(), j)
                implies self.updated()[j] || self.queued(j) by {}
        }
        let ghost mut trace: Seq<Self> = seq![*self];
        loop
            invariant
                Self::propagation_run(trace),
                trace[0] == *old(self),
                Self::same_engine(trace.last(), *self),
                self.wf_propagating(),
                self.propagation_queue.read().len() == 0,
                self.nodes == old(self).nodes,
                self.lever_handles == old(self).lever_handles,
                self.output_handles == old(self).output_handles,
                self.outputs == old(self).outputs,
                self.pending().0 == old(self).pending().0,
                self.pending().1.len() >= old(self).pending().1.len(),
                self.pending().1.subrange(0, old(self).pending().1.len() as int) == old(self).pending().1,
                self.states().len() == old(self).states().len(),
                self.updated().len() == old(self).updated().len(),
                forall|i: int| 0 <= i < old(self).num_gates() && old(self).updated()[i] ==> self.updated()[i]
                    && self.states()[i] == old(self).states()[i],
                forall|i: int| 0 <= i < old(self).num_gates() && old(self).ty(i) is Lever ==> self.states()[i] == old(self).states()[i],
                old(self).dependents_complete() ==> self.settled_below(bound),
                self.visited_or_queued(old(self).propagation_queue.write()),
            ensures
                self.wf_quiet(),
                old(self).dependents_complete() ==> self.settled_below(bound),
                self.visited_or_queued(old(self).propagation_queue.write()),
                Self::propagation_run(trace),
                trace[0] == *old(self),
                Self::same_engine(trace.last(), *self),
            decreases count_false(self.updated()), self.propagation_queue.write().len(),
        {
            if self.propagation_queue.is_empty() {
                assert(self.wf_quiet());
                break;
            }
            let ghost c0 = count_false(self.updated());
            let ghost w0 = self.propagation_queue.write().len();
            let ghost unswapped = *self;
            self.propagation_queue.swap();
            proof {
                assert(Self::queue_swap_step(trace.last(), *self));
                Self::lemma_run_push(trace, *self);
                trace = trace.push(*self);
                assert forall|j: int| 0 <= j < self.num_gates() && #[trigger] lists_gate(old(self).propagation_queue.write(), j)
                    implies self.updated()[j] || self.queued(j) by {
                    assert(unswapped.queued(j) == self.queued(j));
                }
                if old(self).dependents_complete() {
                    assert forall|i: int| 0 <= i < self.num_gates() && (i < bound || self.updated()[i]) implies #[trigger] self.settled(i) by {
                        assert(unswapped.settled(i));
                        assert forall|j: int| #[trigger] unswapped.queued(j) == self.queued(j) by {}
                        if exists|k: int| 0 <= k < unswapped.deps(i).len() && #[trigger] unswapped.lever_waiting(unswapped.deps(i)[k] as int) {
                            let k = choose|k: int| 0 <= k < unswapped.deps(i).len() && #[trigger] unswapped.lever_waiting(unswapped.deps(i)[k] as int);
                            assert(self.lever_waiting(self.deps(i)[k] as int));
                        }
                    }
                }
            }
            loop
                invariant_except_break
                    trace.last() == *self,
                invariant
                    self.wf_propagating(),
                    self.nodes == old(self).nodes,
                    self.lever_handles == old(self).lever_handles,
                    self.output_handles == old(self).output_handles,
                    self.outputs == old(self).outputs,
                    self.pending().0 == old(self).pending().0,
                    self.pending().1.len() >= old(self).pending().1.len(),
                    self.pending().1.subrange(0, old(self).pending().1.len() as int) == old(self).pending().1,
                    self.states().len() == old(self).states().len(),
                    self.updated().len() == old(self).updated().len(),
                    forall|i: int| 0 <= i < old(self).num_gates() && old(self).updated()[i] ==> self.updated()[i]
                        && self.states()[i] == old(self).states()[i],
                    forall|i: int| 0 <= i < old(self).num_gates() && old(self).ty(i) is Lever ==> self.states()[i] == old(self).states()[i],
                    w0 > 0,
                    count_false(self.updated()) < c0 || count_false(self.updated()) == c0
                        && self.propagation_queue.write().len() == 0,
                    old(self).dependents_complete() ==> self.settled_below(bound),
                    self.visited_or_queued(old(self).propagation_queue.write()),
                    Self::propagation_run(trace),
                    trace[0] == *old(self),
                ensures
                    self.propagation_queue.read().len() == 0,
                    count_false(self.updated()) < c0 || count_false(self.updated()) == c0
                        && self.propagation_queue.write().len() < w0,
                    Self::propagation_run(trace),
                    trace[0] == *old(self),
                    Self::same_engine(trace.last(), *self),
                decreases count_false(self.updated()), self.propagation_queue.read().len(),
            {
                let ghost before = *self;
                let popped = self.propagation_queue.pop();
                let idx = match popped {
                    None => {
                        proof {
                            if old(self).dependents_complete() {
                                Self::lemma_settled_transfer(&before, self, bound);
                            }
                        }
                        break;
                    },
                    Some(idx) => idx,
                };
                proof {
                    assert(before.propagation_queue.read() == self.propagation_queue.read().push(idx)) by {
                        assert(self.propagation_queue.read() =~= before.propagation_queue.read().drop_last());
                    }
                    assert(idx@ < self.num_gates()) by {
                        let r = old(self).propagation_queue.read();
                        assert(all_below(before.propagation_queue.read(), before.num_gates()));
                        assert(before.propagation_queue.read()[before.propagation_queue.read().len() - 1] == idx);
                    }
                    assert(all_below(self.propagation_queue.read(), self.num_gates())) by {
                        assert forall|k: int| 0 <= k < self.propagation_queue.read().len() implies #[trigger] self.propagation_queue.read()[k]@ < self.num_gates() by {
                            assert(self.propagation_queue.read()[k] == before.propagation_queue.read()[k]);
                        }
                    }
                }
                let ghost popped_state = *self;
                let new_state = self.evaluate(idx.idx);
                let old_state = self.state.get_state(idx.idx);
                if self.state.get_updated(idx.idx) {
                    if old_state != new_state {
                        let ghost p = self.pending_updates.write();
                        self.pending_updates.push(idx);
                        proof {
                            if old(self).dependents_complete() {
                                Self::lemma_visit_kept(&before, self, idx@ as int, true, bound);
                            }
                            assert(self.pending().1.subrange(0, old(self).pending().1.len() as int)
                                =~= p.subrange(0, old(self).pending().1.len() as int));
                            assert forall|k: int| 0 <= k < self.pending_updates.write().len() implies #[trigger] self.pending_updates.write()[k]@ < self.num_gates() by {
                                if k < p.len() { assert(self.pending_updates.write()[k] == p[k]); }
                            }
                        }
                    } else {
                        proof {
                            if old(self).dependents_complete() {
                                Self::lemma_visit_kept(&before, self, idx@ as int, false, bound);
                            }
                        }
                    }
                    proof {
                        assert forall|j: int| 0 <= j < self.num_gates() && #[trigger] lists_gate(old(self).propagation_queue.write(), j)
                            implies self.updated()[j] || self.queued(j) by {
                            assert(before.updated()[j] || before.queued(j));
                            if !before.updated()[j] && j != idx@ as int {
                                if lists_gate(before.propagation_queue.read(), j) {
                                    lemma_lists_pop(before.propagation_queue.read(), j);
                                }
                            }
                        }
                        assert(Self::visit_step(before, *self));
                        Self::lemma_run_push(trace, *self);
                        trace = trace.push(*self);
                    }
                    continue;
                }
                let ghost upd = self.updated();
                let ghost sts = self.states();
                self.state.set(idx.idx, new_state);
                proof {
                    before.state.lemma_lengths();
                    lemma_count_false_update(upd, idx@ as int);
                    if idx@ == 0 {
                        assert(before.ty(0) is Off);
                    }
                    if idx@ == 1 {
                        assert(before.ty(1) is On);
                    }
                    assert(!self.states()[0]);
                    assert(self.states()[1]);
                }
                let ghost set_state = *self;
                let ty = self.nodes.get()[idx.idx].ty;
                if ty.is_lever() || old_state != new_state {
                    self.queue_dependents(idx.idx);
                }
                proof {
                    if old(self).dependents_complete() {
                        assert(gates_ok(before.gates()));
                        before.state.lemma_lengths();
                        Self::lemma_visit_set(&before, self, idx@ as int, new_state, bound);
                    }
                    assert forall|j: int| 0 <= j < self.num_gates() && #[trigger] lists_gate(old(self).propagation_queue.write(), j)
                        implies self.updated()[j] || self.queued(j) by {
                        assert(before.updated()[j] || before.queued(j));
                        if j == idx@ as int {
                            assert(set_state.updated()[j]);
                        } else if before.updated()[j] {
                            assert(set_state.updated()[j]);
                        } else {
                            if lists_gate(before.propagation_queue.read(), j) {
                                lemma_lists_pop(before.propagation_queue.read(), j);
                            }
                            assert(set_state.queued(j));
                        }
                    }
                    assert(Self::visit_step(before, *self));
                    Self::lemma_run_push(trace, *self);
                    trace = trace.push(*self);
                }
            }
        }
        proof {
            assert(Self::propagation_run(trace) && trace[0] == *old(self) && Self::same_engine(trace.last(), *self));
        }
    }

    /// Returns a graph with the given parts whose gates have all been evaluated once: OFF and
    /// ON first set, then every gate visited in index order (skipping gates already updated
    /// by an earlier visit, unless they are constants) and propagated.
    pub(crate) fn from_parts(
        nodes: Vec<InitializedGate>,
        output_handles: Vec<CircuitOutput>,
        lever_handles: Vec<GateIndex>,
        outputs: HashSet<usize>,
    ) -> (g: Self)
        requires
            gates_ok(nodes@),
            handles_ok(nodes@, lever_handles@, output_handles@),
            nodes@.len() <= usize::MAX - 63,
        ensures
            g.wf(),
            g.gates() == nodes@,
            g.levers() == lever_handles@,
            g.output_list() == output_handles@,
            g.pending().1.len() == 0,
            forall|i: int| 0 <= i < g.num_gates() && g.ty(i) is Lever ==> !g.states()[i],
            forall|i: int| 0 <= i < g.num_gates() ==> #[trigger] g.updated()[i],
            Self::computed_once(g),
    {
        let n = nodes.len();
        let mut state = State::new(n);
        let ghost fresh = state;
        state.set(0, false);
        state.set(1, true);
        let mut g = InitializedGateGraph {
            nodes: Immutable::new(nodes),
            pending_updates: DoubleStack::new(),
            propagation_queue: DoubleStack::new(),
            output_handles: Immutable::new(output_handles),
            lever_handles: Immutable::new(lever_handles),
            outputs: Immutable::new(outputs),
            state,
        };
        proof {
            assert(g.wf_quiet());
            g.state.lemma_lengths();
            if g.dependents_complete() {
                assert forall|j: int| 0 <= j < g.num_gates() && (j < 0 || g.updated()[j]) implies #[trigger] g.settled(j) by {
                    fresh.lemma_lengths();
                    if j != 0 && j != 1 {
                        assert(g.updated()[j] == fresh.updated()[j]);
                        assert(!fresh.updated()[j]);
                    }
                    assert(g.states()[j] == g.gate_value(j));
                }
            }
        }
        proof {
            assert forall|j: int| 0 <= j < n && g.ty(j) is Lever implies !g.states()[j] by {
                fresh.lemma_lengths();
                assert(gates_ok(g.gates()));
                if j == 1 {
                    assert(g.ty(1) is On);
                }
                if j != 0 && j != 1 {
                    assert(g.states()[j] == fresh.states()[j]);
                }
            }
        }
        proof {
            fresh.lemma_lengths();
            g.state.lemma_lengths();
            assert forall|j: int| 0 <= j < g.states().len() implies #[trigger] g.states()[j] == (j == 1) by {
                if j != 0 && j != 1 {
                    assert(g.states()[j] == fresh.states()[j]);
                }
            }
            assert forall|j: int| 0 <= j < g.updated().len() implies #[trigger] g.updated()[j] == (j < 2) by {
                if j != 0 && j != 1 {
                    assert(g.updated()[j] == fresh.updated()[j]);
                }
            }
            assert(Self::init_start(g));
        }
        let ghost first = g;
        let ghost mut trace: Seq<Self> = seq![g];
        let mut i: usize = 0;
        while i < n
            invariant
                g.wf_quiet(),
                g.dependents_complete() ==> g.settled_below(i as int),
                trace.len() == i + 1,
                Self::init_run(trace),
                trace[0] == first,
                Self::init_start(first),
                first.same_structure(&g),
                Self::same_engine(trace.last(), g),
                n == g.num_gates(),
                i <= n,
                g.gates() == nodes@,
                g.levers() == lever_handles@,
                g.output_list() == output_handles@,
                g.pending().0.len() == 0,
                forall|j: int| 0 <= j < n && g.ty(j) is Lever ==> !g.states()[j],
                forall|j: int| 0 <= j < i ==> #[trigger] g.updated()[j],
            decreases n - i,
        {
            let idx = GateIndex::new(i);
            if !idx.is_const() && g.state.get_updated(i) {
                proof {
                    assert(Self::init_visit(trace.last(), g, i));
                    let t0 = trace;
                    trace = trace.push(g);
                    assert forall|k: usize| k < trace.len() - 1 implies #[trigger] Self::init_visit(trace[k as int], trace[k + 1], k) by {
                        if k < i {
                            assert(trace[k as int] == t0[k as int] && trace[k + 1] == t0[k + 1]);
                        }
                    }
                }
                i = i + 1;
                continue;
            }
            let ghost before = g;
            g.propagation_queue.push(idx);
            proof {
                assert(g.propagation_queue.write() =~= seq![idx]);
                if g.dependents_complete() {
                    assert(lists_gate(g.propagation_queue.write(), i as int)) by {
                        assert(g.propagation_queue.write()[0] == idx);
                    }
                    assert forall|j: int| 0 <= j < g.num_gates() && (j < i + 1 || g.updated()[j]) implies #[trigger] g.settled(j) by {
                        if j != i {
                            assert(before.settled(j));
                            if exists|k: int| 0 <= k < before.deps(j).len() && #[trigger] before.lever_waiting(before.deps(j)[k] as int) {
                                let k = choose|k: int| 0 <= k < before.deps(j).len() && #[trigger] before.lever_waiting(before.deps(j)[k] as int);
                                assert(g.lever_waiting(g.deps(j)[k] as int));
                            }
                        }
                    }
                }
            }
            let ghost pushed = g;
            g.tick_inner(Ghost((i + 1) as int));
            proof {
                assert(lists_gate(pushed.propagation_queue.write(), i as int)) by {
                    assert(pushed.propagation_queue.write()[0] == idx);
                }
                assert(pushed.updated() == before.updated());
                assert forall|j: int| 0 <= j < i + 1 implies #[trigger] g.updated()[j] by {
                    if j < i {
                        assert(before.updated()[j]);
                        assert(pushed.updated()[j]);
                    }
                }
                assert forall|j: int| 0 <= j < n && g.ty(j) is Lever implies !g.states()[j] by {
                    assert(pushed.ty(j) is Lever);
                }
                assert(idx == GateIndex { idx: i });
                assert(pushed.queue() == (trace.last().queue().0, trace.last().queue().1.push(GateIndex { idx: i })));
                assert(Self::init_visit(trace.last(), g, i));
                let t0 = trace;
                trace = trace.push(g);
                assert forall|k: usize| k < trace.len() - 1 implies #[trigger] Self::init_visit(trace[k as int], trace[k + 1], k) by {
                    if k < i {
                        assert(trace[k as int] == t0[k as int] && trace[k + 1] == t0[k + 1]);
                    }
                }
            }
            i = i + 1;
        }
        let ghost quiet = g;
        g.pending_updates.swap();
        proof {
            assert(Self::pending_swap_step(trace.last(), g));
            assert(Self::computed_once(g));
            assert(g.updated() == quiet.updated() && g.states() == quiet.states());
            assert forall|j: int| 0 <= j < g.num_gates() implies #[trigger] g.updated()[j] by {
                assert(quiet.updated()[j]);
            }
            if g.dependents_complete() {
                assert forall|j: int| 0 <= j < g.num_gates() && (j < g.num_gates() || g.updated()[j]) implies #[trigger] g.settled(j) by {
                    assert(quiet.settled(j));
                    assert forall|l: int| #[trigger] quiet.deferred(l) == g.deferred(l) by {}
                    if exists|k: int| 0 <= k < quiet.deps(j).len() && #[trigger] quiet.lever_waiting(quiet.deps(j)[k] as int) {
                        let k = choose|k: int| 0 <= k < quiet.deps(j).len() && #[trigger] quiet.lever_waiting(quiet.deps(j)[k] as int);
                        assert(g.lever_waiting(g.deps(j)[k] as int));
                    }
                }
            }
        }
        g
    }

    /// Starting a tick (a deferred gate `p` taken off the read stack and queued, the updated
    /// records cleared) keeps every gate settled.
    proof fn lemma_tick_start(b: &Self, a: &Self, p: GateIndex)
        requires
            b.wf(),
            b.dependents_complete(),
            a.gates() == b.gates(),
            a.states() == b.states(),
            a.updated().len() == b.updated().len(),
            forall|i: int| 0 <= i < a.updated().len() ==> !a.updated()[i],
            b.pending_updates.read().len() > 0,
            b.pending_updates.read().last() == p,
            a.pending_updates.read() == b.pending_updates.read().drop_last(),
            a.pending_updates.write() == b.pending_updates.write(),
            a.propagation_queue.read().len() == 0,
            a.propagation_queue.write() == seq![p],
        ensures
            a.settled_below(a.num_gates() as int),
    {
        b.state.lemma_lengths();
        assert(lists_gate(a.propagation_queue.write(), p@ as int)) by {
            assert(a.propagation_queue.write()[0] == p);
        }
        assert forall|l: int| #[trigger] b.deferred(l) implies a.deferred(l) || l == p@ as int by {
            if lists_gate(b.pending_updates.read(), l) {
                lemma_lists_pop(b.pending_updates.read(), l);
            }
        }
        assert forall|i: int| 0 <= i < a.num_gates() && (i < a.num_gates() || a.updated()[i]) implies #[trigger] a.settled(i) by {
            assert(b.settled(i));
            assert(!b.queued(i));
            if b.states()[i] == b.gate_value(i) {
                assert(a.inputs(i) =~= b.inputs(i));
            } else if b.deferred(i) {
                if i == p@ as int {
                    assert(a.queued(i));
                } else {
                    assert(a.deferred(i));
                }
            } else {
                let k = choose|k: int| 0 <= k < b.deps(i).len() && #[trigger] b.lever_waiting(b.deps(i)[k] as int);
                let l = b.deps(i)[k] as int;
                assert(!b.queued(l));
                assert(b.deferred(l));
                assert(gate_ok_in(b.gates(), i));
                if l == p@ as int {
                    assert(a.queued(l));
                    assert(!a.updated()[l]);
                } else {
                    assert(a.deferred(l));
                }
                assert(a.lever_waiting(a.deps(i)[k] as int));
            }
        }
    }

    /// A gate that waits in `b` waits in `a` too; with the same gates and states, every gate
    /// settled in `b` is settled in `a`.
    proof fn lemma_settled_transfer(b: &Self, a: &Self, bound: int)
        requires
            b.settled_below(bound),
            a.gates() == b.gates(),
            a.states() == b.states(),
            a.updated() == b.updated(),
            forall|j: int| #[trigger] b.queued(j) ==> a.queued(j),
            forall|j: int| #[trigger] b.deferred(j) ==> a.deferred(j),
        ensures
            a.settled_below(bound),
    {
        assert forall|i: int| 0 <= i < a.num_gates() && (i < bound || a.updated()[i]) implies #[trigger] a.settled(i) by {
            assert(b.settled(i));
            assert(a.inputs(i) =~= b.inputs(i));
            if exists|k: int| 0 <= k < b.deps(i).len() && #[trigger] b.lever_waiting(b.deps(i)[k] as int) {
                let k = choose|k: int| 0 <= k < b.deps(i).len() && #[trigger] b.lever_waiting(b.deps(i)[k] as int);
                let l = b.deps(i)[k] as int;
                assert(b.queued(l) ==> a.queued(l));
                assert(b.deferred(l) ==> a.deferred(l));
                assert(a.lever_waiting(a.deps(i)[k] as int));
            }
        }
    }

    /// Setting lever `lever` and deferring it keeps every gate settled: the gates that read it
    /// wait for it.
    proof fn lemma_lever_set(b: &Self, a: &Self, lever: GateIndex)
        requires
            b.wf(),
            b.dependents_complete(),
            lever@ < b.num_gates(),
            b.ty(lever@ as int) is Lever,
            a.gates() == b.gates(),
            a.states().len() == b.states().len(),
            forall|j: int| 0 <= j < b.states().len() && j != lever@ ==> a.states()[j] == b.states()[j],
            a.updated().len() == b.updated().len(),
            a.propagation_queue == b.propagation_queue,
            a.pending_updates.read() == b.pending_updates.read(),
            a.pending_updates.write() == b.pending_updates.write().push(lever),
        ensures
            a.settled_below(a.num_gates() as int),
    {
        let x = lever@ as int;
        b.state.lemma_lengths();
        assert(a.deferred(x)) by {
            lemma_lists_push(b.pending_updates.write(), lever, x);
        }
        assert forall|l: int| #[trigger] b.deferred(l) implies a.deferred(l) by {
            lemma_lists_push(b.pending_updates.write(), lever, l);
        }
        assert(a.lever_waiting(x));
        assert forall|i: int| 0 <= i < a.num_gates() && (i < a.num_gates() || a.updated()[i]) implies #[trigger] a.settled(i) by {
            assert(b.settled(i));
            assert(!b.queued(i));
            if i == x {
                assert(a.deferred(i));
            } else if b.deps(i).contains(x as usize) {
                let k = b.deps(i).index_of(x as usize);
                assert(a.lever_waiting(a.deps(i)[k] as int));
            } else {
                Self::lemma_inputs_unchanged(b, a, i, x);
                if b.deferred(i) {
                    assert(a.deferred(i));
                } else if b.states()[i] != b.gate_value(i) {
                    let k = choose|k: int| 0 <= k < b.deps(i).len() && #[trigger] b.lever_waiting(b.deps(i)[k] as int);
                    let l = b.deps(i)[k] as int;
                    assert(!b.queued(l));
                    assert(a.deferred(l));
                    assert(a.lever_waiting(a.deps(i)[k] as int));
                }
            }
        }
    }

    /// Swapping the two stacks of deferred gates keeps every gate settled.
    proof fn lemma_swap_pending(b: &Self, a: &Self)
        requires
            b.dependents_complete(),
            b.settled_below(b.num_gates() as int),
            a.gates() == b.gates(),
            a.states() == b.states(),
            a.updated() == b.updated(),
            a.propagation_queue == b.propagation_queue,
            a.pending_updates.read() == b.pending_updates.write(),
            a.pending_updates.write() == b.pending_updates.read(),
        ensures
            a.settled_below(a.num_gates() as int),
    {
        assert forall|l: int| #[trigger] b.deferred(l) == a.deferred(l) by {}
        assert forall|l: int| #[trigger] b.queued(l) == a.queued(l) by {}
        assert forall|i: int| 0 <= i < a.num_gates() && (i < a.num_gates() || a.updated()[i]) implies #[trigger] a.settled(i) by {
            assert(b.settled(i));
            if exists|k: int| 0 <= k < b.deps(i).len() && #[trigger] b.lever_waiting(b.deps(i)[k] as int) {
                let k = choose|k: int| 0 <= k < b.deps(i).len() && #[trigger] b.lever_waiting(b.deps(i)[k] as int);
                assert(a.lever_waiting(a.deps(i)[k] as int));
            }
        }
    }

    /// Lever gates keep their state.
    pub open spec fn same_levers(&self, old: &Self) -> bool {
        forall|i: int| 0 <= i < old.num_gates() && old.ty(i) is Lever ==> self.states()[i] == old.states()[i]
    }

    /// The gates, levers and outputs are those of `old`.
    pub open spec fn same_structure(&self, old: &Self) -> bool {
        &&& self.gates() == old.gates()
        &&& self.levers() == old.levers()
        &&& self.output_list() == old.output_list()
    }

    /// True if `b` has the gates, levers and outputs of `a`, and the same states, updated
    /// records, propagation queue and deferred gates.
    pub open spec fn same_engine(a: Self, b: Self) -> bool {
        &&& b.same_structure(&a)
        &&& b.states() == a.states()
        &&& b.updated() == a.updated()
        &&& b.queue() == a.queue()
        &&& b.pending() == a.pending()
    }

    /// True if `b` follows `a` by one visit of the topmost gate on the read stack of the
    /// propagation queue. A gate not yet updated in this tick takes the state it computes and
    /// is marked updated; if that changed its state, or if it is a lever, its dependents are
    /// queued, in order. A gate already updated in this tick keeps its state, and is deferred
    /// to the next tick if the state it computes differs.
    pub open spec fn visit_step(a: Self, b: Self) -> bool {
        let top = a.queue().0.last();
        let idx = top.idx as int;
        let new = a.gate_value(idx);
        &&& a.queue().0.len() > 0
        &&& b.same_structure(&a)
        &&& b.queue().0 == a.queue().0.drop_last()
        &&& b.pending().0 == a.pending().0
        &&& if a.updated()[idx] {
            &&& b.states() == a.states()
            &&& b.updated() == a.updated()
            &&& b.queue().1 == a.queue().1
            &&& b.pending().1 == (if new != a.states()[idx] {
                a.pending().1.push(top)
            } else {
                a.pending().1
            })
        } else {
            &&& b.states() == a.states().update(idx, new)
            &&& b.updated() == a.updated().update(idx, true)
            &&& b.pending().1 == a.pending().1
            &&& b.queue().1 == (if a.ty(idx) is Lever || new != a.states()[idx] {
                a.queue().1 + index_seq(a.dependents(idx))
            } else {
                a.queue().1
            })
        }
    }

    /// True if `b` follows `a` by turning the propagation queue over: nothing is left to
    /// visit on its read stack, and the gates queued on its write stack are visited next.
    pub open spec fn queue_swap_step(a: Self, b: Self) -> bool {
        &&& a.queue().0.len() == 0
        &&& a.queue().1.len() > 0
        &&& b.same_structure(&a)
        &&& b.queue() == (a.queue().1, a.queue().0)
        &&& b.pending() == a.pending()
        &&& b.states() == a.states()
        &&& b.updated() == a.updated()
    }

    /// One step of a propagation: a visit, or a turn of the queue.
    pub open spec fn propagation_step(a: Self, b: Self) -> bool {
        Self::visit_step(a, b) || Self::queue_swap_step(a, b)
    }

    /// True if each graph of `trace` follows the one before it by a propagation step.
    pub open spec fn propagation_run(trace: Seq<Self>) -> bool {
        &&& trace.len() >= 1
        &&& forall|k: int| 0 <= k < trace.len() - 1 ==> #[trigger] Self::propagation_step(trace[k], trace[k + 1])
    }

    /// True if propagation steps lead from `a` to `b`.
    pub open spec fn propagates_to(a: Self, b: Self) -> bool {
        exists|trace: Seq<Self>| #[trigger] Self::propagation_run(trace) && trace[0] == a
            && Self::same_engine(trace.last(), b)
    }

    /// True if `b` follows `a` by starting the next deferred gate of a tick: the propagation
    /// queue is empty, the topmost gate of the deferred read stack is taken off it and queued,
    /// and no gate counts as updated any more.
    pub open spec fn start_step(a: Self, b: Self) -> bool {
        &&& a.queue().0.len() == 0
        &&& a.queue().1.len() == 0
        &&& a.pending().0.len() > 0
        &&& b.same_structure(&a)
        &&& b.pending() == (a.pending().0.drop_last(), a.pending().1)
        &&& b.queue() == (a.queue().0, seq![a.pending().0.last()])
        &&& b.states() == a.states()
        &&& b.updated() == Seq::new(a.updated().len(), |i: int| false)
    }

    /// True if `b` follows `a` by ending a tick: nothing is left to visit or to start, and the
    /// gates deferred during the tick become the ones to start in the next.
    pub open spec fn pending_swap_step(a: Self, b: Self) -> bool {
        &&& a.queue().0.len() == 0
        &&& a.queue().1.len() == 0
        &&& a.pending().0.len() == 0
        &&& b.same_structure(&a)
        &&& b.pending() == (a.pending().1, a.pending().0)
        &&& b.queue() == a.queue()
        &&& b.states() == a.states()
        &&& b.updated() == a.updated()
    }

    /// A step within a tick: a propagation step or the start of a deferred gate.
    pub open spec fn tick_inner_step(a: Self, b: Self) -> bool {
        Self::propagation_step(a, b) || Self::start_step(a, b)
    }

    /// True if each graph of `trace` follows the one before it by a step within a tick.
    pub open spec fn tick_prefix(trace: Seq<Self>) -> bool {
        &&& trace.len() >= 1
        &&& forall|k: int| 0 <= k < trace.len() - 1 ==> #[trigger] Self::tick_inner_step(trace[k], trace[k + 1])
    }

    /// True if `trace` is one whole tick: steps within the tick, then its end.
    pub open spec fn tick_run(trace: Seq<Self>) -> bool {
        &&& trace.len() >= 2
        &&& Self::tick_prefix(trace.drop_last())
        &&& Self::pending_swap_step(trace[trace.len() - 2], trace.last())
    }

    /// True if one tick leads from `a` to `b`. At each point exactly one kind of step applies,
    /// so `b` is determined by `a`.
    pub open spec fn ticks_to(a: Self, b: Self) -> bool {
        exists|trace: Seq<Self>| #[trigger] Self::tick_run(trace) && trace[0] == a && trace.last() == b
    }

    /// Appending a propagation run to steps within a tick gives steps within a tick.
    proof fn lemma_tick_prefix_extend(t: Seq<Self>, u: Seq<Self>)
        requires
            Self::tick_prefix(t),
            Self::propagation_run(u),
            u[0] == t.last(),
        ensures
            Self::tick_prefix(t + u.skip(1)),
            (t + u.skip(1))[0] == t[0],
            (t + u.skip(1)).last() == u.last(),
    {
        let c = t + u.skip(1);
        assert forall|k: int| 0 <= k < c.len() - 1 implies #[trigger] Self::tick_inner_step(c[k], c[k + 1]) by {
            if k < t.len() - 1 {
                assert(c[k] == t[k] && c[k + 1] == t[k + 1]);
            } else {
                let j = k - (t.len() - 1);
                assert(c[k] == u[j]);
                assert(c[k + 1] == u[j + 1]);
                assert(Self::propagation_step(u[j], u[j + 1]));
            }
        }
    }

    /// A propagation run followed by one more propagation step is a propagation run.
    proof fn lemma_run_push(t: Seq<Self>, b: Self)
        requires
            Self::propagation_run(t),
            Self::propagation_step(t.last(), b),
        ensures
            Self::propagation_run(t.push(b)),
            t.push(b)[0] == t[0],
            t.push(b).last() == b,
    {
        let c = t.push(b);
        assert forall|k: int| 0 <= k < c.len() - 1 implies #[trigger] Self::propagation_step(c[k], c[k + 1]) by {
            if k < t.len() - 1 {
                assert(c[k] == t[k] && c[k + 1] == t[k + 1]);
            } else {
                assert(c[k] == t.last());
            }
        }
    }

    /// True if `g` is how a new graph starts, before any gate is computed: nothing queued or
    /// deferred, only `ON` on, and only `OFF` and `ON` counted as updated.
    pub open spec fn init_start(g: Self) -> bool {
        &&& g.queue().0.len() == 0
        &&& g.queue().1.len() == 0
        &&& g.pending().0.len() == 0
        &&& g.pending().1.len() == 0
        &&& g.states().len() == g.updated().len()
        &&& g.num_gates() <= g.states().len()
        &&& forall|i: int| 0 <= i < g.states().len() ==> #[trigger] g.states()[i] == (i == 1)
        &&& forall|i: int| 0 <= i < g.updated().len() ==> #[trigger] g.updated()[i] == (i < 2)
    }

    /// True if `b` follows `a` by computing gate `i` when a new graph is set up: a gate other
    /// than `OFF` and `ON` that has been updated already is skipped; any other is queued and
    /// propagated (see [InitializedGateGraph::propagates_to]).
    pub open spec fn init_visit(a: Self, b: Self, i: usize) -> bool {
        if i >= 2 && a.updated()[i as int] {
            Self::same_engine(a, b)
        } else {
            exists|m: Self| #[trigger] Self::propagates_to(m, b) && m.same_structure(&a) && m.states() == a.states()
                && m.updated() == a.updated() && m.pending() == a.pending()
                && m.queue() == (a.queue().0, a.queue().1.push(GateIndex { idx: i }))
        }
    }

    /// True if `trace` computes the gates of a new graph one after the other, in index order.
    pub open spec fn init_run(trace: Seq<Self>) -> bool {
        forall|i: usize| i < trace.len() - 1 ==> #[trigger] Self::init_visit(trace[i as int], trace[i + 1], i)
    }

    /// True if `g` is a new graph with every gate computed once: from the start (see
    /// [InitializedGateGraph::init_start]), each gate in index order computed (see
    /// [InitializedGateGraph::init_visit]), then the gates deferred meanwhile left for the first
    /// tick.
    pub open spec fn computed_once(g: Self) -> bool {
        exists|trace: Seq<Self>| #[trigger] Self::init_run(trace) && trace.len() == g.num_gates() + 1
            && Self::init_start(trace[0]) && trace[0].same_structure(&g) && Self::pending_swap_step(trace.last(), g)
    }

    /// True if `b` is `a` with lever gate `l` set to `value`: if that changes its state, the
    /// lever is marked updated and deferred to the tick after the next; otherwise nothing
    /// changes.
    pub open spec fn lever_changed(a: Self, b: Self, l: int, value: bool) -> bool {
        &&& b.same_structure(&a)
        &&& b.queue() == a.queue()
        &&& b.pending().0 == a.pending().0
        &&& if a.states()[l] != value {
            &&& b.states() == a.states().update(l, value)
            &&& b.updated() == a.updated().update(l, true)
            &&& b.pending().1 == a.pending().1.push(GateIndex { idx: l as usize })
        } else {
            &&& b.states() == a.states()
            &&& b.updated() == a.updated()
            &&& b.pending().1 == a.pending().1
        }
    }

    /// True if `b` follows `a` by setting lever gate `l` to `value` and running one tick.
    pub open spec fn lever_updated(a: Self, b: Self, l: int, value: bool) -> bool {
        exists|m: Self| #[trigger] Self::ticks_to(m, b) && Self::lever_changed(a, m, l, value)
    }

    /// True if `b` follows `a` by [InitializedGateGraph::run_until_stable] with `max` ten
    /// returning `r`: the ticks it reports, or ten ticks if it failed.
    pub open spec fn ran_until(a: Self, b: Self, r: Result<usize, &'static str>) -> bool {
        &&& r matches Ok(n) ==> b.is_stable() && Self::ran_ticks(a, b, n as nat)
        &&& r is Err ==> Self::ran_ticks(a, b, 10)
    }

    /// True if `s` and `rs` are the graphs and results of a pulse of lever gate `l` run until
    /// stable from `a` to `b` returning `r`: set and a tick, run until stable, reset and a
    /// tick, run until stable; the first failure is returned, or else the last result.
    pub open spec fn pulsed(a: Self, s: Seq<Self>, rs: Seq<Result<usize, &'static str>>, l: int, b: Self,
        r: Result<usize, &'static str>) -> bool {
        &&& s.len() == 3
        &&& rs.len() == 2
        &&& Self::lever_updated(a, s[0], l, true)
        &&& Self::ran_until(s[0], s[1], rs[0])
        &&& Self::lever_updated(s[1], s[2], l, false)
        &&& Self::ran_until(s[2], b, rs[1])
        &&& r == (if rs[0] is Err { rs[0] } else { rs[1] })
    }

    /// True if `b` can follow `a` by one [tick](InitializedGateGraph::tick): still well formed,
    /// with the same gates, levers and outputs and lever states, nothing deferred to the tick
    /// after, and nothing changed if `a` was stable.
    pub open spec fn tick_step(a: Self, b: Self) -> bool {
        &&& b.wf()
        &&& b.same_structure(&a)
        &&& b.same_levers(&a)
        &&& b.pending().1.len() == 0
        &&& a.is_stable() ==> b.is_stable() && b.states() == a.states()
        &&& Self::ticks_to(a, b)
    }

    /// True if `trace` is a run of ticks, each from a graph that was not stable.
    pub open spec fn unstable_run(trace: Seq<Self>) -> bool {
        &&& trace.len() >= 1
        &&& forall|k: int| 0 <= k < trace.len() - 1 ==> !(#[trigger] trace[k]).is_stable()
            && Self::tick_step(trace[k], trace[k + 1])
    }

    /// True if `b` is `a` after `n` ticks, each from a graph that was not stable.
    pub open spec fn ran_ticks(a: Self, b: Self, n: nat) -> bool {
        exists|trace: Seq<Self>| #[trigger] Self::unstable_run(trace) && trace.len() == n + 1
            && trace[0] == a && trace.last() == b
    }

    /// Runs one tick: each deferred gate is propagated in turn, with the updated records reset
    /// before each; the gates deferred while doing so wait for the next tick.
    pub fn tick(&mut self)
        requires
            old(self).wf(),
        ensures
            final(self).wf(),
            final(self).same_structure(old(self)),
            final(self).same_levers(old(self)),
            final(self).pending().1.len() == 0,
            old(self).is_stable() ==> final(self).is_stable() && final(self).states() == old(self).states(),
            Self::ticks_to(*old(self), *final(self)),
    {
        let ghost mut trace: Seq<Self> = seq![*self];
        loop
            invariant
                Self::tick_prefix(trace),
                trace[0] == *old(self),
                Self::same_engine(trace.last(), *self),
                self.wf(),
                self.same_structure(old(self)),
                self.same_levers(old(self)),
                self.states().len() == old(self).states().len(),
                old(self).is_stable() ==> self.pending() == old(self).pending() && self.states() == old(self).states(),
            ensures
                self.wf(),
                self.pending().0.len() == 0,
                Self::tick_prefix(trace),
                trace[0] == *old(self),
                Self::same_engine(trace.last(), *self),
            decreases self.pending_updates.read().len(),
        {
            let ghost before = *self;
            let pending = self.pending_updates.pop();
            match pending {
                None => {
                    proof {
                        if self.dependents_complete() {
                            Self::lemma_settled_transfer(&before, self, self.num_gates() as int);
                        }
                    }
                    break;
                },
                Some(p) => {
                    proof {
                        assert(self.pending_updates.read() =~= before.pending_updates.read().drop_last());
                        assert(before.pending_updates.read()[before.pending_updates.read().len() - 1] == p);
                        assert(all_below(self.pending_updates.read(), self.num_gates())) by {
                            assert forall|k: int| 0 <= k < self.pending_updates.read().len() implies #[trigger] self.pending_updates.read()[k]@ < self.num_gates() by {
                                assert(self.pending_updates.read()[k] == before.pending_updates.read()[k]);
                            }
                        }
                    }
                    self.state.tick();
                    self.propagation_queue.push(p);
                    proof {
                        assert(self.propagation_queue.write() =~= seq![p]);
                    }
                    let ghost mid = *self;
                    proof {
                        assert(self.updated() =~= Seq::new(before.updated().len(), |i: int| false));
                        assert(Self::start_step(trace.last(), *self));
                        let t0 = trace;
                        trace = trace.push(*self);
                        assert forall|k: int| 0 <= k < trace.len() - 1 implies #[trigger] Self::tick_inner_step(trace[k], trace[k + 1]) by {
                            if k < t0.len() - 1 {
                                assert(trace[k] == t0[k] && trace[k + 1] == t0[k + 1]);
                            }
                        }
                        if mid.dependents_complete() {
                            assert(mid.dependents_complete() == before.dependents_complete());
                            Self::lemma_tick_start(&before, &mid, p);
                        }
                    }
                    self.tick_inner(Ghost(self.num_gates() as int));
                    proof {
                        let u = choose|u: Seq<Self>| #[trigger] Self::propagation_run(u) && u[0] == mid
                            && Self::same_engine(u.last(), *self);
                        Self::lemma_tick_prefix_extend(trace, u);
                        trace = trace + u.skip(1);
                        assert forall|i: int| 0 <= i < old(self).num_gates() && old(self).ty(i) is Lever implies self.states()[i] == old(self).states()[i] by {
                            assert(mid.ty(i) is Lever);
                        }
                    }
                },
            }
        }
        let ghost quiet = *self;
        self.pending_updates.swap();
        proof {
            if self.dependents_complete() {
                Self::lemma_swap_pending(&quiet, self);
            }
            assert(Self::pending_swap_step(trace.last(), *self));
            let full = trace.push(*self);
            assert(full.drop_last() =~= trace);
            assert(Self::tick_run(full));
        }
    }

    /// Runs [ticks](InitializedGateGraph::tick) until no propagation is pending, at most `max`
    /// times. Returns how many ticks it took, or an error if the graph did not stabilize.
    pub fn run_until_stable(&mut self, max: usize) -> (r: Result<usize, &'static str>)
        requires
            old(self).wf(),
        ensures
            final(self).wf(),
            final(self).same_structure(old(self)),
            final(self).same_levers(old(self)),
            r matches Ok(n) ==> n < max && final(self).is_stable() && Self::ran_ticks(*old(self), *final(self), n as nat),
            r is Err ==> Self::ran_ticks(*old(self), *final(self), max as nat),
            r is Ok && final(self).dependents_complete() ==> final(self).is_consistent(),
            old(self).is_stable() && max > 0 ==> r == Ok::<usize, &'static str>(0) && *final(self) == *old(self),
    {
        let mut i: usize = 0;
        let ghost trace: Seq<Self> = seq![*self];
        while i < max
            invariant
                self.wf(),
                self.same_structure(old(self)),
                self.same_levers(old(self)),
                i <= max,
                i == 0 ==> *self == *old(self),
                old(self).is_stable() ==> i == 0,
                Self::unstable_run(trace),
                trace.len() == i + 1,
                trace[0] == *old(self),
                trace.last() == *self,
            decreases max - i,
        {
            if self.pending_updates.is_empty() {
                proof {
                    if self.dependents_complete() {
                        self.law_stable_is_consistent();
                    }
                    assert(Self::ran_ticks(*old(self), *self, i as nat));
                }
                return Ok(i);
            }
            let ghost before = *self;
            self.tick();
            proof {
                assert forall|j: int| 0 <= j < old(self).num_gates() && old(self).ty(j) is Lever implies self.states()[j] == old(self).states()[j] by {
                    assert(before.ty(j) is Lever);
                }
                let t2 = trace.push(*self);
                assert forall|k: int| 0 <= k < t2.len() - 1 implies !(#[trigger] t2[k]).is_stable()
                    && Self::tick_step(t2[k], t2[k + 1]) by {
                    if k < trace.len() - 1 {
                        assert(t2[k] == trace[k] && t2[k + 1] == trace[k + 1]);
                    } else {
                        assert(t2[k] == before);
                        assert(t2[k + 1] == *self);
                    }
                }
                trace = t2;
            }
            i = i + 1;
        }
        proof {
            assert(Self::ran_ticks(*old(self), *self, max as nat));
        }
        Err("Your graph didn't stabilize")
    }

    /// True if every gate holds the state that it computes from the states of its
    /// dependencies.
    pub open spec fn is_consistent(&self) -> bool {
        forall|i: int| 0 <= i < self.num_gates() ==> #[trigger] self.states()[i] == self.gate_value(i)
    }

    /// Once the graph is stable, every gate holds the state that it computes from the states of
    /// its dependencies, provided that every gate is among the dependents of each of its
    /// dependencies (see [InitializedGateGraph::check_dependents]).
    pub proof fn law_stable_is_consistent(&self)
        requires
            self.wf(),
            self.dependents_complete(),
            self.is_stable(),
        ensures
            self.is_consistent(),
    {
        assert forall|i: int| 0 <= i < self.num_gates() implies #[trigger] self.states()[i] == self.gate_value(i) by {
            assert(self.settled(i));
            assert(!self.queued(i));
            assert(!self.deferred(i));
            assert forall|l: int| !#[trigger] self.lever_waiting(l) by {
                assert(!self.queued(l));
                assert(!self.deferred(l));
            }
        }
    }

    /// Returns true if every gate is among the dependents of each of its dependencies.
    pub fn check_dependents(&self) -> (r: bool)
        requires
            self.wf(),
        ensures
            r == self.dependents_complete(),
    {
        let nodes = self.nodes.get();
        let n = nodes.len();
        let mut i: usize = 0;
        while i < n
            invariant
                n == self.num_gates(),
                nodes@ == self.gates(),
                gates_ok(self.gates()),
                i <= n,
                forall|j: int, k: int| 0 <= j < i && 0 <= k < self.deps(j).len()
                    ==> #[trigger] self.dependents(self.deps(j)[k] as int).contains(j as usize),
            decreases n - i,
        {
            let deps = &nodes[i].dependencies;
            let m = edge_list_len(deps);
            proof {
                assert(gate_ok_in(self.gates(), i as int));
            }
            let mut k: usize = 0;
            while k < m
                invariant
                    n == self.num_gates(),
                    nodes@ == self.gates(),
                    gates_ok(self.gates()),
                    i < n,
                    *deps == self.gates()[i as int].dependencies,
                    m == self.deps(i as int).len(),
                    k <= m,
                    forall|j: int, k: int| 0 <= j < i && 0 <= k < self.deps(j).len()
                        ==> #[trigger] self.dependents(self.deps(j)[k] as int).contains(j as usize),
                    forall|q: int| 0 <= q < k
                        ==> #[trigger] self.dependents(self.deps(i as int)[q] as int).contains(i),
                decreases m - k,
            {
                let d = edge_list_get(deps, k);
                proof {
                    assert(gate_ok_in(self.gates(), i as int));
                    assert(self.deps(i as int)[k as int] == d);
                }
                if !edge_list_contains(&nodes[d].dependents, i) {
                    proof {
                        let g = self.gates();
                        let j = i as int;
                        assert(!edge_list_items(g[edge_list_items(g[j].dependencies)[k as int] as int].dependents).contains(j as usize));
                    }
                    return false;
                }
                k = k + 1;
            }
            i = i + 1;
        }
        proof {
            let g = self.gates();
            assert forall|j: int, k: int| 0 <= j < g.len() && 0 <= k < edge_list_items(g[j].dependencies).len()
                implies #[trigger] edge_list_items(g[edge_list_items(g[j].dependencies)[k] as int].dependents).contains(j as usize) by {
                assert(self.dependents(self.deps(j)[k] as int).contains(j as usize));
            }
        }
        true
    }

    /// Sets lever `lever` to `value`, deferring its propagation if that changes it.
    fn update_lever_inner(&mut self, lever: LeverHandle, value: bool)
        requires
            old(self).wf(),
            lever.handle < old(self).levers().len(),
        ensures
            final(self).wf(),
            final(self).same_structure(old(self)),
            final(self).states() == old(self).states().update(old(self).levers()[lever.handle as int]@ as int, value),
            Self::lever_changed(*old(self), *final(self), old(self).lever_gate(lever), value),
    {
        let idx = self.lever_handles.get()[lever.handle];
        proof {
            assert(idx@ < self.num_gates() && self.ty(idx@ as int) is Lever);
        }
        if self.state.get_state(idx.idx) != value {
            let ghost w = self.pending_updates.write();
            self.state.set(idx.idx, value);
            self.pending_updates.push(idx);
            proof {
                assert forall|k: int| 0 <= k < self.pending_updates.write().len() implies #[trigger] self.pending_updates.write()[k]@ < self.num_gates() by {
                    if k < w.len() { assert(self.pending_updates.write()[k] == w[k]); }
                }
                assert(self.states()[0] == old(self).states()[0]);
                assert(self.states()[1] == old(self).states()[1]);
                if self.dependents_complete() {
                    old(self).state.lemma_lengths();
                    self.state.lemma_lengths();
                    Self::lemma_lever_set(old(self), self, idx);
                }
                assert(idx == GateIndex { idx: old(self).lever_gate(lever) as usize });
            }
        } else {
            proof {
                assert(old(self).states().update(idx@ as int, value) =~= old(self).states());
            }
        }
    }

    /// The index of the lever gate of handle `h`.
    pub open spec fn lever_gate(&self, h: LeverHandle) -> int {
        self.levers()[h.handle as int]@ as int
    }

    /// Sets the levers `levers` to the corresponding `values`, as far as both go, and runs a tick.
    pub fn update_levers(&mut self, levers: &[LeverHandle], values: &[bool])
        requires
            old(self).wf(),
            forall|k: int| 0 <= k < levers@.len() ==> #[trigger] levers@[k].handle < old(self).levers().len(),
        ensures
            final(self).wf(),
            final(self).same_structure(old(self)),
            forall|k: int| 0 <= k < levers@.len() && k < values@.len()
                && (forall|l: int| k < l < levers@.len() && l < values@.len() ==> old(self).lever_gate(levers@[l]) != old(self).lever_gate(levers@[k]))
                ==> #[trigger] final(self).states()[old(self).lever_gate(levers@[k])] == values@[k],
            forall|i: int| 0 <= i < old(self).num_gates() && old(self).ty(i) is Lever
                && (forall|k: int| 0 <= k < levers@.len() && k < values@.len() ==> old(self).lever_gate(levers@[k]) != i)
                ==> #[trigger] final(self).states()[i] == old(self).states()[i],
    {
        let n = if levers.len() < values.len() { levers.len() } else { values.len() };
        let mut k: usize = 0;
        while k < n
            invariant
                self.wf(),
                self.same_structure(old(self)),
                n <= levers@.len() && n <= values@.len(),
                k <= n,
                forall|k: int| 0 <= k < levers@.len() ==> #[trigger] levers@[k].handle < old(self).levers().len(),
                forall|j: int| 0 <= j < k
                    && (forall|l: int| j < l < k ==> old(self).lever_gate(levers@[l]) != old(self).lever_gate(levers@[j]))
                    ==> #[trigger] self.states()[old(self).lever_gate(levers@[j])] == values@[j],
                forall|i: int| 0 <= i < old(self).num_gates() && old(self).ty(i) is Lever
                    && (forall|j: int| 0 <= j < k ==> old(self).lever_gate(levers@[j]) != i)
                    ==> #[trigger] self.states()[i] == old(self).states()[i],
            decreases n - k,
        {
            let ghost before = *self;
            self.update_lever_inner(levers[k], values[k]);
            proof {
                assert forall|i: int| 0 <= i < old(self).num_gates() && old(self).ty(i) is Lever
                    && (forall|j: int| 0 <= j < k + 1 ==> old(self).lever_gate(levers@[j]) != i)
                    implies #[trigger] self.states()[i] == old(self).states()[i] by {
                    assert(old(self).lever_gate(levers@[k as int]) != i);
                    assert(before.states()[i] == old(self).states()[i]);
                }
            }
            proof {
                assert forall|j: int| 0 <= j < k + 1
                    && (forall|l: int| j < l < k + 1 ==> old(self).lever_gate(levers@[l]) != old(self).lever_gate(levers@[j]))
                    implies #[trigger] self.states()[old(self).lever_gate(levers@[j])] == values@[j] by {
                    if j < k {
                        assert(old(self).lever_gate(levers@[k as int]) != old(self).lever_gate(levers@[j]));
                        assert forall|l: int| j < l < k implies old(self).lever_gate(levers@[l]) != old(self).lever_gate(levers@[j]) by {
                            assert(j < l < k + 1);
                        }
                        assert(before.states()[old(self).lever_gate(levers@[j])] == values@[j]);
                    }
                }
            }
            k = k + 1;
        }
        let ghost before = *self;
        self.tick();
        proof {
            assert forall|k: int| 0 <= k < levers@.len() && k < values@.len()
                && (forall|l: int| k < l < levers@.len() && l < values@.len() ==> old(self).lever_gate(levers@[l]) != old(self).lever_gate(levers@[k]))
                implies #[trigger] self.states()[old(self).lever_gate(levers@[k])] == values@[k] by {
                let a = old(self).lever_gate(levers@[k]);
                assert forall|l: int| k < l < n implies old(self).lever_gate(levers@[l]) != old(self).lever_gate(levers@[k]) by {
                    assert(l < levers@.len() && l < values@.len());
                }
                assert(handles_ok(old(self).gates(), old(self).levers(), old(self).output_list()));
                assert(before.ty(a as int) is Lever);
            }
            assert forall|i: int| 0 <= i < old(self).num_gates() && old(self).ty(i) is Lever
                && (forall|k: int| 0 <= k < levers@.len() && k < values@.len() ==> old(self).lever_gate(levers@[k]) != i)
                implies #[trigger] self.states()[i] == old(self).states()[i] by {
                assert forall|j: int| 0 <= j < n implies old(self).lever_gate(levers@[j]) != i by {
                    assert(j < levers@.len() && j < values@.len());
                }
                assert(before.ty(i) is Lever);
                assert(before.states()[i] == old(self).states()[i]);
            }
        }
    }

    /// Sets lever `lever` to `value` and runs a tick.
    pub fn update_lever(&mut self, lever: LeverHandle, value: bool)
        requires
            old(self).wf(),
            lever.handle < old(self).levers().len(),
        ensures
            final(self).wf(),
            final(self).same_structure(old(self)),
            final(self).states()[old(self).lever_gate(lever)] == value,
            forall|i: int| 0 <= i < old(self).num_gates() && old(self).ty(i) is Lever && i != old(self).lever_gate(lever)
                ==> final(self).states()[i] == old(self).states()[i],
            Self::lever_updated(*old(self), *final(self), old(self).lever_gate(lever), value),
    {
        self.update_lever_inner(lever, value);
        let ghost mid = *self;
        self.tick();
        proof {
            assert(Self::ticks_to(mid, *self) && Self::lever_changed(*old(self), mid, old(self).lever_gate(lever), value));
            assert(handles_ok(old(self).gates(), old(self).levers(), old(self).output_list()));
            assert(mid.ty(old(self).lever_gate(lever)) is Lever);
            assert forall|i: int| 0 <= i < old(self).num_gates() && old(self).ty(i) is Lever && i != old(self).lever_gate(lever)
                implies self.states()[i] == old(self).states()[i] by {
                assert(mid.ty(i) is Lever);
            }
        }
    }

    /// Sets lever `lever` to true and runs a tick.
    pub fn set_lever(&mut self, lever: LeverHandle)
        requires
            old(self).wf(),
            lever.handle < old(self).levers().len(),
        ensures
            final(self).wf(),
            final(self).same_structure(old(self)),
            final(self).states()[old(self).lever_gate(lever)],
            forall|i: int| 0 <= i < old(self).num_gates() && old(self).ty(i) is Lever && i != old(self).lever_gate(lever)
                ==> final(self).states()[i] == old(self).states()[i],
            Self::lever_updated(*old(self), *final(self), old(self).lever_gate(lever), true),
    {
        self.update_lever(lever, true)
    }

    /// Sets lever `lever` to false and runs a tick.
    pub fn reset_lever(&mut self, lever: LeverHandle)
        requires
            old(self).wf(),
            lever.handle < old(self).levers().len(),
        ensures
            final(self).wf(),
            final(self).same_structure(old(self)),
            !final(self).states()[old(self).lever_gate(lever)],
            forall|i: int| 0 <= i < old(self).num_gates() && old(self).ty(i) is Lever && i != old(self).lever_gate(lever)
                ==> final(self).states()[i] == old(self).states()[i],
            Self::lever_updated(*old(self), *final(self), old(self).lever_gate(lever), false),
    {
        self.update_lever(lever, false)
    }

    /// Flips lever `lever` and runs a tick.
    pub fn flip_lever(&mut self, lever: LeverHandle)
        requires
            old(self).wf(),
            lever.handle < old(self).levers().len(),
        ensures
            final(self).wf(),
            final(self).same_structure(old(self)),
            final(self).states()[old(self).lever_gate(lever)] == !old(self).states()[old(self).lever_gate(lever)],
            forall|i: int| 0 <= i < old(self).num_gates() && old(self).ty(i) is Lever && i != old(self).lever_gate(lever)
                ==> final(self).states()[i] == old(self).states()[i],
            Self::lever_updated(*old(self), *final(self), old(self).lever_gate(lever),
                !old(self).states()[old(self).lever_gate(lever)]),
    {
        let idx = self.lever_handles.get()[lever.handle];
        proof {
            assert(handles_ok(self.gates(), self.levers(), self.output_list()));
            assert(idx@ < self.num_gates() && self.ty(idx@ as int) is Lever);
        }
        let value = !self.state.get_state(idx.idx);
        let ghost w = self.pending_updates.write();
        self.state.set(idx.idx, value);
        self.pending_updates.push(idx);
        proof {
            assert forall|k: int| 0 <= k < self.pending_updates.write().len() implies #[trigger] self.pending_updates.write()[k]@ < self.num_gates() by {
                if k < w.len() { assert(self.pending_updates.write()[k] == w[k]); }
            }
            assert(self.states()[0] == old(self).states()[0]);
            assert(self.states()[1] == old(self).states()[1]);
            if self.dependents_complete() {
                old(self).state.lemma_lengths();
                self.state.lemma_lengths();
                Self::lemma_lever_set(old(self), self, idx);
            }
        }
        let ghost mid = *self;
        proof {
            assert(idx == GateIndex { idx: old(self).lever_gate(lever) as usize });
            assert(Self::lever_changed(*old(self), mid, old(self).lever_gate(lever), !old(self).states()[old(self).lever_gate(lever)]));
        }
        self.tick();
        proof {
            assert(Self::ticks_to(mid, *self));
            assert(mid.ty(idx@ as int) is Lever);
            assert forall|i: int| 0 <= i < old(self).num_gates() && old(self).ty(i) is Lever && i != old(self).lever_gate(lever)
                implies self.states()[i] == old(self).states()[i] by {
                assert(mid.ty(i) is Lever);
            }
        }
    }

    /// Sets lever `lever` to true, runs a tick, sets it to false and runs a tick.
    pub fn pulse_lever(&mut self, lever: LeverHandle)
        requires
            old(self).wf(),
            lever.handle < old(self).levers().len(),
        ensures
            final(self).wf(),
            final(self).same_structure(old(self)),
            !final(self).states()[old(self).lever_gate(lever)],
            forall|i: int| 0 <= i < old(self).num_gates() && old(self).ty(i) is Lever && i != old(self).lever_gate(lever)
                ==> final(self).states()[i] == old(self).states()[i],
    {
        let ghost first = *self;
        self.set_lever(lever);
        let ghost mid = *self;
        self.reset_lever(lever);
        proof {
            assert forall|i: int| 0 <= i < old(self).num_gates() && old(self).ty(i) is Lever && i != old(self).lever_gate(lever)
                implies self.states()[i] == old(self).states()[i] by {
                assert(mid.ty(i) is Lever);
            }
        }
    }

    /// Sets lever `lever` to true and runs [run_until_stable](InitializedGateGraph::run_until_stable)
    /// with at most 10 ticks, whose result it returns.
    pub fn set_lever_stable(&mut self, lever: LeverHandle) -> (r: Result<usize, &'static str>)
        requires
            old(self).wf(),
            lever.handle < old(self).levers().len(),
        ensures
            final(self).wf(),
            final(self).same_structure(old(self)),
            final(self).states()[old(self).lever_gate(lever)],
            r matches Ok(n) ==> n < 10 && final(self).is_stable(),
            r is Ok && final(self).dependents_complete() ==> final(self).is_consistent(),
            forall|i: int| 0 <= i < old(self).num_gates() && old(self).ty(i) is Lever && i != old(self).lever_gate(lever)
                ==> final(self).states()[i] == old(self).states()[i],
            exists|mid: Self| #[trigger] Self::lever_updated(*old(self), mid, old(self).lever_gate(lever), true)
                && Self::ran_until(mid, *final(self), r),
    {
        self.set_lever(lever);
        let ghost mid = *self;
        let r = self.run_until_stable(10);
        proof {
            assert(Self::ran_until(mid, *self, r));
            assert(handles_ok(old(self).gates(), old(self).levers(), old(self).output_list()));
            assert(mid.ty(old(self).lever_gate(lever)) is Lever);
            assert forall|i: int| 0 <= i < old(self).num_gates() && old(self).ty(i) is Lever && i != old(self).lever_gate(lever)
                implies self.states()[i] == old(self).states()[i] by {
                assert(mid.ty(i) is Lever);
            }
        }
        r
    }

    /// Sets lever `lever` to false and runs until stable, see
    /// [set_lever_stable](InitializedGateGraph::set_lever_stable).
    pub fn reset_lever_stable(&mut self, lever: LeverHandle) -> (r: Result<usize, &'static str>)
        requires
            old(self).wf(),
            lever.handle < old(self).levers().len(),
        ensures
            final(self).wf(),
            final(self).same_structure(old(self)),
            !final(self).states()[old(self).lever_gate(lever)],
            r matches Ok(n) ==> n < 10 && final(self).is_stable(),
            r is Ok && final(self).dependents_complete() ==> final(self).is_consistent(),
            forall|i: int| 0 <= i < old(self).num_gates() && old(self).ty(i) is Lever && i != old(self).lever_gate(lever)
                ==> final(self).states()[i] == old(self).states()[i],
            exists|mid: Self| #[trigger] Self::lever_updated(*old(self), mid, old(self).lever_gate(lever), false)
                && Self::ran_until(mid, *final(self), r),
    {
        self.reset_lever(lever);
        let ghost mid = *self;
        let r = self.run_until_stable(10);
        proof {
            assert(Self::ran_until(mid, *self, r));
            assert(handles_ok(old(self).gates(), old(self).levers(), old(self).output_list()));
            assert(mid.ty(old(self).lever_gate(lever)) is Lever);
            assert forall|i: int| 0 <= i < old(self).num_gates() && old(self).ty(i) is Lever && i != old(self).lever_gate(lever)
                implies self.states()[i] == old(self).states()[i] by {
                assert(mid.ty(i) is Lever);
            }
        }
        r
    }

    /// Flips lever `lever` and runs until stable, see
    /// [set_lever_stable](InitializedGateGraph::set_lever_stable).
    pub fn flip_lever_stable(&mut self, lever: LeverHandle) -> (r: Result<usize, &'static str>)
        requires
            old(self).wf(),
            lever.handle < old(self).levers().len(),
        ensures
            final(self).wf(),
            final(self).same_structure(old(self)),
            final(self).states()[old(self).lever_gate(lever)] == !old(self).states()[old(self).lever_gate(lever)],
            r matches Ok(n) ==> n < 10 && final(self).is_stable(),
            r is Ok && final(self).dependents_complete() ==> final(self).is_consistent(),
            forall|i: int| 0 <= i < old(self).num_gates() && old(self).ty(i) is Lever && i != old(self).lever_gate(lever)
                ==> final(self).states()[i] == old(self).states()[i],
            exists|mid: Self| Self::lever_updated(*old(self), mid, old(self).lever_gate(lever),
                !old(self).states()[old(self).lever_gate(lever)]) && #[trigger] Self::ran_until(mid, *final(self), r),
    {
        self.flip_lever(lever);
        let ghost mid = *self;
        let r = self.run_until_stable(10);
        proof {
            assert(Self::ran_until(mid, *self, r));
            assert(handles_ok(old(self).gates(), old(self).levers(), old(self).output_list()));
            assert(mid.ty(old(self).lever_gate(lever)) is Lever);
            assert forall|i: int| 0 <= i < old(self).num_gates() && old(self).ty(i) is Lever && i != old(self).lever_gate(lever)
                implies self.states()[i] == old(self).states()[i] by {
                assert(mid.ty(i) is Lever);
            }
        }
        r
    }

    /// Sets lever `lever` to true, runs until stable, sets it to false and runs until stable.
    /// Returns the first error of the two runs, or the number of ticks of the second.
    pub fn pulse_lever_stable(&mut self, lever: LeverHandle) -> (r: Result<usize, &'static str>)
        requires
            old(self).wf(),
            lever.handle < old(self).levers().len(),
        ensures
            final(self).wf(),
            final(self).same_structure(old(self)),
            !final(self).states()[old(self).lever_gate(lever)],
            r matches Ok(n) ==> n < 10 && final(self).is_stable(),
            r is Ok && final(self).dependents_complete() ==> final(self).is_consistent(),
            forall|i: int| 0 <= i < old(self).num_gates() && old(self).ty(i) is Lever && i != old(self).lever_gate(lever)
                ==> final(self).states()[i] == old(self).states()[i],
            exists|s: Seq<Self>, rs: Seq<Result<usize, &'static str>>| #[trigger] Self::pulsed(*old(self), s, rs,
                old(self).lever_gate(lever), *final(self), r),
    {
        self.set_lever(lever);
        let ghost s1 = *self;
        let first = self.run_until_stable(10);
        let ghost s2 = *self;
        self.reset_lever(lever);
        let ghost mid = *self;
        let second = self.run_until_stable(10);
        proof {
            assert(Self::pulsed(*old(self), seq![s1, s2, mid], seq![first, second], old(self).lever_gate(lever), *self,
                match first {
                    Err(e) => Err(e),
                    Ok(_) => second,
                }));
            assert(handles_ok(old(self).gates(), old(self).levers(), old(self).output_list()));
            assert(mid.ty(old(self).lever_gate(lever)) is Lever);
            assert forall|i: int| 0 <= i < old(self).num_gates() && old(self).ty(i) is Lever && i != old(self).lever_gate(lever)
                implies self.states()[i] == old(self).states()[i] by {
                assert(s1.ty(i) is Lever);
                assert(s2.ty(i) is Lever);
                assert(mid.ty(i) is Lever);
            }
        }
        match first {
            Err(e) => Err(e),
            Ok(_) => second,
        }
    }

    /// Returns the state of gate `idx`.
    pub fn value(&self, idx: GateIndex) -> (r: bool)
        requires
            self.wf(),
            idx@ < self.num_gates(),
        ensures
            r == self.states()[idx@ as int],
    {
        self.state.get_state(idx.idx)
    }

    /// Returns the number of gates in the graph.
    pub fn len(&self) -> (r: usize)
        ensures
            r == self.num_gates(),
    {
        self.nodes.get().len()
    }

    /// Returns the number of levers.
    pub fn num_levers(&self) -> (r: usize)
        ensures
            r == self.levers().len(),
    {
        self.lever_handles.get().len()
    }

    /// Returns the number of outputs.
    pub fn num_outputs(&self) -> (r: usize)
        ensures
            r == self.output_list().len(),
    {
        self.output_handles.get().len()
    }

    /// In every well formed graph, whatever has happened to it, `OFF` reads false and `ON`
    /// reads true.
    pub proof fn law_constants(&self)
        requires
            self.wf(),
        ensures
            self.states().len() >= 2,
            !self.states()[0],
            self.states()[1],
    {
        self.state.lemma_lengths();
    }

    /// Every lever of a well formed graph sits at a gate of type Lever of the graph.
    pub proof fn lemma_lever_gate(&self, h: LeverHandle)
        requires
            self.wf(),
            h.handle < self.levers().len(),
        ensures
            0 <= self.lever_gate(h) < self.num_gates(),
            self.ty(self.lever_gate(h)) is Lever,
    {
        assert(handles_ok(self.gates(), self.levers(), self.output_list()));
        assert(self.levers()[h.handle as int]@ < self.gates().len());
    }

    /// The gates of every output of a well formed graph are gates of the graph.
    pub proof fn lemma_output_bits(&self, h: int)
        requires
            self.wf(),
            0 <= h < self.output_list().len(),
        ensures
            forall|b: int| 0 <= b < self.output_list()[h].bits@.len()
                ==> #[trigger] self.output_list()[h].bits@[b]@ < self.num_gates(),
    {
        assert forall|b: int| 0 <= b < self.output_list()[h].bits@.len()
            implies #[trigger] self.output_list()[h].bits@[b]@ < self.num_gates() by {
            assert(self.output_list()[h].bits@[b]@ < self.gates().len());
        }
    }

    /// Returns the output group of `handle`.
    pub fn get_output_handle(&self, handle: CircuitOutputHandle) -> (r: &CircuitOutput)
        requires
            handle.0 < self.output_list().len(),
        ensures
            *r == self.output_list()[handle.0 as int],
    {
        &self.output_handles.get()[handle.0]
    }

    /// Returns true if gate `idx` belongs to an output.
    pub fn is_output(&self, idx: usize) -> (r: bool)
        ensures
            r == self.output_set().contains(idx),
    {
        self.outputs.get().contains(&idx)
    }

    /// Returns the type of gate `idx`.
    pub fn gate_type(&self, idx: usize) -> (r: GateType)
        requires
            idx < self.num_gates(),
        ensures
            r == self.ty(idx as int),
    {
        self.nodes.get()[idx].ty
    }

    /// Returns the dependencies of gate `idx`, in order.
    pub fn dependencies(&self, idx: usize) -> (r: Vec<usize>)
        requires
            idx < self.num_gates(),
        ensures
            r@ == self.deps(idx as int),
    {
        let deps = &self.nodes.get()[idx].dependencies;
        let n = edge_list_len(deps);
        let mut r: Vec<usize> = Vec::new();
        let mut i: usize = 0;
        while i < n
            invariant
                n == edge_list_items(*deps).len(),
                *deps == self.gates()[idx as int].dependencies,
                i <= n,
                r@ == edge_list_items(*deps).subrange(0, i as int),
            decreases n - i,
        {
            r.push(edge_list_get(deps, i));
            i = i + 1;
            proof {
                assert(r@ =~= edge_list_items(*deps).subrange(0, i as int));
            }
        }
        proof {
            assert(r@ =~= edge_list_items(*deps));
        }
        r
    }

    /// The states of `outputs`, in order.
    pub open spec fn states_of(&self, outputs: Seq<GateIndex>) -> Seq<bool> {
        outputs.map_values(|b: GateIndex| self.states()[b@ as int])
    }

    /// The number whose binary digits, least significant first, are the states of the first
    /// `width` gates of `outputs`.
    pub open spec fn word_value(&self, outputs: Seq<GateIndex>, width: nat) -> nat {
        let n = if outputs.len() < width { outputs.len() } else { width };
        bits_value(self.states_of(outputs).subrange(0, n as int))
    }

    /// Returns the number whose binary digits, least significant first, are the states of the
    /// first `width` gates of `outputs` (at most 128).
    fn collect_bits(&self, outputs: &[GateIndex], width: usize) -> (r: u128)
        requires
            self.wf(),
            width <= 128,
            forall|k: int| 0 <= k < outputs@.len() ==> #[trigger] outputs@[k]@ < self.num_gates(),
        ensures
            r == self.word_value(outputs@, width as nat),
            r < bit_weight(width as nat),
    {
        let n = if outputs.len() < width { outputs.len() } else { width };
        let ghost s = self.states_of(outputs@);
        let mut output: u128 = 0;
        let mut mask: u128 = 1;
        let mut i: usize = 0;
        proof {
            lemma_bits_value_bound(s.subrange(0, n as int));
            lemma_weight_monotone(n as nat, 128);
            assert(s.subrange(0, 0) =~= Seq::<bool>::empty());
        }
        while i < n
            invariant
                self.wf(),
                n <= outputs@.len(),
                n <= width <= 128,
                i <= n,
                s == self.states_of(outputs@),
                forall|k: int| 0 <= k < outputs@.len() ==> #[trigger] outputs@[k]@ < self.num_gates(),
                output == bits_value(s.subrange(0, i as int)),
                i < n ==> mask == bit_weight(i as nat),
                bit_weight(n as nat) <= bit_weight(128),
            decreases n - i,
        {
            proof {
                assert(s.subrange(0, i + 1).drop_last() =~= s.subrange(0, i as int));
                lemma_bits_value_bound(s.subrange(0, i as int));
                lemma_weight_monotone((i + 1) as nat, n as nat);
                lemma_weight_values();
            }
            proof {
                assert(outputs@[i as int]@ < self.num_gates());
                assert(self.wf_core());
            }
            if self.state.get_state(outputs[i].idx) {
                output = output + mask;
            }
            if i + 1 < n {
                proof {
                    lemma_weight_monotone((i + 1) as nat, 127);
                    lemma_weight_values();
                    assert(bit_weight(128) == 2 * bit_weight(127));
                }
                mask = mask * 2;
            }
            i = i + 1;
        }
        proof {
            lemma_bits_value_bound(s.subrange(0, n as int));
            lemma_weight_monotone(n as nat, width as nat);
        }
        output
    }

    /// Returns the number whose binary digits, least significant first, are the states of the
    /// first 8 gates of `outputs`; further gates are ignored.
    pub fn collect_u8_lossy(&self, outputs: &[GateIndex]) -> (r: u8)
        requires
            self.wf(),
            forall|k: int| 0 <= k < outputs@.len() ==> #[trigger] outputs@[k]@ < self.num_gates(),
        ensures
            r == self.word_value(outputs@, 8),
    {
        let r = self.collect_bits(outputs, 8);
        proof {
            lemma_weight_values();
        }
        r as u8
    }

    /// Returns the collected `u8` of `outputs` reinterpreted as a signed number, see
    /// [collect_u8_lossy](InitializedGateGraph::collect_u8_lossy).
    pub fn collect_i8_lossy(&self, outputs: &[GateIndex]) -> (r: i8)
        requires
            self.wf(),
            forall|k: int| 0 <= k < outputs@.len() ==> #[trigger] outputs@[k]@ < self.num_gates(),
        ensures
            r == self.word_value(outputs@, 8) as u8 as i8,
    {
        self.collect_u8_lossy(outputs) as i8
    }

    /// Returns the number whose binary digits, least significant first, are the states of the
    /// first 16 gates of `outputs`; further gates are ignored.
    pub fn collect_u16_lossy(&self, outputs: &[GateIndex]) -> (r: u16)
        requires
            self.wf(),
            forall|k: int| 0 <= k < outputs@.len() ==> #[trigger] outputs@[k]@ < self.num_gates(),
        ensures
            r == self.word_value(outputs@, 16),
    {
        let r = self.collect_bits(outputs, 16);
        proof {
            lemma_weight_values();
        }
        r as u16
    }

    /// Returns the collected `u16` of `outputs` reinterpreted as a signed number, see
    /// [collect_u16_lossy](InitializedGateGraph::collect_u16_lossy).
    pub fn collect_i16_lossy(&self, outputs: &[GateIndex]) -> (r: i16)
        requires
            self.wf(),
            forall|k: int| 0 <= k < outputs@.len() ==> #[trigger] outputs@[k]@ < self.num_gates(),
        ensures
            r == self.word_value(outputs@, 16) as u16 as i16,
    {
        self.collect_u16_lossy(outputs) as i16
    }

    /// Returns the number whose binary digits, least significant first, are the states of the
    /// first 32 gates of `outputs`; further gates are ignored.
    pub fn collect_u32_lossy(&self, outputs: &[GateIndex]) -> (r: u32)
        requires
            self.wf(),
            forall|k: int| 0 <= k < outputs@.len() ==> #[trigger] outputs@[k]@ < self.num_gates(),
        ensures
            r == self.word_value(outputs@, 32),
    {
        let r = self.collect_bits(outputs, 32);
        proof {
            lemma_weight_values();
        }
        r as u32
    }

    /// Returns the collected `u32` of `outputs` reinterpreted as a signed number, see
    /// [collect_u32_lossy](InitializedGateGraph::collect_u32_lossy).
    pub fn collect_i32_lossy(&self, outputs: &[GateIndex]) -> (r: i32)
        requires
            self.wf(),
            forall|k: int| 0 <= k < outputs@.len() ==> #[trigger] outputs@[k]@ < self.num_gates(),
        ensures
            r == self.word_value(outputs@, 32) as u32 as i32,
    {
        self.collect_u32_lossy(outputs) as i32
    }

    /// Returns the number whose binary digits, least significant first, are the states of the
    /// first 64 gates of `outputs`; further gates are ignored.
    pub fn collect_u64_lossy(&self, outputs: &[GateIndex]) -> (r: u64)
        requires
            self.wf(),
            forall|k: int| 0 <= k < outputs@.len() ==> #[trigger] outputs@[k]@ < self.num_gates(),
        ensures
            r == self.word_value(outputs@, 64),
    {
        let r = self.collect_bits(outputs, 64);
        proof {
            lemma_weight_values();
        }
        r as u64
    }

    /// Returns the collected `u64` of `outputs` reinterpreted as a signed number, see
    /// [collect_u64_lossy](InitializedGateGraph::collect_u64_lossy).
    pub fn collect_i64_lossy(&self, outputs: &[GateIndex]) -> (r: i64)
        requires
            self.wf(),
            forall|k: int| 0 <= k < outputs@.len() ==> #[trigger] outputs@[k]@ < self.num_gates(),
        ensures
            r == self.word_value(outputs@, 64) as u64 as i64,
    {
        self.collect_u64_lossy(outputs) as i64
    }

    /// Returns the number whose binary digits, least significant first, are the states of the
    /// first 128 gates of `outputs`; further gates are ignored.
    pub fn collect_u128_lossy(&self, outputs: &[GateIndex]) -> (r: u128)
        requires
            self.wf(),
            forall|k: int| 0 <= k < outputs@.len() ==> #[trigger] outputs@[k]@ < self.num_gates(),
        ensures
            r == self.word_value(outputs@, 128),
    {
        let r = self.collect_bits(outputs, 128);
        proof {
            lemma_weight_values();
        }
        r as u128
    }

    /// Returns the collected `u128` of `outputs` reinterpreted as a signed number, see
    /// [collect_u128_lossy](InitializedGateGraph::collect_u128_lossy).
    pub fn collect_i128_lossy(&self, outputs: &[GateIndex]) -> (r: i128)
        requires
            self.wf(),
            forall|k: int| 0 <= k < outputs@.len() ==> #[trigger] outputs@[k]@ < self.num_gates(),
        ensures
            r == self.word_value(outputs@, 128) as u128 as i128,
    {
        self.collect_u128_lossy(outputs) as i128
    }

    /// Returns the collected `u8` of `outputs` as a character, see
    /// [collect_u8_lossy](InitializedGateGraph::collect_u8_lossy).
    pub fn collect_char_lossy(&self, outputs: &[GateIndex]) -> (r: char)
        requires
            self.wf(),
            forall|k: int| 0 <= k < outputs@.len() ==> #[trigger] outputs@[k]@ < self.num_gates(),
        ensures
            r == self.word_value(outputs@, 8) as u8 as char,
    {
        self.collect_u8_lossy(outputs) as char
    }
}

/// `bit_weight` is `pow2`.
pub proof fn lemma_weight_is_pow2(n: nat)
    ensures
        bit_weight(n) == vstd::arithmetic::power2::pow2(n),
    decreases n,
{
    vstd::arithmetic::power2::lemma2_to64();
    if n > 0 {
        lemma_weight_is_pow2((n - 1) as nat);
        vstd::arithmetic::power2::lemma_pow2_unfold(n);
    }
}

/// The powers of two that bound the words of each width.
pub proof fn lemma_weight_values()
    ensures
        bit_weight(8) == 0x100,
        bit_weight(16) == 0x1_0000,
        bit_weight(32) == 0x1_0000_0000,
        bit_weight(64) == 0x1_0000_0000_0000_0000,
        bit_weight(128) == 0x1_0000_0000_0000_0000_0000_0000_0000_0000,
{
    vstd::arithmetic::power2::lemma2_to64();
    lemma_weight_is_pow2(8);
    lemma_weight_is_pow2(16);
    lemma_weight_is_pow2(32);
    lemma_weight_is_pow2(64);
    lemma_weight_is_pow2(128);
    vstd::arithmetic::power2::lemma_pow2_adds(64, 64);
}

/// Powers of two grow with the exponent.
pub proof fn lemma_weight_monotone(a: nat, b: nat)
    requires
        a <= b,
    ensures
        bit_weight(a) <= bit_weight(b),
    decreases b - a,
{
    if a < b {
        lemma_weight_monotone(a, (b - 1) as nat);
    }
}

} // verus!
