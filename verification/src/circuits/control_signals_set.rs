use crate::circuits::wire::{wiring_added, Wire};
use crate::graph::gate::GateIndex;
use crate::graph::graph_builder::GateGraphBuilder;
use vstd::prelude::*;

verus! {

/// The position of the first of `names` equal to `name`, or -1 if there is none.
pub open spec fn position(names: Seq<Seq<char>>, name: Seq<char>) -> int
    decreases names.len(),
{
    if names.len() == 0 {
        -1
    } else {
        let p = position(names.drop_last(), name);
        if p >= 0 { p } else if names.last() == name { names.len() - 1 } else { -1 }
    }
}

/// The word with bit `p` set for each position `p` of `positions` (each below 64).
pub open spec fn bits_of(positions: Seq<int>) -> u64
    decreases positions.len(),
{
    if positions.len() == 0 {
        0
    } else {
        bits_of(positions.drop_last()) | (1u64 << (positions.last() as u64))
    }
}

/// A named set of control signals: one [Wire] per signal, found by the signal's name.
pub struct ControlSignalSet {
    names: Vec<String>,
    signals: Vec<Wire>,
}

impl ControlSignalSet {
    /// The names of the signals, in order.
    pub closed spec fn signal_names(&self) -> Seq<Seq<char>> {
        self.names@.map_values(|n: String| n@)
    }

    /// The wires of the signals, in order.
    pub closed spec fn wires(&self) -> Seq<Wire> {
        self.signals@
    }

    /// True if every wire of the set belongs to `g` and there is one per name.
    pub open spec fn wf_in(&self, g: &GateGraphBuilder) -> bool {
        &&& self.wires().len() == self.signal_names().len()
        &&& forall|k: int| 0 <= k < self.wires().len() ==> (#[trigger] self.wires()[k]).wf_in(g)
    }

    /// Returns a new set with one wire, named `name`, per name of `signal_names`.
    pub fn new(g: &mut GateGraphBuilder, name: &str, signal_names: &[&str]) -> (r: ControlSignalSet)
        requires
            old(g).wf(),
        ensures
            final(g).grows_from(old(g)),
            final(g).levers() == old(g).levers(),
            r.signal_names() == signal_names@.map_values(|n: &str| n@),
            r.wf_in(final(g)),
    {
        proof {
            g.lemma_grows_refl();
        }
        let mut names: Vec<String> = Vec::new();
        let mut signals: Vec<Wire> = Vec::new();
        let mut k: usize = 0;
        while k < signal_names.len()
            invariant
                g.grows_from(old(g)),
                g.levers() == old(g).levers(),
                k <= signal_names@.len(),
                names@.len() == k,
                signals@.len() == k,
                forall|j: int| 0 <= j < k ==> #[trigger] names@[j]@ == signal_names@[j]@,
                forall|j: int| 0 <= j < k ==> (#[trigger] signals@[j]).wf_in(g),
            decreases signal_names@.len() - k,
        {
            let ghost before = *g;
            let ghost prev = signals@;
            let ghost prev_names = names@;
            let wire = Wire::new(g, name);
            signals.push(wire);
            names.push(signal_names[k].to_owned());
            proof {
                GateGraphBuilder::lemma_grows_trans(old(g), &before, g);
                assert forall|j: int| 0 <= j < k + 1 implies (#[trigger] signals@[j]).wf_in(g) by {
                    if j < k {
                        assert(signals@[j] == prev[j]);
                        assert(g.ty(prev[j].gate()@ as int) == before.ty(prev[j].gate()@ as int));
                    }
                }
                assert forall|j: int| 0 <= j < k + 1 implies #[trigger] names@[j]@ == signal_names@[j]@ by {
                    if j < k { assert(names@[j] == prev_names[j]); }
                }
            }
            k = k + 1;
        }
        let r = ControlSignalSet { names, signals };
        proof {
            assert(r.signal_names() =~= signal_names@.map_values(|n: &str| n@));
        }
        r
    }

    /// Returns the number of signals.
    pub fn len(&self) -> (r: usize)
        ensures
            r == self.signal_names().len(),
    {
        self.names.len()
    }

    /// Returns the position of the first signal named `name`, if there is one.
    pub fn signal_index(&self, name: &str) -> (r: Option<usize>)
        ensures
            r matches Some(p) ==> p == position(self.signal_names(), name@),
            r is None <==> position(self.signal_names(), name@) < 0,
    {
        let wanted = name.to_owned();
        let mut k: usize = 0;
        while k < self.names.len()
            invariant
                k <= self.signal_names().len(),
                wanted@ == name@,
                position(self.signal_names().subrange(0, k as int), name@) < 0,
            decreases self.signal_names().len() - k,
        {
            proof {
                assert(self.signal_names().subrange(0, k + 1).drop_last() =~= self.signal_names().subrange(0, k as int));
            }
            if self.names[k] == wanted {
                proof {
                    lemma_position_prefix(self.signal_names(), name@, (k + 1) as int);
                }
                return Some(k);
            }
            k = k + 1;
        }
        proof {
            assert(self.signal_names().subrange(0, k as int) =~= self.signal_names());
        }
        None
    }

    /// Returns the wire of the first signal named `name`, if there is one.
    pub fn signal(&self, name: &str) -> (r: Option<&Wire>)
        requires
            self.wires().len() == self.signal_names().len(),
        ensures
            r matches Some(w) ==> *w == self.wires()[position(self.signal_names(), name@)],
            r is None <==> position(self.signal_names(), name@) < 0,
    {
        proof {
            lemma_position_bound(self.signal_names(), name@);
        }
        match self.signal_index(name) {
            Some(p) => Some(&self.signals[p]),
            None => None,
        }
    }

    /// Connects `input` to the signals, one gate per signal, in order.
    pub fn connect(&mut self, g: &mut GateGraphBuilder, input: &[GateIndex])
        requires
            old(g).wf(),
            old(self).wf_in(old(g)),
            old(g).all_in(input@),
            input@.len() == old(self).signal_names().len(),
        ensures
            final(g).grows_from(old(g)),
            final(g).num_slots() == old(g).num_slots(),
            final(g).levers() == old(g).levers(),
            *final(self) == *old(self),
            forall|j: int| 0 <= j < old(g).num_slots() ==> #[trigger] final(g).deps(j)
                == old(g).deps(j) + wiring_added(old(self).wires(), input@, j, input@.len() as int),
    {
        proof {
            g.lemma_grows_refl();
        }
        let mut k: usize = 0;
        while k < self.signals.len()
            invariant
                g.grows_from(old(g)),
                g.num_slots() == old(g).num_slots(),
                g.levers() == old(g).levers(),
                *self == *old(self),
                self.wf_in(old(g)),
                old(g).all_in(input@),
                input@.len() == self.signal_names().len(),
                k <= self.wires().len(),
                forall|j: int| 0 <= j < old(g).num_slots() ==> #[trigger] g.deps(j)
                    == old(g).deps(j) + wiring_added(self.wires(), input@, j, k as int),
            decreases self.wires().len() - k,
        {
            let ghost before = *g;
            proof {
                let w = self.wires()[k as int];
                assert(w.wf_in(old(g)));
                assert(g.ty(w.gate()@ as int) == old(g).ty(w.gate()@ as int));
            }
            self.signals[k].connect(g, input[k]);
            proof {
                GateGraphBuilder::lemma_grows_trans(old(g), &before, g);
                assert forall|j: int| 0 <= j < old(g).num_slots() implies #[trigger] g.deps(j)
                    == old(g).deps(j) + wiring_added(self.wires(), input@, j, k + 1) by {
                    let prev = wiring_added(self.wires(), input@, j, k as int);
                    assert(before.deps(j) == old(g).deps(j) + prev);
                    if self.wires()[k as int].gate()@ == j {
                        assert((old(g).deps(j) + prev).push(input@[k as int]@) =~= old(g).deps(j) + prev.push(input@[k as int]@));
                    }
                }
            }
            k = k + 1;
        }
    }

    /// Returns the word with bit `p` set for the position `p` of each signal of `names`; `None`
    /// if one of them is not in the set or is at position 64 or later.
    pub fn signals_to_bits(&self, names: &[&str]) -> (r: Option<u64>)
        ensures
            r is Some <==> forall|k: int| 0 <= k < names@.len()
                ==> 0 <= #[trigger] position(self.signal_names(), names@[k]@) < 64,
            r matches Some(bits) ==> bits == bits_of(names@.map_values(|n: &str| position(self.signal_names(), n@))),
    {
        let ghost positions = names@.map_values(|n: &str| position(self.signal_names(), n@));
        let mut bits: u64 = 0;
        let mut k: usize = 0;
        while k < names.len()
            invariant
                k <= names@.len(),
                positions == names@.map_values(|n: &str| position(self.signal_names(), n@)),
                forall|j: int| 0 <= j < k ==> 0 <= #[trigger] position(self.signal_names(), names@[j]@) < 64,
                bits == bits_of(positions.subrange(0, k as int)),
            decreases names@.len() - k,
        {
            match self.signal_index(names[k]) {
                None => {
                    return None;
                },
                Some(p) => {
                    if p >= 64 {
                        return None;
                    }
                    proof {
                        assert(positions.subrange(0, k + 1).drop_last() =~= positions.subrange(0, k as int));
                        assert(positions[k as int] == p);
                    }
                    bits = bits | (1u64 << (p as u64));
                },
            }
            k = k + 1;
        }
        proof {
            assert(positions.subrange(0, k as int) =~= positions);
        }
        Some(bits)
    }
}

/// A position is that of one of the names, or -1.
proof fn lemma_position_bound(names: Seq<Seq<char>>, name: Seq<char>)
    ensures
        -1 <= position(names, name) < names.len(),
        position(names, name) >= 0 ==> names[position(names, name)] == name,
    decreases names.len(),
{
    if names.len() > 0 {
        lemma_position_bound(names.drop_last(), name);
    }
}

/// The first `n` names decide the position of a name found among them.
proof fn lemma_position_prefix(names: Seq<Seq<char>>, name: Seq<char>, n: int)
    requires
        0 < n <= names.len(),
        names[n - 1] == name,
        position(names.subrange(0, n - 1), name) < 0,
    ensures
        position(names, name) == n - 1,
    decreases names.len(),
{
    if names.len() == n {
        assert(names.drop_last() =~= names.subrange(0, n - 1));
    } else {
        assert(names.drop_last().subrange(0, n - 1) =~= names.subrange(0, n - 1));
        assert(names.drop_last()[n - 1] == names[n - 1]);
        lemma_position_prefix(names.drop_last(), name, n);
    }
}

} // verus!
