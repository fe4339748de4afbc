use crate::graph::edges::sorted;
use crate::graph::gate::{GateIndex, GateType};
use crate::graph::graph_builder::GateGraphBuilder;
use crate::graph::initialized_graph::{count_false, lemma_count_false_update};
use crate::graph::optimizations::dead_code_elimination::{dead_code_elimination_pass, is_dead};
use crate::graph::optimizations::equal_gate_merging::cleaned;
use crate::graph::optimizations::settling::{lemma_eval_all_index, lemma_set_insert_keeps, ranked, readers_listed};
use crate::graph::optimizations::single_dependency_collapsing::swapped;
use std::collections::hash_map::DefaultHasher;
use std::collections::{HashMap, VecDeque};
use std::hash::Hasher;
use vstd::prelude::*;
use vstd::std_specs::hash::DefaultHasherAdditionalSpecFns;

verus! {

broadcast use vstd::std_specs::hash::group_hash_axioms;

/// The eight bytes of `x`, from the lowest to the highest.
pub open spec fn le_bytes(x: u64) -> Seq<u8> {
    seq![
        (x & 0xffu64) as u8,
        ((x >> 8u64) & 0xffu64) as u8,
        ((x >> 16u64) & 0xffu64) as u8,
        ((x >> 24u64) & 0xffu64) as u8,
        ((x >> 32u64) & 0xffu64) as u8,
        ((x >> 40u64) & 0xffu64) as u8,
        ((x >> 48u64) & 0xffu64) as u8,
        ((x >> 56u64) & 0xffu64) as u8,
    ]
}

/// Feeds the bytes of `x` (see [le_bytes]) to `hasher` in one write.
fn write_u64(hasher: &mut DefaultHasher, x: u64)
    ensures
        final(hasher)@ == old(hasher)@.push(le_bytes(x)),
{
    let mut b: Vec<u8> = Vec::new();
    b.push((x & 0xffu64) as u8);
    b.push(((x >> 8u64) & 0xffu64) as u8);
    b.push(((x >> 16u64) & 0xffu64) as u8);
    b.push(((x >> 24u64) & 0xffu64) as u8);
    b.push(((x >> 32u64) & 0xffu64) as u8);
    b.push(((x >> 40u64) & 0xffu64) as u8);
    b.push(((x >> 48u64) & 0xffu64) as u8);
    b.push(((x >> 56u64) & 0xffu64) as u8);
    proof {
        assert(b@ =~= le_bytes(x));
    }
    hasher.write(b.as_slice());
}

/// The writes that hash an expression: the operation's number, then each dependency number.
pub open spec fn hash_input(op_hash: u64, dep_nums: Seq<usize>) -> Seq<Seq<u8>> {
    seq![le_bytes(op_hash)] + dep_nums.map_values(|d: usize| le_bytes(d as u64))
}

/// The hash of an expression: what std's `DefaultHasher` makes of its writes (see
/// [hash_input]). The function is std's and is not known, but it is the same for every
/// hasher made by `DefaultHasher::new`.
pub open spec fn expression_hash(op_hash: u64, dep_nums: Seq<usize>) -> u64 {
    DefaultHasher::spec_finish(hash_input(op_hash, dep_nums))
}

/// The number of each gate type, in declaration order.
pub open spec fn type_number_spec(ty: GateType) -> u64 {
    match ty {
        GateType::Off => 0,
        GateType::On => 1,
        GateType::Lever => 2,
        GateType::Xor => 3,
        GateType::Xnor => 4,
        GateType::Not => 5,
        GateType::Or => 6,
        GateType::And => 7,
        GateType::Nand => 8,
        GateType::Nor => 9,
    }
}

/// Gate types are told apart by their numbers: two different types have different numbers,
/// each below ten, and two gates of different types that are neither levers nor constants
/// stand for different numbers in their expressions (see [op_hash]), whatever the offset.
pub proof fn law_type_numbers_distinct(t1: GateType, t2: GateType, offset: u64, x1: usize, x2: usize)
    requires
        t1 != t2,
    ensures
        type_number_spec(t1) != type_number_spec(t2),
        type_number_spec(t1) < 10,
        !(t1 is Lever) && !(t2 is Lever) && x1 >= 2 && x2 >= 2 ==> op_hash(t1, offset, x1) != op_hash(t2, offset, x2),
{
}

/// Returns the number of `ty`, its place in the declaration of [GateType].
pub fn type_number(ty: GateType) -> (r: u64)
    ensures
        r == type_number_spec(ty),
{
    match ty {
        GateType::Off => 0,
        GateType::On => 1,
        GateType::Lever => 2,
        GateType::Xor => 3,
        GateType::Xnor => 4,
        GateType::Not => 5,
        GateType::Or => 6,
        GateType::And => 7,
        GateType::Nand => 8,
        GateType::Nor => 9,
    }
}

/// The number that stands for the operation of gate `x` of type `op` in its expression:
/// levers and constants stand for themselves, other gates for their type, offset past the
/// gate indexes.
pub open spec fn op_hash(op: GateType, offset: u64, x: usize) -> u64 {
    if op is Lever || x < 2 {
        x as u64
    } else {
        vstd::wrapping::u64_specs::wrapping_add(type_number_spec(op), offset)
    }
}

/// Returns the hash of the expression of gate `x`, of type `op`, whose dependencies have the
/// value numbers `dep_nums` (see [expression_hash]).
fn hash_expression(op: GateType, op_hash_offset: u64, dep_nums: &Vec<usize>, x: usize) -> (h: u64)
    ensures
        h == expression_hash(op_hash(op, op_hash_offset, x), dep_nums@),
{
    let op_number = if matches!(op, GateType::Lever) || x < 2 {
        x as u64
    } else {
        type_number(op).wrapping_add(op_hash_offset)
    };
    let mut hasher = DefaultHasher::new();
    write_u64(&mut hasher, op_number);
    let mut k: usize = 0;
    while k < dep_nums.len()
        invariant
            k <= dep_nums@.len(),
            hasher@ == hash_input(op_number, dep_nums@.take(k as int)),
        decreases dep_nums@.len() - k,
    {
        write_u64(&mut hasher, dep_nums[k] as u64);
        proof {
            assert(hash_input(op_number, dep_nums@.take(k + 1)) =~= hash_input(op_number, dep_nums@.take(k as int))
                .push(le_bytes(dep_nums@[k as int] as u64)));
        }
        k = k + 1;
    }
    proof {
        assert(dep_nums@.take(dep_nums@.len() as int) =~= dep_nums@);
    }
    hasher.finish()
}

/// Looks up the expression hash `h` in `table`: returns what is recorded for it, or records
/// `x` for it and returns `x`.
pub fn lookup_hash(h: u64, x: usize, table: &mut HashMap<u64, usize>) -> (r: usize)
    ensures
        r == (if old(table)@.dom().contains(h) { old(table)@[h] } else { x }),
        final(table)@ == (if old(table)@.dom().contains(h) { old(table)@ } else { old(table)@.insert(h, x) }),
{
    match table.get(&h) {
        Some(i) => *i,
        None => {
            table.insert(h, x);
            x
        },
    }
}

/// True if every value number in `numbers` names a slot of a graph of `n` slots.
pub open spec fn numbers_ok(numbers: Seq<Option<usize>>, n: nat) -> bool {
    &&& numbers.len() == n
    &&& forall|k: int| 0 <= k < numbers.len() && (#[trigger] numbers[k]) is Some ==> numbers[k].unwrap() < n
}

/// Returns a vector of `n` copies of `v`.
fn filled<T: Copy>(n: usize, v: T) -> (r: Vec<T>)
    ensures
        r@.len() == n,
        forall|k: int| 0 <= k < n ==> #[trigger] r@[k] == v,
{
    let mut r: Vec<T> = Vec::new();
    let mut k: usize = 0;
    while k < n
        invariant
            k <= n,
            r@.len() == k,
            forall|j: int| 0 <= j < k ==> #[trigger] r@[j] == v,
        decreases n - k,
    {
        r.push(v);
        k = k + 1;
    }
    r
}

/// The value numbers of the gates `ds` that have one, in order.
pub open spec fn dep_numbers(numbers: Seq<Option<usize>>, ds: Seq<usize>) -> Seq<usize>
    decreases ds.len(),
{
    if ds.len() == 0 {
        Seq::empty()
    } else {
        let rest = dep_numbers(numbers, ds.drop_last());
        match numbers[ds.last() as int] {
            Some(v) => rest.push(v),
            None => rest,
        }
    }
}

/// True if `b` is `a` with the dependencies of gate `x` sorted: the same ones, in increasing
/// order, and nothing else changed.
pub open spec fn deps_sorted(a: &GateGraphBuilder, b: &GateGraphBuilder, x: int) -> bool {
    &&& b.same_except(a, x)
    &&& b.ty(x) == a.ty(x)
    &&& sorted(b.deps(x))
    &&& b.deps(x).to_multiset() == a.deps(x).to_multiset()
    &&& b.dependents(x) == a.dependents(x)
}

/// One step of a numbering round on the state (graph, value numbers, visited gates, work
/// queue, hash table, nothing changed yet). The first gate of the queue is taken off it; a gate
/// visited already is skipped; a gate that is gone is only marked visited. Any other is marked
/// visited, its dependencies are sorted, its expression (its operation and the numbers of its
/// dependencies, see [op_hash] and [dep_numbers]) is hashed (see [expression_hash]) and
/// looked up: what is recorded for that hash, or `x` itself (then recorded), is its new
/// value number; and its dependents join the end of the queue.
pub open spec fn number_step(
    a: (GateGraphBuilder, Seq<Option<usize>>, Seq<bool>, Seq<usize>, Map<u64, usize>, bool),
    b: (GateGraphBuilder, Seq<Option<usize>>, Seq<bool>, Seq<usize>, Map<u64, usize>, bool),
    offset: u64,
) -> bool {
    let x = a.3[0];
    let rest = a.3.drop_first();
    &&& a.3.len() > 0
    &&& if a.2[x as int] {
        b == (a.0, a.1, a.2, rest, a.4, a.5)
    } else if !a.0.has(x as int) {
        b == (a.0, a.1, a.2.update(x as int, true), rest, a.4, a.5)
    } else {
        let h = expression_hash(op_hash(a.0.ty(x as int), offset, x), dep_numbers(a.1, b.0.deps(x as int)));
        let t = if a.4.dom().contains(h) { a.4[h] } else { x };
        &&& deps_sorted(&a.0, &b.0, x as int)
        &&& b.4 == (if a.4.dom().contains(h) { a.4 } else { a.4.insert(h, x) })
        &&& b.1 == (if a.1[x as int] != Some(t) { a.1.update(x as int, Some(t)) } else { a.1 })
        &&& b.5 == (a.5 && a.1[x as int] == Some(t))
        &&& b.2 == a.2.update(x as int, true)
        &&& b.3 == rest + b.0.dependents(x as int)
    }
}

/// True if each state of `trace` follows the one before it by a [number_step].
pub open spec fn number_run(
    trace: Seq<(GateGraphBuilder, Seq<Option<usize>>, Seq<bool>, Seq<usize>, Map<u64, usize>, bool)>,
    offset: u64,
) -> bool {
    &&& trace.len() >= 1
    &&& forall|k: int| 0 <= k < trace.len() - 1 ==> #[trigger] number_step(trace[k], trace[k + 1], offset)
}

/// The state a numbering round of `g` with the value numbers `numbers` starts from: nothing
/// visited, the levers and then `OFF` and `ON` queued, an empty hash table.
pub open spec fn round_start(g: &GateGraphBuilder, numbers: Seq<Option<usize>>)
    -> (GateGraphBuilder, Seq<Option<usize>>, Seq<bool>, Seq<usize>, Map<u64, usize>, bool) {
    (*g, numbers, Seq::new(g.num_slots(), |i: int| false), g.levers().map_values(|l: GateIndex| l@) + seq![0usize, 1usize],
        Map::empty(), true)
}

/// True if a numbering round takes `g0` with the value numbers `n0` to `g1` with `n1`,
/// reporting `done` (no number changed): a run of [number_step]s from [round_start] until the
/// queue is empty.
pub open spec fn numbered_round(g0: &GateGraphBuilder, n0: Seq<Option<usize>>, g1: &GateGraphBuilder,
    n1: Seq<Option<usize>>, done: bool, offset: u64) -> bool {
    exists|trace: Seq<(GateGraphBuilder, Seq<Option<usize>>, Seq<bool>, Seq<usize>, Map<u64, usize>, bool)>|
        #[trigger] number_run(trace, offset) && trace[0] == round_start(g0, n0) && trace.last().3.len() == 0
            && trace.last().0 == *g1 && trace.last().1 == n1 && trace.last().5 == done
}

/// A run of numbering steps followed by one more is a run of numbering steps.
proof fn lemma_number_push(
    t: Seq<(GateGraphBuilder, Seq<Option<usize>>, Seq<bool>, Seq<usize>, Map<u64, usize>, bool)>,
    b: (GateGraphBuilder, Seq<Option<usize>>, Seq<bool>, Seq<usize>, Map<u64, usize>, bool),
    offset: u64,
)
    requires
        number_run(t, offset),
        number_step(t.last(), b, offset),
    ensures
        number_run(t.push(b), offset),
        t.push(b)[0] == t[0],
        t.push(b).last() == b,
{
    let c = t.push(b);
    assert forall|k: int| 0 <= k < c.len() - 1 implies #[trigger] number_step(c[k], c[k + 1], offset) by {
        if k < t.len() - 1 {
            assert(c[k] == t[k] && c[k + 1] == t[k + 1]);
        } else {
            assert(c[k] == t.last());
        }
    }
}

/// Runs one round of value numbering from the levers and constants through the dependents,
/// and returns true if no value number changed.
fn numbering_round(g: &mut GateGraphBuilder, numbers: &mut Vec<Option<usize>>, op_hash_offset: u64) -> (done: bool)
    requires
        old(g).base_wf(),
        numbers_ok(old(numbers)@, old(g).num_slots()),
    ensures
        final(g).optimized_from(old(g)),
        forall|i: int| #[trigger] old(g).has(i) ==> final(g).has(i) && final(g).ty(i) == old(g).ty(i)
            && final(g).dependents(i) == old(g).dependents(i),
        forall|i: int| #[trigger] old(g).has(i) ==> final(g).deps(i).to_multiset() == old(g).deps(i).to_multiset(),
        numbers_ok(final(numbers)@, old(g).num_slots()),
        done == (final(numbers)@ == old(numbers)@),
        numbered_round(old(g), old(numbers)@, final(g), final(numbers)@, done, op_hash_offset),
{
    proof {
        g.lemma_optimized_refl();
        g.lemma_consts();
    }
    let n = g.total_len();
    let mut hash_table: HashMap<u64, usize> = HashMap::new();
    let mut visited: Vec<bool> = filled(n, false);
    let mut done = true;
    let mut work: VecDeque<usize> = VecDeque::new();
    let levers = g.lever_indexes();
    let mut k: usize = 0;
    while k < levers.len()
        invariant
            g.base_wf(),
            n == g.num_slots(),
            k <= levers@.len(),
            forall|j: int| 0 <= j < levers@.len() ==> g.has(#[trigger] levers@[j] as int),
            forall|j: int| 0 <= j < work@.len() ==> #[trigger] work@[j] < n,
            work@ == levers@.take(k as int),
        decreases levers@.len() - k,
    {
        work.push_back(levers[k]);
        proof {
            assert(levers@.take(k + 1) =~= levers@.take(k as int).push(levers@[k as int]));
        }
        k = k + 1;
    }
    work.push_back(0);
    work.push_back(1);
    let ghost mut trace: Seq<(GateGraphBuilder, Seq<Option<usize>>, Seq<bool>, Seq<usize>, Map<u64, usize>, bool)> =
        seq![(*g, numbers@, visited@, work@, hash_table@, done)];
    proof {
        assert(levers@.take(levers@.len() as int) =~= levers@);
        assert(work@ =~= old(g).levers().map_values(|l: GateIndex| l@) + seq![0usize, 1usize]);
        assert(visited@ =~= Seq::new(old(g).num_slots(), |i: int| false));
        assert(hash_table@ =~= Map::<u64, usize>::empty());
        assert(trace[0] == round_start(old(g), old(numbers)@));
    }
    loop
        invariant
            g.optimized_from(old(g)),
            forall|i: int| #[trigger] old(g).has(i) ==> g.has(i) && g.ty(i) == old(g).ty(i)
                && g.dependents(i) == old(g).dependents(i),
            forall|i: int| #[trigger] old(g).has(i) ==> g.deps(i).to_multiset() == old(g).deps(i).to_multiset(),
            n == g.num_slots(),
            numbers_ok(numbers@, n as nat),
            visited@.len() == n,
            forall|j: int| 0 <= j < work@.len() ==> #[trigger] work@[j] < n,
            forall|h: u64| #[trigger] hash_table@.dom().contains(h) ==> hash_table@[h] < n,
            numbers@.len() == old(numbers)@.len(),
            forall|i: int| 0 <= i < n && !visited@[i] ==> #[trigger] numbers@[i] == old(numbers)@[i],
            done ==> numbers@ == old(numbers)@,
            !done ==> exists|i: int| 0 <= i < n && visited@[i] && #[trigger] numbers@[i] != old(numbers)@[i],
            number_run(trace, op_hash_offset),
            trace[0] == round_start(old(g), old(numbers)@),
            trace.last() == (*g, numbers@, visited@, work@, hash_table@, done),
        ensures
            g.optimized_from(old(g)),
            forall|i: int| #[trigger] old(g).has(i) ==> g.has(i) && g.ty(i) == old(g).ty(i)
                && g.dependents(i) == old(g).dependents(i),
            forall|i: int| #[trigger] old(g).has(i) ==> g.deps(i).to_multiset() == old(g).deps(i).to_multiset(),
            numbers_ok(numbers@, n as nat),
            done == (numbers@ == old(numbers)@),
            number_run(trace, op_hash_offset),
            trace[0] == round_start(old(g), old(numbers)@),
            trace.last() == (*g, numbers@, visited@, work@, hash_table@, done),
            work@.len() == 0,
        decreases count_false(visited@), work@.len(),
    {
        let ghost w0 = work@;
        let next = work.pop_front();
        let x = match next {
            None => {
                proof {
                    if !done {
                        let i = choose|i: int| 0 <= i < n && visited@[i] && #[trigger] numbers@[i] != old(numbers)@[i];
                        assert(numbers@[i] != old(numbers)@[i]);
                    }
                }
                break;
            },
            Some(x) => x,
        };
        proof {
            assert(work@ =~= w0.drop_first());
        }
        if visited[x] {
            proof {
                lemma_number_push(trace, (*g, numbers@, visited@, work@, hash_table@, done), op_hash_offset);
                trace = trace.push((*g, numbers@, visited@, work@, hash_table@, done));
            }
            continue;
        }
        let ghost seen = visited@;
        visited.set(x, true);
        proof {
            lemma_count_false_update(seen, x as int);
        }
        let op = match g.gate_type(x) {
            None => {
                proof {
                    lemma_number_push(trace, (*g, numbers@, visited@, work@, hash_table@, done), op_hash_offset);
                    trace = trace.push((*g, numbers@, visited@, work@, hash_table@, done));
                }
                continue;
            },
            Some(t) => t,
        };
        let ghost prior = trace.last();
        let ghost w1 = work@;
        let ghost before = *g;
        g.sort_dependencies(x);
        proof {
            GateGraphBuilder::lemma_optimized_trans(old(g), &before, g);
            assert forall|i: int| #[trigger] old(g).has(i) implies g.has(i) && g.ty(i) == old(g).ty(i)
                && g.dependents(i) == old(g).dependents(i) by {
                assert(before.has(i));
                if i != x as int { assert(g.slots()[i] == before.slots()[i]); }
            }
            assert forall|i: int| #[trigger] old(g).has(i) implies g.deps(i).to_multiset() == old(g).deps(i).to_multiset() by {
                assert(before.has(i));
                assert(before.deps(i).to_multiset() == old(g).deps(i).to_multiset());
                if i != x as int { assert(g.slots()[i] == before.slots()[i]); }
            }
            g.lemma_gate_ok(x as int);
        }
        let deps = g.dependencies_of(x);
        let mut dep_nums: Vec<usize> = Vec::new();
        let mut d: usize = 0;
        while d < deps.len()
            invariant
                numbers_ok(numbers@, n as nat),
                forall|j: int| 0 <= j < deps@.len() ==> #[trigger] deps@[j] < n,
                d <= deps@.len(),
                numbers@.len() == n,
                dep_nums@ == dep_numbers(numbers@, deps@.take(d as int)),
            decreases deps@.len() - d,
        {
            proof {
                assert(deps@.take(d + 1).drop_last() =~= deps@.take(d as int));
                assert(deps@.take(d + 1).last() == deps@[d as int]);
            }
            match numbers[deps[d]] {
                Some(v) => { dep_nums.push(v); },
                None => {},
            }
            d = d + 1;
        }
        proof {
            assert(deps@.take(deps@.len() as int) =~= deps@);
        }
        let ghost table0 = hash_table@;
        let h = hash_expression(op, op_hash_offset, &dep_nums, x);
        let temp = lookup_hash(h, x, &mut hash_table);
        proof {
            if hash_table@ == table0 {
                let h = choose|h: u64| table0.dom().contains(h) && table0[h] == temp;
                assert(table0[h] < n);
            } else {
                assert forall|h: u64| #[trigger] hash_table@.dom().contains(h) implies hash_table@[h] < n by {
                    let h0 = choose|h0: u64| !table0.dom().contains(h0) && hash_table@ == table0.insert(h0, x);
                    if h != h0 { assert(table0.dom().contains(h)); }
                }
            }
        }
        if numbers[x] != Some(temp) {
            proof {
                assert(numbers@[x as int] == old(numbers)@[x as int]);
            }
            let ghost prev = numbers@;
            done = false;
            numbers.set(x, Some(temp));
            proof {
                assert(numbers@[x as int] != old(numbers)@[x as int]);
                assert forall|i: int| 0 <= i < n && !visited@[i] implies #[trigger] numbers@[i] == old(numbers)@[i] by {
                    assert(numbers@[i] == prev[i]);
                }
            }
        }
        let dependents = g.dependents_of(x);
        let mut e: usize = 0;
        while e < dependents.len()
            invariant
                e <= dependents@.len(),
                forall|j: int| 0 <= j < dependents@.len() ==> #[trigger] dependents@[j] < n,
                forall|j: int| 0 <= j < work@.len() ==> #[trigger] work@[j] < n,
                work@ == w1 + dependents@.take(e as int),
            decreases dependents@.len() - e,
        {
            work.push_back(dependents[e]);
            proof {
                assert(w1 + dependents@.take(e + 1) =~= (w1 + dependents@.take(e as int)).push(dependents@[e as int]));
            }
            e = e + 1;
        }
        proof {
            assert(dependents@.take(dependents@.len() as int) =~= dependents@);
            assert(deps_sorted(&prior.0, g, x as int));
            assert(number_step(prior, (*g, numbers@, visited@, work@, hash_table@, done), op_hash_offset));
            lemma_number_push(trace, (*g, numbers@, visited@, work@, hash_table@, done), op_hash_offset);
            trace = trace.push((*g, numbers@, visited@, work@, hash_table@, done));
        }
    }
    proof {
        assert(numbered_round(old(g), old(numbers)@, g, numbers@, done, op_hash_offset));
    }
    done
}

/// True if gate `x` is numbered as another gate `a` and no gate is numbered as `x`: merging
/// hands all its readers to `a`.
pub open spec fn merged_away(numbers: Seq<Option<usize>>, x: usize) -> bool {
    &&& x < numbers.len()
    &&& numbers[x as int] is Some
    &&& numbers[x as int].unwrap() != x
    &&& forall|y: int| 0 <= y < numbers.len() ==> numbers[y] != Some(x)
}

/// True if `b` is `a` with the readers of gate `x` handed to gate `t`: every gate stays, of
/// the same type; each gate that `a` lists as a dependent of `x` reads `t` where it read `x`,
/// and every other gate keeps its dependencies; `x` lists no dependents any more, `t`, if
/// it is there, lists those of `x` among its own, and no other gate loses a dependent.
pub open spec fn handed_over(a: &GateGraphBuilder, b: &GateGraphBuilder, x: usize, t: usize) -> bool {
    &&& forall|j: int| #[trigger] b.has(j) == a.has(j)
    &&& forall|j: int| a.has(j) ==> #[trigger] b.ty(j) == a.ty(j)
    &&& forall|j: usize| a.has(j as int) ==> #[trigger] b.deps(j as int) == (if a.dependents(x as int).contains(j) {
        swapped(a.deps(j as int), x, t)
    } else {
        a.deps(j as int)
    })
    &&& b.dependents(x as int).len() == 0
    &&& a.has(t as int) ==> forall|y: usize| a.dependents(x as int).contains(y) ==> #[trigger] b.dependents(t as int).contains(y)
    &&& forall|u: usize, y: usize| u != x && a.has(u as int) && #[trigger] a.dependents(u as int).contains(y)
        ==> b.dependents(u as int).contains(y)
}

/// Handing the readers of a gate to an equal one keeps what every gate settles to: where
/// gates `x` and `t` of `a` settle alike (as value numbering takes gates of equal number to
/// do), `t` ranks no higher than `x`, every gate that reads `x` is listed among its
/// dependents, and `b` is `a` with the readers of `x` handed to `t` (see [handed_over]),
/// every gate computes in `b` what it computes in `a` with any fuel above its rank, and the
/// ranks still order `b`.
pub proof fn law_handing_over_keeps_settled_states(a: &GateGraphBuilder, b: &GateGraphBuilder, rank: spec_fn(usize) -> nat,
    levers: spec_fn(int) -> bool, x: usize, t: usize, j: usize, f: nat)
    requires
        ranked(a, rank),
        rank(t) <= rank(x),
        forall|h: nat| h > rank(x) ==> #[trigger] a.eval(levers, x as int, h) == a.eval(levers, t as int, h),
        forall|i: usize| a.has(i as int) && #[trigger] a.deps(i as int).contains(x) ==> a.dependents(x as int).contains(i),
        handed_over(a, b, x, t),
        f > rank(j),
    ensures
        ranked(b, rank),
        b.eval(levers, j as int, f) == a.eval(levers, j as int, f),
    decreases rank(j),
{
    assert forall|i: usize, k: int| b.has(i as int) && 0 <= k < b.deps(i as int).len() implies #[trigger] rank(
        b.deps(i as int)[k]) < rank(i) by {
        assert(a.has(i as int));
        assert(rank(a.deps(i as int)[k]) < rank(i));
        if a.dependents(x as int).contains(i) && a.deps(i as int)[k] == x {
            assert(b.deps(i as int)[k] == t);
        }
    }
    if a.has(j as int) {
        let g = (f - 1) as nat;
        let bs = b.deps(j as int);
        let ads = a.deps(j as int);
        lemma_eval_all_index(b, levers, bs, g);
        lemma_eval_all_index(a, levers, ads, g);
        assert forall|k: int| 0 <= k < bs.len() implies #[trigger] b.eval_all(levers, bs, g)[k] == a.eval_all(levers, ads,
            g)[k] by {
            assert(rank(ads[k]) < rank(j));
            if ads[k] == x {
                assert(ads.contains(x));
                assert(bs[k] == t);
                law_handing_over_keeps_settled_states(a, b, rank, levers, x, t, t, g);
                assert(a.eval(levers, x as int, g) == a.eval(levers, t as int, g));
            } else {
                assert(bs[k] == ads[k]);
                law_handing_over_keeps_settled_states(a, b, rank, levers, x, t, ads[k], g);
            }
        }
        assert(b.eval_all(levers, bs, g) =~= a.eval_all(levers, ads, g));
    }
}

/// Handing the readers of a gate to another keeps every reader listed: where every gate of
/// `a` is listed among the dependents of each gate it reads (see [readers_listed]) and `b` is
/// `a` with the readers of `x` handed to another gate `t` of `a` (see [handed_over]), the
/// same holds of `b`, so a change of `t` reaches each gate that read `x`.
pub proof fn law_handing_over_keeps_readers_listed(a: &GateGraphBuilder, b: &GateGraphBuilder, x: usize, t: usize)
    requires
        readers_listed(a),
        handed_over(a, b, x, t),
        a.has(t as int),
        t != x,
    ensures
        readers_listed(b),
{
    assert forall|i: usize, v: usize| b.has(i as int) && b.has(v as int) && #[trigger] b.deps(i as int).contains(v)
        implies b.dependents(v as int).contains(i) by {
        assert(a.has(i as int) && a.has(v as int));
        let m = choose|m: int| 0 <= m < b.deps(i as int).len() && b.deps(i as int)[m] == v;
        if a.dependents(x as int).contains(i) {
            assert(b.deps(i as int) == swapped(a.deps(i as int), x, t));
            if a.deps(i as int)[m] == x {
                assert(v == t);
            } else {
                assert(a.deps(i as int)[m] == v);
                assert(a.deps(i as int).contains(v));
                assert(v != x);
            }
        } else {
            assert(b.deps(i as int) == a.deps(i as int));
            assert(a.dependents(v as int).contains(i));
            assert(v != x);
        }
    }
}

/// What merging does at gate `x` given the value numbers `numbers`: a gate that is there and
/// numbered as another gate hands its readers to that one (see [handed_over]); otherwise
/// nothing changes.
pub open spec fn merge_number_step(a: &GateGraphBuilder, b: &GateGraphBuilder, numbers: Seq<Option<usize>>, x: usize) -> bool {
    if numbers[x as int] is Some && numbers[x as int].unwrap() != x && a.has(x as int) {
        handed_over(a, b, x, numbers[x as int].unwrap())
    } else {
        b == a
    }
}

/// True if `trace` merges by the value numbers `numbers` gate after gate, in increasing order.
pub open spec fn merge_number_run(trace: Seq<GateGraphBuilder>, numbers: Seq<Option<usize>>) -> bool {
    &&& trace.len() == numbers.len() + 1
    &&& forall|x: usize| x < numbers.len() ==> #[trigger] merge_number_step(&trace[x as int], &trace[x + 1], numbers, x)
}

/// Gives every gate the dependents of that gate which reads what it reads and is equal to it:
/// for each gate `x` numbered `a` with `a != x`, each dependent of `x` reads `a` where it read
/// `x`, and `a` records it as a dependent; `x` keeps no dependents.
///
/// The gates are taken in increasing order, each as [merge_number_step] says. So a gate that
/// is numbered as another and as which no gate is numbered ends with no dependents, and none
/// of the gates it listed as dependents reads it any more.
pub fn merge_numbered(g: &mut GateGraphBuilder, numbers: &Vec<Option<usize>>)
    requires
        old(g).base_wf(),
        numbers_ok(numbers@, old(g).num_slots()),
    ensures
        final(g).optimized_from(old(g)),
        forall|i: int| #[trigger] final(g).has(i) ==> old(g).has(i) && final(g).ty(i) == old(g).ty(i),
        forall|x: usize| #[trigger] merged_away(numbers@, x) && old(g).has(x as int) ==> final(g).dependents(x as int).len() == 0,
        forall|x: usize, d: usize| #[trigger] merged_away(numbers@, x) && old(g).has(x as int)
            && #[trigger] old(g).dependents(x as int).contains(d) && old(g).has(d as int)
            ==> !final(g).deps(d as int).contains(x),
        exists|trace: Seq<GateGraphBuilder>| #[trigger] merge_number_run(trace, numbers@) && trace[0] == *old(g)
            && trace.last() == *final(g),
{
    proof {
        g.lemma_optimized_refl();
    }
    let n = g.total_len();
    let mut x: usize = 0;
    let ghost mut trace: Seq<GateGraphBuilder> = seq![*g];
    while x < n
        invariant
            trace.len() == x + 1,
            forall|y: usize| y < x ==> #[trigger] merge_number_step(&trace[y as int], &trace[y + 1], numbers@, y),
            trace[0] == *old(g),
            trace.last() == *g,
            g.optimized_from(old(g)),
            n == g.num_slots(),
            numbers_ok(numbers@, n as nat),
            x <= n,
            forall|i: int| #[trigger] g.has(i) == old(g).has(i),
            forall|i: int| #[trigger] g.has(i) ==> g.ty(i) == old(g).ty(i),
            forall|y: usize| #[trigger] merged_away(numbers@, y) && old(g).has(y as int) && y < x
                ==> g.dependents(y as int).len() == 0,
            forall|y: usize| #[trigger] merged_away(numbers@, y) && old(g).has(y as int) && x <= y
                ==> g.dependents(y as int) == old(g).dependents(y as int),
            forall|y: usize, d: usize| #[trigger] merged_away(numbers@, y) && old(g).has(y as int) && y < x
                && #[trigger] old(g).dependents(y as int).contains(d) && old(g).has(d as int)
                ==> !g.deps(d as int).contains(y),
        decreases n - x,
    {
        let ghost before_x = *g;
        if let Some(a) = numbers[x] {
            if a != x {
                if let Some(_) = g.gate_type(x) {
                    let ghost s0 = *g;
                    let dependents = g.take_dependents(x);
                    proof {
                        assert forall|j: usize| s0.has(j as int) implies #[trigger] g.deps(j as int) == (if dependents@.take(0).contains(j) {
                            swapped(s0.deps(j as int), x, a)
                        } else {
                            s0.deps(j as int)
                        }) by {
                            if j != x { assert(g.slots()[j as int] == s0.slots()[j as int]); }
                        }
                        assert(s0.has(a as int) ==> forall|y: usize| dependents@.take(0).contains(y)
                            ==> #[trigger] g.dependents(a as int).contains(y));
                        assert forall|u: usize, y: usize| u != x && s0.has(u as int) && #[trigger] s0.dependents(u as int).contains(y)
                            implies g.dependents(u as int).contains(y) by {
                            assert(g.slots()[u as int] == s0.slots()[u as int]);
                        }
                        GateGraphBuilder::lemma_optimized_trans(old(g), &s0, g);
                        s0.lemma_gate_ok(x as int);
                        assert forall|i: int| #[trigger] g.has(i) == old(g).has(i) by {
                            assert(s0.has(i) == old(g).has(i));
                            if i != x as int && 0 <= i < n { assert(g.slots()[i] == s0.slots()[i]); }
                        }
                        assert forall|i: int| #[trigger] g.has(i) implies g.ty(i) == old(g).ty(i) by {
                            assert(s0.has(i));
                            if i != x as int { assert(g.slots()[i] == s0.slots()[i]); }
                        }
                        assert forall|y: usize| #[trigger] merged_away(numbers@, y) && old(g).has(y as int) && y < x
                            implies g.dependents(y as int).len() == 0 by {
                            assert(g.slots()[y as int] == s0.slots()[y as int]);
                        }
                        assert forall|y: usize| #[trigger] merged_away(numbers@, y) && old(g).has(y as int) && x + 1 <= y
                            implies g.dependents(y as int) == old(g).dependents(y as int) by {
                            assert(g.slots()[y as int] == s0.slots()[y as int]);
                        }
                        assert forall|y: usize, d: usize| #[trigger] merged_away(numbers@, y) && old(g).has(y as int) && y < x
                            && #[trigger] old(g).dependents(y as int).contains(d) && old(g).has(d as int)
                            implies !g.deps(d as int).contains(y) by {
                            assert(s0.has(d as int));
                            assert(g.deps(d as int) == s0.deps(d as int)) by {
                                if d != x { assert(g.slots()[d as int] == s0.slots()[d as int]); }
                            }
                        }
                    }
                    let mut k: usize = 0;
                    while k < dependents.len()
                        invariant
                            g.optimized_from(old(g)),
                            n == g.num_slots(),
                            numbers_ok(numbers@, n as nat),
                            x < n,
                            a < n,
                            a != x,
                            numbers@[x as int] == Some(a),
                            k <= dependents@.len(),
                            dependents@ == s0.dependents(x as int),
                            forall|i: int| #[trigger] g.has(i) == old(g).has(i),
                            forall|i: int| #[trigger] g.has(i) ==> g.ty(i) == old(g).ty(i),
                            forall|j: int| 0 <= j < dependents@.len() ==> #[trigger] dependents@[j] < n,
                            merged_away(numbers@, x) && old(g).has(x as int) ==> g.dependents(x as int).len() == 0,
                            forall|y: usize| #[trigger] merged_away(numbers@, y) && old(g).has(y as int) && y < x
                                ==> g.dependents(y as int).len() == 0,
                            forall|y: usize| #[trigger] merged_away(numbers@, y) && old(g).has(y as int) && x + 1 <= y
                                ==> g.dependents(y as int) == old(g).dependents(y as int),
                            forall|y: usize, d: usize| #[trigger] merged_away(numbers@, y) && old(g).has(y as int) && y < x
                                && #[trigger] old(g).dependents(y as int).contains(d) && old(g).has(d as int)
                                ==> !g.deps(d as int).contains(y),
                            forall|j: int| 0 <= j < k && g.has(#[trigger] dependents@[j] as int)
                                ==> !g.deps(dependents@[j] as int).contains(x),
                            forall|j: usize| s0.has(j as int) ==> #[trigger] g.deps(j as int) == (if dependents@.take(k as int).contains(j) {
                                swapped(s0.deps(j as int), x, a)
                            } else {
                                s0.deps(j as int)
                            }),
                            g.dependents(x as int).len() == 0,
                            s0.has(a as int) ==> forall|y: usize| dependents@.take(k as int).contains(y)
                                ==> #[trigger] g.dependents(a as int).contains(y),
                            s0 == before_x,
                            forall|u: usize, y: usize| u != x && s0.has(u as int) && #[trigger] s0.dependents(u as int).contains(y)
                                ==> g.dependents(u as int).contains(y),
                            forall|i: int| #[trigger] s0.has(i) == old(g).has(i),
                            forall|i: int| s0.has(i) ==> #[trigger] s0.ty(i) == old(g).ty(i),
                        decreases dependents@.len() - k,
                    {
                        let dep = dependents[k];
                        let ghost s1 = *g;
                        g.swap_dependency_of(dep, x, a);
                        let ghost s2 = *g;
                        g.insert_dependent(a, dep);
                        proof {
                            GateGraphBuilder::lemma_optimized_trans(old(g), &s1, &s2);
                            GateGraphBuilder::lemma_optimized_trans(old(g), &s2, g);
                            assert forall|i: int| #[trigger] g.has(i) == old(g).has(i) by {
                                assert(s1.has(i) == old(g).has(i));
                                assert(s2.has(i) == s1.has(i));
                                if 0 <= i < n {
                                    if i != dep as int { assert(s2.slots()[i] == s1.slots()[i]); }
                                    if i != a as int { assert(g.slots()[i] == s2.slots()[i]); }
                                }
                            }
                            assert forall|i: int| #[trigger] g.has(i) implies g.ty(i) == old(g).ty(i) by {
                                assert(s1.has(i));
                                assert(s2.has(i));
                                if i != dep as int { assert(s2.slots()[i] == s1.slots()[i]); }
                                if i != a as int { assert(g.slots()[i] == s2.slots()[i]); }
                            }
                            // Dependents change only at `a`, deps only at `dep`.
                            assert forall|i: int| 0 <= i < n && i != a as int implies #[trigger] g.dependents(i) == s1.dependents(i) by {
                                assert(g.slots()[i] == s2.slots()[i]);
                                if i != dep as int { assert(s2.slots()[i] == s1.slots()[i]); }
                            }
                            assert forall|i: int| 0 <= i < n && g.has(i) implies #[trigger] g.deps(i) == (if i == dep as int {
                                s1.deps(i).map_values(|v: usize| if v == x { a } else { v })
                            } else {
                                s1.deps(i)
                            }) by {
                                if i != a as int { assert(g.slots()[i] == s2.slots()[i]); }
                                if i != dep as int { assert(s2.slots()[i] == s1.slots()[i]); }
                            }
                            if merged_away(numbers@, x) && old(g).has(x as int) {
                                assert(numbers@[x as int] == Some(a));
                                assert(x != a);
                            }
                            assert forall|y: usize| #[trigger] merged_away(numbers@, y) && old(g).has(y as int) && y < x
                                implies g.dependents(y as int).len() == 0 by {
                                assert(numbers@[x as int] != Some(y));
                                assert(a != y);
                            }
                            assert forall|y: usize| #[trigger] merged_away(numbers@, y) && old(g).has(y as int) && x + 1 <= y
                                implies g.dependents(y as int) == old(g).dependents(y as int) by {
                                assert(numbers@[x as int] != Some(y));
                                assert(a != y);
                            }
                            assert forall|y: usize, d: usize| #[trigger] merged_away(numbers@, y) && old(g).has(y as int) && y < x
                                && #[trigger] old(g).dependents(y as int).contains(d) && old(g).has(d as int)
                                implies !g.deps(d as int).contains(y) by {
                                assert(numbers@[x as int] != Some(y));
                                assert(a != y);
                                assert(!s1.deps(d as int).contains(y));
                                if d == dep {
                                    let m = s1.deps(d as int).map_values(|v: usize| if v == x { a } else { v });
                                    assert(g.deps(d as int) == m);
                                    if m.contains(y) {
                                        let j = choose|j: int| 0 <= j < m.len() && m[j] == y;
                                        assert(s1.deps(d as int)[j] == y);
                                    }
                                }
                            }
                            assert forall|j: int| 0 <= j < k + 1 && g.has(#[trigger] dependents@[j] as int)
                                implies !g.deps(dependents@[j] as int).contains(x) by {
                                let dj = dependents@[j];
                                if dj == dep {
                                    let m = s1.deps(dj as int).map_values(|v: usize| if v == x { a } else { v });
                                    assert(g.deps(dj as int) == m);
                                    if m.contains(x) {
                                        let i = choose|i: int| 0 <= i < m.len() && m[i] == x;
                                        assert(m[i] == (if s1.deps(dj as int)[i] == x { a } else { s1.deps(dj as int)[i] }));
                                    }
                                } else {
                                    assert(j < k);
                                    assert(!s1.deps(dj as int).contains(x));
                                }
                            }
                        }
                        proof {
                            assert forall|u: usize, y: usize| u != x && s0.has(u as int)
                                && #[trigger] s0.dependents(u as int).contains(y) implies g.dependents(u as int).contains(y) by {
                                assert(s1.dependents(u as int).contains(y));
                                if u != a {
                                    assert(g.dependents(u as int) == s1.dependents(u as int));
                                } else {
                                    assert(s2.dependents(a as int) == s1.dependents(a as int)) by {
                                        if dep != a { assert(s2.slots()[a as int] == s1.slots()[a as int]); }
                                    }
                                    assert(s2.has(a as int));
                                    lemma_set_insert_keeps(s2.dependents(a as int), dep, y);
                                }
                            }
                            assert(g.dependents(x as int) == s1.dependents(x as int));
                            assert forall|j: usize| s0.has(j as int) implies #[trigger] g.deps(j as int) == (if dependents@.take(k + 1).contains(j) {
                                swapped(s0.deps(j as int), x, a)
                            } else {
                                s0.deps(j as int)
                            }) by {
                                assert(dependents@.take(k + 1) =~= dependents@.take(k as int).push(dep));
                                assert(g.has(j as int));
                                assert(s1.deps(j as int) == (if dependents@.take(k as int).contains(j) {
                                    swapped(s0.deps(j as int), x, a)
                                } else {
                                    s0.deps(j as int)
                                }));
                                if j == dep {
                                    assert(g.deps(j as int) == s1.deps(j as int).map_values(|v: usize| if v == x { a } else { v }));
                                    assert(dependents@.take(k + 1)[k as int] == j);
                                    assert(swapped(s1.deps(j as int), x, a) =~= s1.deps(j as int).map_values(|v: usize| if v == x { a } else { v }));
                                    assert(swapped(swapped(s0.deps(j as int), x, a), x, a) =~= swapped(s0.deps(j as int), x, a));
                                } else {
                                    assert(g.deps(j as int) == s1.deps(j as int));
                                    assert(dependents@.take(k + 1).contains(j) == dependents@.take(k as int).contains(j));
                                }
                            }
                            if s0.has(a as int) {
                                assert forall|y: usize| dependents@.take(k + 1).contains(y) implies #[trigger] g.dependents(a as int).contains(y) by {
                                    assert(dependents@.take(k + 1) =~= dependents@.take(k as int).push(dep));
                                    assert(s2.dependents(a as int) == s1.dependents(a as int)) by {
                                        if dep != a { assert(s2.slots()[a as int] == s1.slots()[a as int]); }
                                    }
                                    assert(g.has(a as int));
                                    assert(s2.has(a as int));
                                    let sd = s2.dependents(a as int);
                                    assert(g.dependents(a as int) == crate::graph::edges::set_insert(sd, dep));
                                    if y != dep {
                                        assert(dependents@.take(k as int).contains(y));
                                        assert(s1.dependents(a as int).contains(y));
                                        let q = choose|q: int| 0 <= q < sd.len() && sd[q] == y;
                                        if !sd.contains(dep) {
                                            assert(sd.push(dep)[q] == y);
                                        }
                                    } else if !sd.contains(dep) {
                                        assert(sd.push(dep)[sd.len() as int] == dep);
                                    }
                                }
                            }
                        }
                        k = k + 1;
                    }
                    proof {
                        assert(dependents@.take(dependents@.len() as int) =~= dependents@);
                        assert forall|j: int| #[trigger] g.has(j) == s0.has(j) by {
                            assert(g.has(j) == old(g).has(j));
                        }
                        assert forall|j: int| s0.has(j) implies #[trigger] g.ty(j) == s0.ty(j) by {
                            assert(g.has(j) == old(g).has(j));
                        }
                        assert forall|j: usize| s0.has(j as int) implies #[trigger] g.deps(j as int) == (if s0.dependents(x as int).contains(j) {
                            swapped(s0.deps(j as int), x, a)
                        } else {
                            s0.deps(j as int)
                        }) by {
                            assert(g.deps(j as int) == (if dependents@.take(dependents@.len() as int).contains(j) {
                                swapped(s0.deps(j as int), x, a)
                            } else {
                                s0.deps(j as int)
                            }));
                        }
                        assert(handed_over(&s0, g, x, a));
                        assert forall|y: usize, d: usize| #[trigger] merged_away(numbers@, y) && old(g).has(y as int) && y < x + 1
                            && #[trigger] old(g).dependents(y as int).contains(d) && old(g).has(d as int)
                            implies !g.deps(d as int).contains(y) by {
                            if y == x {
                                assert(s0.dependents(x as int) == old(g).dependents(x as int));
                                let j = choose|j: int| 0 <= j < dependents@.len() && dependents@[j] == d;
                                assert(g.has(dependents@[j] as int));
                            }
                        }
                    }
                }
            }
        }
        proof {
            if numbers@[x as int] is Some && numbers@[x as int].unwrap() != x && before_x.has(x as int) {
                let a = numbers@[x as int].unwrap();
                assert(g.dependents(x as int).len() == 0);
                assert(handed_over(&before_x, g, x, a));
            }
            assert(merge_number_step(&before_x, g, numbers@, x));
            let t0 = trace;
            trace = trace.push(*g);
            assert forall|y: usize| y < x + 1 implies #[trigger] merge_number_step(&trace[y as int], &trace[y + 1], numbers@, y) by {
                if y < x {
                    assert(trace[y as int] == t0[y as int] && trace[y + 1] == t0[y + 1]);
                }
            }
        }
        x = x + 1;
    }
    proof {
        assert(merge_number_run(trace, numbers@));
    }
}

/// True if `g` holds the merges of the value numbers `numbers` made in `g0`: each gate of
/// `g0` numbered as another gate, as which no gate is numbered, and that cannot be observed, is
/// gone, and none of the gates that it listed as dependents and that are still there reads it.
pub open spec fn merged_by(g0: &GateGraphBuilder, g: &GateGraphBuilder, numbers: Seq<Option<usize>>) -> bool {
    forall|x: usize| #[trigger] merged_away(numbers, x) && g0.has(x as int) && !g0.observable(x as int) && x >= 2
        ==> !g.has(x as int) && forall|d: usize| #[trigger] g0.dependents(x as int).contains(d) && g.has(d as int)
            ==> !g.deps(d as int).contains(x)
}

/// True if `b` can come out of [global_value_numbering_pass] run on `a`, with some value
/// numbers.
pub open spec fn value_numbered(a: &GateGraphBuilder, b: &GateGraphBuilder) -> bool {
    &&& b.optimized_from(a)
    &&& exists|rs: Seq<(GateGraphBuilder, Seq<Option<usize>>, bool)>, trace: Seq<GateGraphBuilder>|
        #![trigger numbering_rounds(a, rs, hash_offset(a)), merge_number_run(trace, rs.last().1)]
        numbering_rounds(a, rs, hash_offset(a)) && merge_number_run(trace, rs.last().1) && trace[0] == rs.last().0
            && cleaned(&trace.last(), b)
}

/// The offset of the type numbers in expressions: the number of gates of `g`.
pub open spec fn hash_offset(g: &GateGraphBuilder) -> u64 {
    (g.num_slots() - g.free().len()) as u64
}

/// True if `rs` are the rounds of value numbering of `g`: it starts from `g` with no gate
/// numbered, each round (see [numbered_round]) goes on from the graph and numbers of the one
/// before, and the rounds stop at the first that changes nothing (or after `usize::MAX`).
pub open spec fn numbering_rounds(g: &GateGraphBuilder, rs: Seq<(GateGraphBuilder, Seq<Option<usize>>, bool)>,
    offset: u64) -> bool {
    &&& rs.len() >= 1
    &&& rs[0].0 == *g
    &&& rs[0].1 == Seq::new(g.num_slots(), |i: int| None::<usize>)
    &&& !rs[0].2
    &&& forall|k: int| 0 <= k < rs.len() - 1 ==> #[trigger] numbered_round(&rs[k].0, rs[k].1, &rs[k + 1].0, rs[k + 1].1,
        rs[k + 1].2, offset)
    &&& forall|k: int| 0 <= k < rs.len() - 1 ==> !(#[trigger] rs[k]).2
    &&& rs.last().2 || rs.len() > usize::MAX
}

/// Global value numbering: gates of the same type that read gates of equal value get the
/// same value number, the first gate met with that expression, and the others hand their
/// dependents to it. Numbering starts from the levers and constants and follows the
/// dependents, and is repeated until no number changes (or for `usize::MAX` rounds, a bound
/// that no graph reaches in practice). The gates that are no longer read are then removed.
///
/// Expressions are compared by a 64 bit hash of the operation and the value numbers of the
/// dependencies, as computed by std's `DefaultHasher`; two expressions with the same hash are
/// taken to be equal. The rounds are stated exactly (see [numbering_rounds] and
/// [number_step]) in terms of that hash function, which std does not specify but fixes for
/// every hasher made by `DefaultHasher::new`; the merging follows the final numbers exactly
/// (see [merge_numbered]) and dead code elimination follows (see [cleaned]).
pub fn global_value_numbering_pass(g: &mut GateGraphBuilder)
    requires
        old(g).base_wf(),
    ensures
        final(g).optimized_from(old(g)),
        forall|i: usize| !#[trigger] is_dead(final(g), i),
        exists|numbers: Seq<Option<usize>>| #[trigger] numbers_ok(numbers, old(g).num_slots())
            && merged_by(old(g), final(g), numbers),
        value_numbered(old(g), final(g)),
{
    proof {
        g.lemma_optimized_refl();
    }
    let n = g.total_len();
    let mut numbers: Vec<Option<usize>> = filled(n, None);
    let op_hash_offset = g.len() as u64;
    let mut rounds: usize = usize::MAX;
    let ghost mut rs: Seq<(GateGraphBuilder, Seq<Option<usize>>, bool)> = seq![(*g, numbers@, false)];
    let ghost mut last_done = false;
    proof {
        assert(numbers@ =~= Seq::new(g.num_slots(), |i: int| None::<usize>));
    }
    while rounds > 0
        invariant_except_break
            !last_done,
        invariant
            op_hash_offset == hash_offset(old(g)),
            rs.len() + rounds == usize::MAX + 1,
            rs[0].0 == *old(g),
            rs[0].1 == Seq::new(old(g).num_slots(), |i: int| None::<usize>),
            !rs[0].2,
            forall|k: int| 0 <= k < rs.len() - 1 ==> #[trigger] numbered_round(&rs[k].0, rs[k].1, &rs[k + 1].0, rs[k + 1].1,
                rs[k + 1].2, op_hash_offset),
            forall|k: int| 0 <= k < rs.len() - 1 ==> !(#[trigger] rs[k]).2,
            rs.last() == (*g, numbers@, last_done),
            g.optimized_from(old(g)),
            n == g.num_slots(),
            numbers_ok(numbers@, n as nat),
            forall|i: int| #[trigger] old(g).has(i) ==> g.has(i) && g.ty(i) == old(g).ty(i)
                && g.dependents(i) == old(g).dependents(i),
            forall|i: int| #[trigger] old(g).has(i) ==> g.deps(i).to_multiset() == old(g).deps(i).to_multiset(),
        ensures
            g.optimized_from(old(g)),
            n == g.num_slots(),
            numbers_ok(numbers@, n as nat),
            forall|i: int| #[trigger] old(g).has(i) ==> g.has(i) && g.ty(i) == old(g).ty(i)
                && g.dependents(i) == old(g).dependents(i),
            forall|i: int| #[trigger] old(g).has(i) ==> g.deps(i).to_multiset() == old(g).deps(i).to_multiset(),
            op_hash_offset == hash_offset(old(g)),
            rs[0].0 == *old(g),
            rs[0].1 == Seq::new(old(g).num_slots(), |i: int| None::<usize>),
            !rs[0].2,
            forall|k: int| 0 <= k < rs.len() - 1 ==> #[trigger] numbered_round(&rs[k].0, rs[k].1, &rs[k + 1].0, rs[k + 1].1,
                rs[k + 1].2, op_hash_offset),
            forall|k: int| 0 <= k < rs.len() - 1 ==> !(#[trigger] rs[k]).2,
            rs.last() == (*g, numbers@, last_done),
            last_done || rs.len() > usize::MAX,
        decreases rounds,
    {
        rounds = rounds - 1;
        let ghost before = *g;
        let ghost nums_before = numbers@;
        let done = numbering_round(g, &mut numbers, op_hash_offset);
        proof {
            let r0 = rs;
            rs = rs.push((*g, numbers@, done));
            last_done = done;
            assert forall|k: int| 0 <= k < rs.len() - 1 implies #[trigger] numbered_round(&rs[k].0, rs[k].1, &rs[k + 1].0,
                rs[k + 1].1, rs[k + 1].2, op_hash_offset) by {
                if k < r0.len() - 1 {
                    assert(rs[k] == r0[k] && rs[k + 1] == r0[k + 1]);
                } else {
                    assert(rs[k] == r0.last());
                }
            }
            assert forall|k: int| 0 <= k < rs.len() - 1 implies !(#[trigger] rs[k]).2 by {
                if k < r0.len() - 1 {
                    assert(rs[k] == r0[k]);
                } else {
                    assert(rs[k] == r0.last());
                }
            }
        }
        proof {
            GateGraphBuilder::lemma_optimized_trans(old(g), &before, g);
            assert forall|i: int| #[trigger] old(g).has(i) implies g.has(i) && g.ty(i) == old(g).ty(i)
                && g.dependents(i) == old(g).dependents(i) by {
                assert(before.has(i));
            }
            assert forall|i: int| #[trigger] old(g).has(i) implies g.deps(i).to_multiset() == old(g).deps(i).to_multiset() by {
                assert(before.has(i));
                assert(before.deps(i).to_multiset() == old(g).deps(i).to_multiset());
            }
        }
        if done {
            break;
        }
    }
    let ghost numbered = *g;
    merge_numbered(g, &numbers);
    let ghost merged = *g;
    dead_code_elimination_pass(g);
    proof {
        GateGraphBuilder::lemma_optimized_trans(old(g), &numbered, &merged);
        GateGraphBuilder::lemma_optimized_trans(old(g), &merged, g);
        assert(merged_by(old(g), g, numbers@)) by {
            assert forall|x: usize| #[trigger] merged_away(numbers@, x) && old(g).has(x as int) && !old(g).observable(x as int) && x >= 2
                implies !g.has(x as int) && forall|d: usize| #[trigger] old(g).dependents(x as int).contains(d) && g.has(d as int)
                    ==> !g.deps(d as int).contains(x) by {
                assert(numbered.has(x as int));
                assert(merged.dependents(x as int).len() == 0);
                if g.has(x as int) {
                    assert(!is_dead(g, x));
                    assert(merged.has(x as int));
                    assert(merged.ty(x as int) == numbered.ty(x as int));
                    assert(g.ty(x as int) == old(g).ty(x as int));
                    assert(g.dependents(x as int).len() > 0);
                    let y = g.dependents(x as int)[0];
                    assert(g.dependents(x as int).contains(y));
                    assert(merged.dependents(x as int).contains(y));
                }
                assert forall|d: usize| #[trigger] old(g).dependents(x as int).contains(d) && g.has(d as int)
                    implies !g.deps(d as int).contains(x) by {
                    assert(merged.has(d as int));
                    assert(numbered.has(d as int));
                    assert(numbered.dependents(x as int).contains(d));
                    assert(!merged.deps(d as int).contains(x));
                }
            }
        }
        let trace = choose|trace: Seq<GateGraphBuilder>| #[trigger] merge_number_run(trace, numbers@) && trace[0] == numbered
            && trace.last() == merged;
        assert(cleaned(&trace.last(), g));
        assert(numbering_rounds(old(g), rs, hash_offset(old(g))));
        assert(numbering_rounds(old(g), rs, hash_offset(old(g))) && merge_number_run(trace, rs.last().1)
            && trace[0] == rs.last().0 && cleaned(&trace.last(), g));
    }
}

} // verus!
