use indexmap::IndexSet;
use smallvec::SmallVec;
use vstd::prelude::*;

verus! {

/// A list of gate indexes kept in a `smallvec::SmallVec` with two inline slots, which is what
/// most gates need.
#[verifier::external_body]
pub struct EdgeList {
    items: SmallVec<[usize; 2]>,
}

/// Declares `indexmap::IndexSet` so that it can be held in fields and signatures.
#[verifier::external_type_specification]
#[verifier::external_body]
#[verifier::reject_recursive_types(T)]
#[verifier::reject_recursive_types(S)]
pub struct ExIndexSet<T, S>(IndexSet<T, S>);

/// The items of an edge list, in order.
pub uninterp spec fn edge_list_items(v: EdgeList) -> Seq<usize>;

/// The items of an edge set, in order of insertion (as perturbed by removals).
pub uninterp spec fn edge_set_items(s: IndexSet<usize>) -> Seq<usize>;

/// `s` with `x` appended unless it is already there.
pub open spec fn set_insert(s: Seq<usize>, x: usize) -> Seq<usize> {
    if s.contains(x) {
        s
    } else {
        s.push(x)
    }
}

/// `s` with `x` taken out by moving the last item into its place, as `Vec::swap_remove` does.
pub open spec fn set_swap_remove(s: Seq<usize>, x: usize) -> Seq<usize> {
    if s.contains(x) {
        let i = s.index_of(x);
        s.update(i, s.last()).drop_last()
    } else {
        s
    }
}

/// `s` without consecutive repeated items.
pub open spec fn dedup_seq(s: Seq<usize>) -> Seq<usize>
    decreases s.len(),
{
    if s.len() <= 1 {
        s
    } else {
        let r = dedup_seq(s.drop_last());
        if s.last() == s[s.len() - 2] {
            r
        } else {
            r.push(s.last())
        }
    }
}

/// True if `s` is in non decreasing order.
pub open spec fn sorted(s: Seq<usize>) -> bool {
    forall|i: int, j: int| 0 <= i <= j < s.len() ==> s[i] <= s[j]
}

/// Returns true if `x` is an item of `v`.
pub(crate) fn edge_list_contains(v: &EdgeList, x: usize) -> (r: bool)
    ensures
        r == edge_list_items(*v).contains(x),
{
    let n = edge_list_len(v);
    let mut i: usize = 0;
    while i < n
        invariant
            n == edge_list_items(*v).len(),
            i <= n,
            forall|k: int| 0 <= k < i ==> edge_list_items(*v)[k] != x,
        decreases n - i,
    {
        if edge_list_get(v, i) == x {
            return true;
        }
        i = i + 1;
    }
    false
}

/// Returns the items of `v`, in order.
pub(crate) fn edge_list_to_vec(v: &EdgeList) -> (r: Vec<usize>)
    ensures
        r@ == edge_list_items(*v),
{
    let n = edge_list_len(v);
    let mut r: Vec<usize> = Vec::new();
    let mut i: usize = 0;
    while i < n
        invariant
            n == edge_list_items(*v).len(),
            i <= n,
            r@ == edge_list_items(*v).subrange(0, i as int),
        decreases n - i,
    {
        r.push(edge_list_get(v, i));
        i = i + 1;
        proof {
            assert(r@ =~= edge_list_items(*v).subrange(0, i as int));
        }
    }
    proof {
        assert(r@ =~= edge_list_items(*v));
    }
    r
}

/// `SmallVec::new`: an empty list.
#[verifier::external_body]
pub(crate) fn edge_list_new() -> (r: EdgeList)
    ensures
        edge_list_items(r) == Seq::<usize>::empty(),
{
    EdgeList { items: SmallVec::new() }
}

/// `SmallVec::from_vec`: a list holding the items of `v`, in order.
#[verifier::external_body]
pub(crate) fn edge_list_from_vec(v: Vec<usize>) -> (r: EdgeList)
    ensures
        edge_list_items(r) == v@,
{
    EdgeList { items: SmallVec::from_vec(v) }
}

/// `SmallVec::push`: appends `x`.
#[verifier::external_body]
pub(crate) fn edge_list_push(v: &mut EdgeList, x: usize)
    requires
        edge_list_items(*old(v)).len() < usize::MAX,
    ensures
        edge_list_items(*final(v)) == edge_list_items(*old(v)).push(x),
        edge_list_items(*final(v)).len() <= isize::MAX,
{
    v.items.push(x)
}

/// `SmallVec::len`: the number of items.
#[verifier::external_body]
pub(crate) fn edge_list_len(v: &EdgeList) -> (r: usize)
    ensures
        r == edge_list_items(*v).len(),
{
    v.items.len()
}

/// Indexing a `SmallVec`: the item at `i`.
#[verifier::external_body]
pub(crate) fn edge_list_get(v: &EdgeList, i: usize) -> (r: usize)
    requires
        i < edge_list_items(*v).len(),
    ensures
        r == edge_list_items(*v)[i as int],
{
    v.items[i]
}

/// Assigning through the index of a `SmallVec`: replaces the item at `i` with `x`.
#[verifier::external_body]
pub(crate) fn edge_list_set(v: &mut EdgeList, i: usize, x: usize)
    requires
        i < edge_list_items(*old(v)).len(),
    ensures
        edge_list_items(*final(v)) == edge_list_items(*old(v)).update(i as int, x),
{
    v.items[i] = x;
}

/// `SmallVec::remove`: removes the item at `i`, shifting the following items to the left.
#[verifier::external_body]
pub(crate) fn edge_list_remove(v: &mut EdgeList, i: usize) -> (r: usize)
    requires
        i < edge_list_items(*old(v)).len(),
    ensures
        r == edge_list_items(*old(v))[i as int],
        edge_list_items(*final(v)) == edge_list_items(*old(v)).remove(i as int),
{
    v.items.remove(i)
}

/// Sorting the slice of a `SmallVec` (`<[usize]>::sort`): the same items in non decreasing
/// order.
#[verifier::external_body]
pub(crate) fn edge_list_sort(v: &mut EdgeList)
    ensures
        sorted(edge_list_items(*final(v))),
        edge_list_items(*final(v)).to_multiset() == edge_list_items(*old(v)).to_multiset(),
{
    v.items.sort()
}

/// `SmallVec::dedup`: removes consecutive repeated items.
#[verifier::external_body]
pub(crate) fn edge_list_dedup(v: &mut EdgeList)
    ensures
        edge_list_items(*final(v)) == dedup_seq(edge_list_items(*old(v))),
{
    v.items.dedup()
}

/// `IndexSet::new`: an empty set.
#[verifier::external_body]
pub(crate) fn edge_set_new() -> (r: IndexSet<usize>)
    ensures
        edge_set_items(r) == Seq::<usize>::empty(),
{
    IndexSet::new()
}

/// `IndexSet::insert`: appends `x` unless it is already there, and says whether it appended.
#[verifier::external_body]
pub(crate) fn edge_set_insert(s: &mut IndexSet<usize>, x: usize) -> (r: bool)
    ensures
        r == !edge_set_items(*old(s)).contains(x),
        edge_set_items(*final(s)) == set_insert(edge_set_items(*old(s)), x),
{
    s.insert(x)
}

/// `IndexSet::remove` (which is `swap_remove`): takes `x` out by moving the last item into its
/// place, and says whether `x` was there.
#[verifier::external_body]
pub(crate) fn edge_set_remove(s: &mut IndexSet<usize>, x: usize) -> (r: bool)
    ensures
        r == edge_set_items(*old(s)).contains(x),
        edge_set_items(*final(s)) == set_swap_remove(edge_set_items(*old(s)), x),
{
    s.remove(&x)
}

/// `IndexSet::len`: the number of items.
#[verifier::external_body]
pub(crate) fn edge_set_len(s: &IndexSet<usize>) -> (r: usize)
    ensures
        r == edge_set_items(*s).len(),
{
    s.len()
}

/// `IndexSet::iter`, collected: the items in order.
#[verifier::external_body]
pub(crate) fn edge_set_to_vec(s: &IndexSet<usize>) -> (r: Vec<usize>)
    ensures
        r@ == edge_set_items(*s),
{
    s.iter().copied().collect()
}

/// `IndexSet::drain` over the whole set: the items in order, leaving the set empty.
#[verifier::external_body]
pub(crate) fn edge_set_drain(s: &mut IndexSet<usize>) -> (r: Vec<usize>)
    ensures
        r@ == edge_set_items(*old(s)),
        edge_set_items(*final(s)) == Seq::<usize>::empty(),
{
    s.drain(..).collect()
}

} // verus!
