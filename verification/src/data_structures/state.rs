use crate::data_structures::bit_iter::{word_bit, word_mask_64};
use vstd::prelude::*;

verus! {

/// The bits held by a sequence of 64 bit words, least significant bit of the first word first.
pub open spec fn words_to_bits(words: Seq<u64>) -> Seq<bool> {
    Seq::new(words.len() * 64, |i: int| word_bit(words[i / 64], i % 64))
}

proof fn lemma_or_bit(x: u64, b: u64, c: u64)
    by (bit_vector)
    requires
        b < 64,
        c < 64,
    ensures
        ((x | (1u64 << b)) & (1u64 << c) != 0) == (b == c || x & (1u64 << c) != 0),
{
}

proof fn lemma_clear_bit(x: u64, b: u64, c: u64)
    by (bit_vector)
    requires
        b < 64,
        c < 64,
    ensures
        ((x & !(1u64 << b)) & (1u64 << c) != 0) == (b != c && x & (1u64 << c) != 0),
{
}

proof fn lemma_zero_bit(c: u64)
    by (bit_vector)
    requires
        c < 64,
    ensures
        0u64 & (1u64 << c) == 0,
{
}

/// `num_integer::div_ceil` on `usize`: the quotient of `x` by `y`, rounded up.
#[verifier::external_body]
fn div_ceil(x: usize, y: usize) -> (r: usize)
    requires
        y > 0,
    ensures
        r == x / y + (if x % y == 0 { 0int } else { 1int }),
{
    num_integer::div_ceil(x, y)
}

/// A fixed size (at runtime) array of bits that keeps track of which bits have been set since
/// the last call to [State::tick].
///
/// The number of bits is always a multiple of 64.
#[derive(Debug, Clone)]
pub struct State {
    states: Vec<u64>,
    updated: Vec<u64>,
}

impl State {
    /// The value of every bit.
    pub closed spec fn states(&self) -> Seq<bool> {
        words_to_bits(self.states@)
    }

    /// For every bit, whether it has been set since the last tick.
    pub closed spec fn updated(&self) -> Seq<bool> {
        words_to_bits(self.updated@)
    }

    /// Both word vectors have the same length and the number of bits fits in a `usize`.
    pub closed spec fn wf(&self) -> bool {
        &&& self.states@.len() == self.updated@.len()
        &&& self.states@.len() * 64 <= usize::MAX
    }

    /// The number of bits.
    pub open spec fn bit_len(&self) -> nat {
        self.states().len()
    }

    /// The value and the updated record have one entry per bit.
    pub proof fn lemma_lengths(&self)
        requires
            self.wf(),
        ensures
            self.updated().len() == self.states().len(),
    {
    }

    /// Returns a new [State] with `n` bits, rounded up to a multiple of 64, all of which are
    /// `false` and not updated.
    pub fn new(n: usize) -> (s: State)
        requires
            n <= usize::MAX - 63,
        ensures
            s.wf(),
            s.bit_len() == 64 * (n / 64 + (if n % 64 == 0 { 0int } else { 1int })),
            forall|i: int| 0 <= i < s.bit_len() ==> !s.states()[i] && !s.updated()[i],
    {
        let words = div_ceil(n, 64);
        let states: Vec<u64> = vec![0u64; words];
        let updated: Vec<u64> = vec![0u64; words];
        let s = State { states, updated };
        proof {
            assert forall|i: int| 0 <= i < s.bit_len() implies !s.states()[i] && !s.updated()[i] by {
                assert(s.states@[i / 64] == 0u64);
                assert(s.updated@[i / 64] == 0u64);
                lemma_zero_bit((i % 64) as u64);
            }
        }
        s
    }

    /// Returns the bit at `index` of `words`.
    fn get_bit_from_vec(v: &Vec<u64>, index: usize) -> (r: bool)
        requires
            index < v@.len() * 64,
        ensures
            r == words_to_bits(v@)[index as int],
    {
        let (word_index, mask) = word_mask_64(index);
        v[word_index] & mask != 0
    }

    /// Returns true if the bit at `index` is set.
    pub fn get_state(&self, index: usize) -> (r: bool)
        requires
            self.wf(),
            index < self.bit_len(),
        ensures
            r == self.states()[index as int],
    {
        Self::get_bit_from_vec(&self.states, index)
    }

    /// Returns true if the bit at `index` has been set since the last call to [State::tick].
    pub fn get_updated(&self, index: usize) -> (r: bool)
        requires
            self.wf(),
            index < self.bit_len(),
        ensures
            r == self.updated()[index as int],
    {
        Self::get_bit_from_vec(&self.updated, index)
    }

    /// Returns the bit at `index` if it has been set since the last call to [State::tick],
    /// `None` otherwise.
    pub fn get_if_updated(&self, index: usize) -> (r: Option<bool>)
        requires
            self.wf(),
            index < self.bit_len(),
        ensures
            r == self.read_if_updated(index as int),
    {
        if self.get_updated(index) {
            Some(self.get_state(index))
        } else {
            None
        }
    }

    /// Sets the bit `index` of the word vector `v` to `value`.
    fn set_bit_in_vec(v: &mut Vec<u64>, index: usize, value: bool)
        requires
            index < old(v)@.len() * 64,
        ensures
            final(v)@.len() == old(v)@.len(),
            words_to_bits(final(v)@) == words_to_bits(old(v)@).update(index as int, value),
    {
        let (word_index, mask) = word_mask_64(index);
        let old_word = v[word_index];
        let new_word = if value { old_word | mask } else { old_word & !mask };
        v.set(word_index, new_word);
        proof {
            let b = (index % 64) as u64;
            assert forall|i: int| 0 <= i < old(v)@.len() * 64 implies #[trigger] words_to_bits(v@)[i] == words_to_bits(old(v)@).update(index as int, value)[i] by {
                let c = (i % 64) as u64;
                if i / 64 == index / 64 {
                    if value {
                        lemma_or_bit(old_word, b, c);
                    } else {
                        lemma_clear_bit(old_word, b, c);
                    }
                    assert(i == index as int <==> b == c);
                }
            }
            assert(words_to_bits(v@) =~= words_to_bits(old(v)@).update(index as int, value));
        }
    }

    /// The value that [State::get_if_updated] reads at `i`: the state if the bit was updated.
    pub open spec fn read_if_updated(&self, i: int) -> Option<bool> {
        if self.updated()[i] { Some(self.states()[i]) } else { None }
    }

    /// A bit reads back what was set, as its state and as an update; the other bits keep both.
    pub proof fn law_get_after_set(s1: &Self, s2: &Self, index: int, value: bool)
        requires
            s1.wf(),
            0 <= index < s1.bit_len(),
            s2.states() == s1.states().update(index, value),
            s2.updated() == s1.updated().update(index, true),
        ensures
            s2.states()[index] == value,
            s2.read_if_updated(index) == Some(value),
            forall|j: int| 0 <= j < s1.bit_len() && j != index ==> #[trigger] s2.read_if_updated(j) == s1.read_if_updated(j),
    {
        s1.lemma_lengths();
    }

    /// After a tick no bit reads as updated, and every state is kept.
    pub proof fn law_tick_clears_updates(s1: &Self, s2: &Self)
        requires
            s1.wf(),
            s2.states() == s1.states(),
            s2.updated().len() == s1.updated().len(),
            forall|i: int| 0 <= i < s2.updated().len() ==> !s2.updated()[i],
        ensures
            forall|i: int| 0 <= i < s1.bit_len() ==> #[trigger] s2.read_if_updated(i) is None && s2.states()[i] == s1.states()[i],
    {
        s1.lemma_lengths();
    }

    /// [State::get_state] for callers that know that `index` is in range.
    pub fn get_state_very_unsafely(&self, index: usize) -> (r: bool)
        requires
            self.wf(),
            index < self.bit_len(),
        ensures
            r == self.states()[index as int],
    {
        self.get_state(index)
    }

    /// [State::get_updated] for callers that know that `index` is in range.
    pub fn get_updated_very_unsafely(&self, index: usize) -> (r: bool)
        requires
            self.wf(),
            index < self.bit_len(),
        ensures
            r == self.updated()[index as int],
    {
        self.get_updated(index)
    }

    /// [State::get_if_updated] for callers that know that `index` is in range.
    pub fn get_if_updated_very_unsafely(&self, index: usize) -> (r: Option<bool>)
        requires
            self.wf(),
            index < self.bit_len(),
        ensures
            r == self.read_if_updated(index as int),
    {
        if self.get_updated_very_unsafely(index) {
            Some(self.get_state_very_unsafely(index))
        } else {
            None
        }
    }

    /// [State::set] for callers that know that `index` is in range.
    pub fn set_very_unsafely(&mut self, index: usize, value: bool)
        requires
            old(self).wf(),
            index < old(self).bit_len(),
        ensures
            final(self).wf(),
            final(self).states() == old(self).states().update(index as int, value),
            final(self).updated() == old(self).updated().update(index as int, true),
    {
        self.set(index, value);
    }

    /// Sets the bit at `index` to `value` and records that it has been updated.
    pub fn set(&mut self, index: usize, value: bool)
        requires
            old(self).wf(),
            index < old(self).bit_len(),
        ensures
            final(self).wf(),
            final(self).states() == old(self).states().update(index as int, value),
            final(self).updated() == old(self).updated().update(index as int, true),
    {
        Self::set_bit_in_vec(&mut self.states, index, value);
        Self::set_bit_in_vec(&mut self.updated, index, true);
    }

    /// Records that the bit at `index` has been updated without changing its value.
    pub fn set_updated(&mut self, index: usize)
        requires
            old(self).wf(),
            index < old(self).bit_len(),
        ensures
            final(self).wf(),
            final(self).states() == old(self).states(),
            final(self).updated() == old(self).updated().update(index as int, true),
    {
        Self::set_bit_in_vec(&mut self.updated, index, true);
    }

    /// Resets the updated record of every bit to false.
    pub fn tick(&mut self)
        requires
            old(self).wf(),
        ensures
            final(self).wf(),
            final(self).states() == old(self).states(),
            final(self).updated().len() == old(self).updated().len(),
            forall|i: int| 0 <= i < final(self).updated().len() ==> !final(self).updated()[i],
    {
        let mut i: usize = 0;
        while i < self.updated.len()
            invariant
                self.wf(),
                self.states@ == old(self).states@,
                self.updated@.len() == old(self).updated@.len(),
                i <= self.updated@.len(),
                forall|k: int| 0 <= k < i ==> self.updated@[k] == 0u64,
            decreases self.updated@.len() - i,
        {
            self.updated.set(i, 0);
            i = i + 1;
        }
        proof {
            assert forall|j: int| 0 <= j < self.updated().len() implies !self.updated()[j] by {
                assert(self.updated@[j / 64] == 0u64);
                lemma_zero_bit((j % 64) as u64);
            }
        }
    }

    /// Returns the number of bits in the [State].
    pub fn len(&self) -> (r: usize)
        requires
            self.wf(),
        ensures
            r == self.bit_len(),
    {
        self.states.len() * 64
    }
}

} // verus!
