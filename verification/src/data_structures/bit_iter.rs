use smallvec::SmallVec;
use vstd::prelude::*;

verus! {

/// The bit `b` (0 is the least significant) of the 64 bit word `w`.
pub open spec fn word_bit(w: u64, b: int) -> bool {
    w & (1u64 << (b as u64)) != 0
}

/// The bit `b` (0 is the least significant) of the byte `w`.
pub open spec fn byte_bit(w: u8, b: int) -> bool {
    w & (1u8 << (b as u8)) != 0
}

/// Returns the index and mask necessary to access the bit at `index` in a `&[u64]`.
pub fn word_mask_64(index: usize) -> (r: (usize, u64))
    ensures
        r.0 == index / 64,
        r.1 == 1u64 << ((index % 64) as u64),
{
    let word = index / 64;
    let mask = 1u64 << ((index % 64) as u64);
    (word, mask)
}

/// Returns the index and mask necessary to access the bit at `index` in a `&[u8]`.
pub fn word_mask_8(index: usize) -> (r: (usize, u8))
    ensures
        r.0 == index / 8,
        r.1 == 1u8 << ((index % 8) as u8),
{
    let word = index / 8;
    let mask = 1u8 << ((index % 8) as u8);
    (word, mask)
}

/// The bytes of `v`, least significant first, `n` of them: the higher bytes are dropped and
/// missing ones are zero.
pub open spec fn le_bytes(v: nat, n: nat) -> Seq<u8>
    decreases n,
{
    if n == 0 {
        Seq::empty()
    } else {
        seq![(v % 256) as u8] + le_bytes(v / 256, (n - 1) as nat)
    }
}

/// `le_bytes(v, n)` has `n` bytes.
pub proof fn lemma_le_bytes_len(v: nat, n: nat)
    ensures
        le_bytes(v, n).len() == n,
    decreases n,
{
    if n > 0 {
        lemma_le_bytes_len(v / 256, (n - 1) as nat);
    }
}

/// The bits of `bytes`, the least significant bit of the first byte first.
pub open spec fn bytes_bits(bytes: Seq<u8>) -> Seq<bool> {
    Seq::new(bytes.len() * 8, |k: int| byte_bit(bytes[k / 8], k % 8))
}

/// Returns the `n` lowest bytes of `v`, least significant first.
pub fn le_bytes_of(v: u128, n: usize) -> (r: Vec<u8>)
    ensures
        r@ == le_bytes(v as nat, n as nat),
{
    let mut r: Vec<u8> = Vec::new();
    let mut x: u128 = v;
    let mut k: usize = 0;
    while k < n
        invariant
            k <= n,
            r@ + le_bytes(x as nat, (n - k) as nat) == le_bytes(v as nat, n as nat),
        decreases n - k,
    {
        let ghost rest = le_bytes(x as nat, (n - k) as nat);
        let ghost tail = le_bytes((x / 256) as nat, (n - k - 1) as nat);
        assert(rest == seq![(x % 256) as u8] + tail);
        r.push((x % 256) as u8);
        proof {
            assert(r@ + tail == (r@.drop_last() + seq![(x % 256) as u8]) + tail);
            assert((r@.drop_last() + seq![(x % 256) as u8]) + tail == r@.drop_last() + (seq![(x % 256) as u8] + tail));
        }
        x = x / 256;
        k = k + 1;
    }
    proof {
        assert(le_bytes(x as nat, 0) == Seq::<u8>::empty());
        assert(r@ + Seq::<u8>::empty() == r@);
    }
    r
}

/// A value with a fixed layout in bytes, which a [BitIter] walks bit by bit.
pub trait ToBytes: Copy {
    /// The bytes of the value, least significant first.
    spec fn spec_bytes(&self) -> Seq<u8>;

    /// Returns the bytes of the value, least significant first.
    fn to_bytes(&self) -> (r: Vec<u8>)
        ensures
            r@ == self.spec_bytes(),
    ;

    /// Returns the number of bytes of every value of the type.
    fn byte_len() -> (r: usize)
        ensures
            forall|v: Self| (#[trigger] v.spec_bytes()).len() == r,
            r * 8 <= u16::MAX,
    ;
}

impl ToBytes for u8 {
    open spec fn spec_bytes(&self) -> Seq<u8> {
        le_bytes(*self as nat, 1)
    }

    fn to_bytes(&self) -> (r: Vec<u8>) {
        le_bytes_of(*self as u128, 1)
    }

    fn byte_len() -> (r: usize) {
        proof {
            assert forall|v: u8| (#[trigger] v.spec_bytes()).len() == 1 by {
                lemma_le_bytes_len(v as nat, 1);
            }
        }
        1
    }
}

impl ToBytes for u16 {
    open spec fn spec_bytes(&self) -> Seq<u8> {
        le_bytes(*self as nat, 2)
    }

    fn to_bytes(&self) -> (r: Vec<u8>) {
        le_bytes_of(*self as u128, 2)
    }

    fn byte_len() -> (r: usize) {
        proof {
            assert forall|v: u16| (#[trigger] v.spec_bytes()).len() == 2 by {
                lemma_le_bytes_len(v as nat, 2);
            }
        }
        2
    }
}

impl ToBytes for u32 {
    open spec fn spec_bytes(&self) -> Seq<u8> {
        le_bytes(*self as nat, 4)
    }

    fn to_bytes(&self) -> (r: Vec<u8>) {
        le_bytes_of(*self as u128, 4)
    }

    fn byte_len() -> (r: usize) {
        proof {
            assert forall|v: u32| (#[trigger] v.spec_bytes()).len() == 4 by {
                lemma_le_bytes_len(v as nat, 4);
            }
        }
        4
    }
}

impl ToBytes for u64 {
    open spec fn spec_bytes(&self) -> Seq<u8> {
        le_bytes(*self as nat, 8)
    }

    fn to_bytes(&self) -> (r: Vec<u8>) {
        le_bytes_of(*self as u128, 8)
    }

    fn byte_len() -> (r: usize) {
        proof {
            assert forall|v: u64| (#[trigger] v.spec_bytes()).len() == 8 by {
                lemma_le_bytes_len(v as nat, 8);
            }
        }
        8
    }
}

impl ToBytes for u128 {
    open spec fn spec_bytes(&self) -> Seq<u8> {
        le_bytes(*self as nat, 16)
    }

    fn to_bytes(&self) -> (r: Vec<u8>) {
        le_bytes_of(*self, 16)
    }

    fn byte_len() -> (r: usize) {
        proof {
            assert forall|v: u128| (#[trigger] v.spec_bytes()).len() == 16 by {
                lemma_le_bytes_len(v as nat, 16);
            }
        }
        16
    }
}

impl ToBytes for usize {
    open spec fn spec_bytes(&self) -> Seq<u8> {
        le_bytes(*self as nat, (usize::BITS / 8) as nat)
    }

    fn to_bytes(&self) -> (r: Vec<u8>) {
        le_bytes_of(*self as u128, (usize::BITS / 8) as usize)
    }

    fn byte_len() -> (r: usize) {
        proof {
            assert forall|v: usize| (#[trigger] v.spec_bytes()).len() == (usize::BITS / 8) as nat by {
                lemma_le_bytes_len(v as nat, (usize::BITS / 8) as nat);
            }
        }
        (usize::BITS / 8) as usize
    }
}

impl ToBytes for i8 {
    open spec fn spec_bytes(&self) -> Seq<u8> {
        le_bytes((*self as u8) as nat, 1)
    }

    fn to_bytes(&self) -> (r: Vec<u8>) {
        le_bytes_of((*self as u8) as u128, 1)
    }

    fn byte_len() -> (r: usize) {
        proof {
            assert forall|v: i8| (#[trigger] v.spec_bytes()).len() == 1 by {
                lemma_le_bytes_len((v as u8) as nat, 1);
            }
        }
        1
    }
}

impl ToBytes for i16 {
    open spec fn spec_bytes(&self) -> Seq<u8> {
        le_bytes((*self as u16) as nat, 2)
    }

    fn to_bytes(&self) -> (r: Vec<u8>) {
        le_bytes_of((*self as u16) as u128, 2)
    }

    fn byte_len() -> (r: usize) {
        proof {
            assert forall|v: i16| (#[trigger] v.spec_bytes()).len() == 2 by {
                lemma_le_bytes_len((v as u16) as nat, 2);
            }
        }
        2
    }
}

impl ToBytes for i32 {
    open spec fn spec_bytes(&self) -> Seq<u8> {
        le_bytes((*self as u32) as nat, 4)
    }

    fn to_bytes(&self) -> (r: Vec<u8>) {
        le_bytes_of((*self as u32) as u128, 4)
    }

    fn byte_len() -> (r: usize) {
        proof {
            assert forall|v: i32| (#[trigger] v.spec_bytes()).len() == 4 by {
                lemma_le_bytes_len((v as u32) as nat, 4);
            }
        }
        4
    }
}

impl ToBytes for i64 {
    open spec fn spec_bytes(&self) -> Seq<u8> {
        le_bytes((*self as u64) as nat, 8)
    }

    fn to_bytes(&self) -> (r: Vec<u8>) {
        le_bytes_of((*self as u64) as u128, 8)
    }

    fn byte_len() -> (r: usize) {
        proof {
            assert forall|v: i64| (#[trigger] v.spec_bytes()).len() == 8 by {
                lemma_le_bytes_len((v as u64) as nat, 8);
            }
        }
        8
    }
}

impl ToBytes for i128 {
    open spec fn spec_bytes(&self) -> Seq<u8> {
        le_bytes((*self as u128) as nat, 16)
    }

    fn to_bytes(&self) -> (r: Vec<u8>) {
        le_bytes_of(*self as u128, 16)
    }

    fn byte_len() -> (r: usize) {
        proof {
            assert forall|v: i128| (#[trigger] v.spec_bytes()).len() == 16 by {
                lemma_le_bytes_len((v as u128) as nat, 16);
            }
        }
        16
    }
}

/// Bytes kept in a `smallvec::SmallVec` with eight inline slots.
#[verifier::external_body]
pub struct ByteList {
    items: SmallVec<[u8; 8]>,
}

/// The bytes of a byte list, in order.
pub uninterp spec fn byte_list_items(v: ByteList) -> Seq<u8>;

/// `SmallVec::from_slice`: a list holding the bytes of `s`, in order.
#[verifier::external_body]
fn byte_list_from_slice(s: &[u8]) -> (r: ByteList)
    ensures
        byte_list_items(r) == s@,
{
    ByteList { items: SmallVec::from_slice(s) }
}

/// `SmallVec::len`: the number of bytes.
#[verifier::external_body]
fn byte_list_len(v: &ByteList) -> (r: usize)
    ensures
        r == byte_list_items(*v).len(),
{
    v.items.len()
}

/// Indexing a `SmallVec`: the byte at `i`.
#[verifier::external_body]
fn byte_list_get(v: &ByteList, i: usize) -> (r: u8)
    requires
        i < byte_list_items(*v).len(),
    ensures
        r == byte_list_items(*v)[i as int],
{
    v.items[i]
}

/// Walks the bits of a value, the least significant bit of its first byte first.
pub struct BitIter {
    item: ByteList,
    i: u16,
}

impl BitIter {
    /// The bytes being walked.
    pub closed spec fn bytes(&self) -> Seq<u8> {
        byte_list_items(self.item)
    }

    /// The number of bits already handed out.
    pub closed spec fn position(&self) -> nat {
        self.i as nat
    }

    /// The bits still to come.
    pub open spec fn remaining(&self) -> Seq<bool> {
        bytes_bits(self.bytes()).subrange(self.position() as int, bytes_bits(self.bytes()).len() as int)
    }

    /// The invariant of a [BitIter]: its bits can be counted in 16 bits.
    pub open spec fn wf(&self) -> bool {
        &&& self.bytes().len() * 8 <= u16::MAX
        &&& self.position() <= self.bytes().len() * 8
    }

    /// Returns a [BitIter] over the bits of `bytes`.
    pub fn from_bytes(bytes: &[u8]) -> (r: BitIter)
        requires
            bytes@.len() * 8 <= u16::MAX,
        ensures
            r.wf(),
            r.bytes() == bytes@,
            r.position() == 0,
            r.remaining() == bytes_bits(bytes@),
    {
        BitIter { item: byte_list_from_slice(bytes), i: 0 }
    }

    /// Returns a [BitIter] over the bits of `item`, least significant first.
    pub fn new<T: ToBytes>(item: T) -> (r: BitIter)
        requires
            item.spec_bytes().len() * 8 <= u16::MAX,
        ensures
            r.wf(),
            r.bytes() == item.spec_bytes(),
            r.position() == 0,
            r.remaining() == bytes_bits(item.spec_bytes()),
    {
        let bytes = item.to_bytes();
        Self::from_bytes(bytes.as_slice())
    }

    /// Returns true if every byte being walked is 0.
    pub fn is_zero(&self) -> (r: bool)
        ensures
            r == (forall|k: int| 0 <= k < self.bytes().len() ==> self.bytes()[k] == 0),
    {
        let n = byte_list_len(&self.item);
        let mut k: usize = 0;
        while k < n
            invariant
                n == self.bytes().len(),
                k <= n,
                forall|j: int| 0 <= j < k ==> self.bytes()[j] == 0,
            decreases n - k,
        {
            if byte_list_get(&self.item, k) != 0 {
                return false;
            }
            k = k + 1;
        }
        true
    }

    /// Returns the next bit, or `None` once every bit has been handed out.
    pub fn next(&mut self) -> (r: Option<bool>)
        requires
            old(self).wf(),
        ensures
            final(self).wf(),
            final(self).bytes() == old(self).bytes(),
            old(self).remaining().len() == 0 ==> r is None && final(self).position() == old(self).position(),
            old(self).remaining().len() > 0 ==> r == Some(old(self).remaining()[0])
                && final(self).position() == old(self).position() + 1,
            final(self).remaining() == (if old(self).remaining().len() == 0 {
                old(self).remaining()
            } else {
                old(self).remaining().drop_first()
            }),
    {
        let n = byte_list_len(&self.item);
        if self.i as usize == n * 8 {
            return None;
        }
        let (word_index, word_mask) = word_mask_8(self.i as usize);
        let result = byte_list_get(&self.item, word_index) & word_mask != 0;
        proof {
            let k = self.i as int;
            let b = (k % 8) as u8;
            assert(word_mask == 1u8 << b);
            assert(result == byte_bit(self.bytes()[k / 8], k % 8));
        }
        self.i = self.i + 1;
        proof {
            let all = bytes_bits(self.bytes());
            assert(self.remaining() =~= old(self).remaining().drop_first());
        }
        Some(result)
    }

    /// Returns the bits still to come, in order, leaving none.
    pub fn collect_bits(&mut self) -> (r: Vec<bool>)
        requires
            old(self).wf(),
        ensures
            final(self).wf(),
            r@ == old(self).remaining(),
            final(self).remaining().len() == 0,
    {
        let mut r: Vec<bool> = Vec::new();
        loop
            invariant
                self.wf(),
                self.bytes() == old(self).bytes(),
                r@ + self.remaining() == old(self).remaining(),
            ensures
                self.wf(),
                r@ == old(self).remaining(),
                self.remaining().len() == 0,
            decreases self.remaining().len(),
        {
            let ghost rest = self.remaining();
            match self.next() {
                None => {
                    assert(r@ + rest == r@);
                    break;
                },
                Some(b) => {
                    r.push(b);
                    assert(r@ + self.remaining() =~= old(self).remaining());
                },
            }
        }
        r
    }
}

} // verus!
