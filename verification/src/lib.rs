//! A compact vector of bits stored in `u32` words.
//!
//! Bit `i` of a vector lives in word `i / 32`, at position `i % 32` of that
//! word. The last word may hold padding bits past the vector's length; their
//! values are part of the word contents that `words` exposes, and the
//! contracts below say what each operation does to them.
pub mod bits;
mod iter;
pub mod laws;
mod slice;
mod slice_mut;

pub use iter::Iter;
pub use slice::Slice;
pub use slice_mut::SliceMut;

use bits::{
    align_count, bit_of, bits, clear_padding, drained, fill, lemma_word_full_empty, max_words,
    read_bit, words_for, write_bit, SIZE_IN_BITS,
};
use vstd::prelude::*;

verus! {

/// The largest length a bit vector may have: its words must stay
/// addressable by a `usize` bit index.
pub open spec fn max_bits() -> int {
    max_words() * 32
}

/// A compact vector of bits.
#[derive(Debug)]
pub struct BitVec {
    storage: Vec<u32>,
    len: usize,
}

impl View for BitVec {
    type V = Seq<bool>;

    /// The bits `0..len`, in order.
    closed spec fn view(&self) -> Seq<bool> {
        Seq::new(self.len as nat, |i: int| bit_of(self.storage@, i))
    }
}

impl BitVec {
    /// The storage words, padding bits included.
    pub closed spec fn word_seq(&self) -> Seq<u32> {
        self.storage@
    }

    /// The length fits in the storage words, and every bit of the storage
    /// has an index that fits in a `usize`.
    pub closed spec fn wf(&self) -> bool {
        &&& self.len <= self.storage@.len() * 32
        &&& self.storage@.len() <= max_words()
    }

    /// The bits of the vector are the first `len` bits of its words.
    pub proof fn lemma_view_is_prefix_of_words(&self)
        requires
            self.wf(),
        ensures
            self@ == bits(self.word_seq()).subrange(0, self@.len() as int),
            self@.len() <= self.word_seq().len() * 32,
            self.word_seq().len() <= max_words(),
    {
        assert(self@ =~= bits(self.word_seq()).subrange(0, self@.len() as int));
    }

    /// Creates `size` bits initialized to `value`.
    pub fn new(size: usize, value: bool) -> (r: Self)
        requires
            size <= max_bits(),
        ensures
            r.wf(),
            r@ == Seq::new(size as nat, |i: int| value),
            r.word_seq() == Seq::new(
                words_for(size as int) as nat,
                |i: int| if value { 0xffff_ffffu32 } else { 0u32 },
            ),
            bits(r.word_seq()) == Seq::new((words_for(size as int) * 32) as nat, |i: int| value),
    {
        let value = if value { u32::MAX } else { 0 };
        let len = align_count(size);

        let mut bv = Self::default();
        bv.storage.resize(len, value);
        bv.len = bv.len + size;
        proof {
            let ghost word: u32 = if value == u32::MAX { 0xffff_ffffu32 } else { 0u32 };
            assert(bv.storage@ =~= Seq::new(len as nat, |i: int| word));
            assert forall|i: int| 0 <= i < size implies bit_of(bv.storage@, i) == (value
                == u32::MAX) by {
                lemma_word_full_empty((i % 32) as u32);
            }
            assert(bv@ =~= Seq::new(size as nat, |i: int| value == u32::MAX));
            assert forall|i: int| 0 <= i < len * 32 implies #[trigger] bits(bv.storage@)[i] == (value
                == u32::MAX) by {
                lemma_word_full_empty((i % 32) as u32);
            }
            assert(bits(bv.storage@) =~= Seq::new((len * 32) as nat, |i: int| value == u32::MAX));
        }
        bv
    }

    /// Appends `extra_capacity` zero bits.
    ///
    /// Every storage bit from the old length on is zero afterwards, so no
    /// bit left over from an earlier `set_all` or `drain` shows up among the
    /// new ones.
    pub fn grow(&mut self, extra_capacity: usize)
        requires
            old(self).wf(),
            old(self)@.len() + extra_capacity <= max_bits(),
        ensures
            final(self).wf(),
            final(self)@ == old(self)@ + Seq::new(extra_capacity as nat, |i: int| false),
            final(self).word_seq().len() == words_for(old(self)@.len() + extra_capacity),
            forall|j: int|
                old(self)@.len() <= j < final(self).word_seq().len() * 32 ==> !#[trigger] bits(
                    final(self).word_seq(),
                )[j],
    {
        let ghost old_words = self.storage@;
        let ghost old_len = self.len as int;
        // Words past the last one in use only hold stale bits.
        self.storage.truncate(align_count(self.len));
        let ghost kept = self.storage@;
        proof {
            assert(kept =~= old_words.subrange(0, kept.len() as int));
            assert forall|j: int| 0 <= j < kept.len() * 32 implies #[trigger] bit_of(kept, j)
                == bit_of(old_words, j) by {}
        }
        // Clear bits that might be set when using `set_all`.
        clear_padding(&mut self.storage, self.len);
        let ghost mid = self.storage@;
        self.len = self.len + extra_capacity;
        self.storage.resize(align_count(self.len), 0);
        proof {
            assert forall|j: int| 0 <= j < self.storage@.len() * 32 implies #[trigger] bit_of(
                self.storage@,
                j,
            ) == (j < old_len && bit_of(old_words, j)) by {
                if j / 32 < mid.len() {
                    assert(bit_of(mid, j) == (j < old_len && bit_of(kept, j)));
                } else {
                    lemma_word_full_empty((j % 32) as u32);
                }
            }
            assert forall|j: int|
                old_len <= j < self.storage@.len() * 32 implies !#[trigger] bits(self.storage@)[j] by {}
            assert forall|i: int| 0 <= i < self.len implies #[trigger] self@[i] == (old(self)@
                + Seq::new(extra_capacity as nat, |i: int| false))[i] by {}
            assert(self@ =~= old(self)@ + Seq::new(extra_capacity as nat, |i: int| false));
        }
    }

    /// Appends one bit.
    ///
    /// Note: Might grow the storage if needed.
    pub fn push(&mut self, value: bool)
        requires
            old(self).wf(),
            old(self)@.len() < max_bits(),
        ensures
            final(self).wf(),
            final(self)@ == old(self)@.push(value),
            bits(final(self).word_seq()) == bits(
                if old(self)@.len() == old(self).word_seq().len() * 32 {
                    old(self).word_seq().push(0u32)
                } else {
                    old(self).word_seq()
                },
            ).update(old(self)@.len() as int, value),
    {
        if self.capacity() == 0 {
            self.storage.resize(self.storage.len() + 1, 0);
            proof {
                assert(self.storage@ =~= old(self).storage@.push(0u32));
            }
        }
        let ghost mid = self.storage@;
        self.set_value(self.len, value);
        self.len = self.len + 1;
        proof {
            assert forall|i: int| 0 <= i < old(self).len implies bit_of(mid, i) == bit_of(
                old(self).storage@,
                i,
            ) by {}
            assert(self@ =~= old(self)@.push(value)) by {
                assert forall|i: int| 0 <= i < self.len implies #[trigger] self@[i] == old(
                    self,
                )@.push(value)[i] by {
                    assert(bits(self.storage@)[i] == bits(mid).update(old(self).len as int, value)[i]);
                }
            }
        }
    }

    /// Removes `range` and shifts bits to the left.
    ///
    /// The range must lie within `0..self.len()`.
    pub fn drain(&mut self, range: std::ops::Range<usize>)
        requires
            old(self).wf(),
            range.start <= range.end <= old(self)@.len(),
        ensures
            final(self).wf(),
            final(self)@ == old(self)@.subrange(0, range.start as int) + old(self)@.subrange(
                range.end as int,
                old(self)@.len() as int,
            ),
            final(self).word_seq().len() == old(self).word_seq().len(),
            bits(final(self).word_seq()) == drained(
                bits(old(self).word_seq()),
                range.start as int,
                range.end as int,
                old(self)@.len() as int,
            ),
    {
        let ghost old_bits = bits(self.storage@);
        let ghost gap = range.end - range.start;
        let n = self.len;
        let mut src = range.end;
        while src < n
            invariant
                self.wf(),
                self.len == n,
                n == old(self).len,
                range.start <= range.end <= src <= n,
                gap == range.end - range.start,
                self.storage@.len() == old(self).storage@.len(),
                old_bits == bits(old(self).storage@),
                bits(self.storage@) == Seq::new(
                    old_bits.len(),
                    |j: int|
                        if range.start <= j < src - gap {
                            old_bits[j + gap]
                        } else {
                            old_bits[j]
                        },
                ),
            decreases n - src,
        {
            let dst = range.start + (src - range.end);
            let value = read_bit(self.storage.as_slice(), src);
            proof {
                assert(bits(self.storage@)[src as int] == bit_of(self.storage@, src as int));
            }
            self.set_value(dst, value);
            src = src + 1;
            proof {
                assert(self@.len() == n);
                assert(bits(self.storage@) =~= Seq::new(
                    old_bits.len(),
                    |j: int|
                        if range.start <= j < src - gap {
                            old_bits[j + gap]
                        } else {
                            old_bits[j]
                        },
                ));
            }
        }
        self.len = self.len - (range.end - range.start);
        proof {
            assert(bits(self.storage@) =~= drained(
                old_bits,
                range.start as int,
                range.end as int,
                n as int,
            ));
            assert forall|i: int| 0 <= i < self.len implies #[trigger] self@[i] == (old(
                self,
            )@.subrange(0, range.start as int) + old(self)@.subrange(
                range.end as int,
                old(self)@.len() as int,
            ))[i] by {
                assert(self@[i] == bits(self.storage@)[i]);
            }
            assert(self@ =~= old(self)@.subrange(0, range.start as int) + old(self)@.subrange(
                range.end as int,
                old(self)@.len() as int,
            ));
        }
    }

    /// Borrows all bits as an immutable slice.
    pub fn as_slice(&self) -> (r: Slice<'_>)
        requires
            self.wf(),
        ensures
            r.wf(),
            r@ == self@,
            r.words_view() == self.word_seq(),
            r.offset() == 0,
    {
        let r = Slice::new(self.storage.as_slice(), 0, self.len);
        proof {
            assert(r@ =~= self@);
        }
        r
    }

    /// Borrows all bits as a mutable slice.
    ///
    /// Once the slice is gone, the vector holds the slice's words and the
    /// length the slice leaves in its borrowed length (only `drain` changes
    /// it).
    pub fn as_mut_slice(&mut self) -> (r: SliceMut<'_>)
        requires
            old(self).wf(),
        ensures
            r.wf(),
            r@ == old(self)@,
            r.words_view() == old(self).word_seq(),
            r.offset() == 0,
            r.window_start() == 0,
            r.window_end() == old(self).word_seq().len(),
            r.is_whole(),
            r.owner_len() == old(self)@.len(),
            final(self).word_seq() == final(r.cell())@,
            final(self)@.len() == *final(r.len_cell()),
            final(r.cell())@.len() == old(self).word_seq().len() && *final(r.len_cell())
                <= final(r.cell())@.len() * 32 ==> final(self).wf(),
    {
        let r = SliceMut::new(&mut self.storage, &mut self.len);
        proof {
            assert(r@ =~= old(self)@);
        }
        r
    }

    /// Iterates over all bits.
    pub fn iter(&self) -> (r: Iter<'_>)
        requires
            self.wf(),
        ensures
            r.wf(),
            r.remaining() == self@,
    {
        self.as_slice().iter()
    }

    /// Clears all bits.
    ///
    /// Note: Doesn't shrink storage, and leaves the padding bits as they are.
    pub fn unset_all(&mut self)
        requires
            old(self).wf(),
        ensures
            final(self).wf(),
            final(self)@ == Seq::new(old(self)@.len(), |i: int| false),
            final(self).word_seq().len() == old(self).word_seq().len(),
            bits(final(self).word_seq()) == fill(
                bits(old(self).word_seq()),
                0,
                old(self)@.len() as int,
                false,
            ),
    {
        let mut slice = self.as_mut_slice();
        slice.unset_all();
        proof {
            slice.lemma_settled();
            assert forall|i: int| 0 <= i < self.len implies #[trigger] self@[i] == false by {
                assert(self@[i] == bits(self.storage@)[i]);
            }
            assert(self@ =~= Seq::new(old(self)@.len(), |i: int| false));
        }
    }

    /// Sets all allocated words.
    ///
    /// Padding bits outside `0..self.len()` are also set.
    pub fn set_all(&mut self)
        requires
            old(self).wf(),
        ensures
            final(self).wf(),
            final(self)@ == Seq::new(old(self)@.len(), |i: int| true),
            final(self).word_seq() == Seq::new(
                old(self).word_seq().len(),
                |i: int| 0xffff_ffffu32,
            ),
    {
        let n = self.storage.len();
        let mut i: usize = 0;
        while i < n
            invariant
                n == self.storage@.len(),
                n == old(self).storage@.len(),
                self.len == old(self).len,
                i <= n,
                forall|j: int| 0 <= j < i ==> self.storage@[j] == 0xffff_ffffu32,
            decreases n - i,
        {
            self.storage.set(i, u32::MAX);
            i = i + 1;
        }
        proof {
            assert(self.storage@ =~= Seq::new(n as nat, |i: int| 0xffff_ffffu32));
            assert forall|i: int| 0 <= i < self.len implies #[trigger] self@[i] == true by {
                lemma_word_full_empty((i % 32) as u32);
            }
            assert(self@ =~= Seq::new(old(self)@.len(), |i: int| true));
        }
    }

    /// Sets every bit in `range`.
    ///
    /// `range` may reach past the length, into the padding bits, but must
    /// lie within the allocated storage.
    pub fn set_range(&mut self, range: std::ops::Range<usize>)
        requires
            old(self).wf(),
            range.start >= range.end || range.end <= old(self).word_seq().len() * 32,
        ensures
            final(self).wf(),
            final(self)@ == fill(old(self)@, range.start as int, range.end as int, true),
            final(self).word_seq().len() == old(self).word_seq().len(),
            bits(final(self).word_seq()) == fill(
                bits(old(self).word_seq()),
                range.start as int,
                range.end as int,
                true,
            ),
    {
        let mut slice = self.as_mut_slice();
        slice.set_range(range);
        proof {
            slice.lemma_settled();
            assert forall|i: int| 0 <= i < self.len implies #[trigger] self@[i] == fill(
                old(self)@,
                range.start as int,
                range.end as int,
                true,
            )[i] by {
                assert(self@[i] == bits(self.storage@)[i]);
            }
            assert(self@ =~= fill(old(self)@, range.start as int, range.end as int, true));
        }
    }

    /// Sets `index` to `value`.
    ///
    /// `index` may reach past the length, into the padding bits, but must
    /// lie within the allocated storage.
    #[inline]
    pub fn set_value(&mut self, index: usize, value: bool)
        requires
            old(self).wf(),
            index < old(self).word_seq().len() * 32,
        ensures
            final(self).wf(),
            final(self).word_seq().len() == old(self).word_seq().len(),
            bits(final(self).word_seq()) == bits(old(self).word_seq()).update(index as int, value),
            final(self)@ == if index < old(self)@.len() {
                old(self)@.update(index as int, value)
            } else {
                old(self)@
            },
    {
        write_bit(&mut self.storage, index, value);
        proof {
            assert forall|i: int| 0 <= i < self.len implies bit_of(self.storage@, i) == bits(
                self.storage@,
            )[i] by {}
            assert forall|i: int| 0 <= i < self.len implies bit_of(old(self).storage@, i) == bits(
                old(self).storage@,
            )[i] by {}
            if index < self.len {
                assert(self@ =~= old(self)@.update(index as int, value));
            } else {
                assert(self@ =~= old(self)@);
            }
        }
    }

    /// Sets `index` to `true`.
    ///
    /// `index` must lie within the allocated storage.
    #[inline]
    pub fn set(&mut self, index: usize)
        requires
            old(self).wf(),
            index < old(self).word_seq().len() * 32,
        ensures
            final(self).wf(),
            final(self).word_seq().len() == old(self).word_seq().len(),
            bits(final(self).word_seq()) == bits(old(self).word_seq()).update(index as int, true),
            final(self)@ == if index < old(self)@.len() {
                old(self)@.update(index as int, true)
            } else {
                old(self)@
            },
    {
        self.set_value(index, true);
    }

    /// Sets `index` to `false`.
    ///
    /// `index` must lie within the allocated storage.
    #[inline]
    pub fn unset(&mut self, index: usize)
        requires
            old(self).wf(),
            index < old(self).word_seq().len() * 32,
        ensures
            final(self).wf(),
            final(self).word_seq().len() == old(self).word_seq().len(),
            bits(final(self).word_seq()) == bits(old(self).word_seq()).update(index as int, false),
            final(self)@ == if index < old(self)@.len() {
                old(self)@.update(index as int, false)
            } else {
                old(self)@
            },
    {
        self.set_value(index, false);
    }

    /// Returns the bit at `index`, or `None` if out of bounds.
    #[inline]
    pub fn get(&self, index: usize) -> (r: Option<bool>)
        requires
            self.wf(),
        ensures
            r == if index < self@.len() {
                Some(self@[index as int])
            } else {
                None
            },
    {
        if index < self.len {
            Some(read_bit(self.storage.as_slice(), index))
        } else {
            None
        }
    }

    /// Returns the number of bits.
    #[inline]
    pub fn len(&self) -> (r: usize)
        ensures
            r == self@.len(),
    {
        self.len
    }

    /// Returns the backing words.
    ///
    /// The last word may contain padding bits outside `0..self.len()`.
    #[inline]
    pub fn words(&self) -> (r: &[u32])
        ensures
            r@ == self.word_seq(),
    {
        self.storage.as_slice()
    }

    /// Returns the number of bits that can still be pushed without growing
    /// the storage.
    #[inline]
    pub fn capacity(&self) -> (r: usize)
        requires
            self.wf(),
        ensures
            r == self.word_seq().len() * 32 - self@.len(),
    {
        let bits = SIZE_IN_BITS * self.storage.len();
        bits - self.len
    }
}

impl<'a> From<&'a [bool]> for BitVec {
    /// Builds a vector holding the given booleans, in order; the padding
    /// bits of the last word are zero.
    ///
    /// A slice longer than `max_bits()` gives an empty vector: its bits
    /// could not all be indexed by a `usize`. No slice of `bool` is that
    /// long, since a slice holds at most `isize::MAX` bytes.
    fn from(booleans: &'a [bool]) -> (r: Self)
        ensures
            r.wf(),
            booleans@.len() <= max_bits() ==> r@ == booleans@,
            booleans@.len() <= max_bits() ==> r.word_seq().len() == words_for(
                booleans@.len() as int,
            ),
            booleans@.len() <= max_bits() ==> forall|j: int|
                booleans@.len() <= j < r.word_seq().len() * 32 ==> !#[trigger] bits(
                    r.word_seq(),
                )[j],
            booleans@.len() > max_bits() ==> r@ == Seq::<bool>::empty(),
            booleans@.len() <= isize::MAX ==> r@ == booleans@,
            booleans@.len() <= isize::MAX ==> r@.len() == booleans@.len(),
    {
        proof {
            crate::laws::law_every_slice_fits();
        }
        if booleans.len() == 0 || booleans.len() > usize::MAX / SIZE_IN_BITS * SIZE_IN_BITS {
            return Self::default();
        }
        let n = booleans.len();
        let mut v = BitVec::new(n, false);
        proof {
            assert forall|j: int| 0 <= j < v.word_seq().len() * 32 implies !#[trigger] bits(
                v.word_seq(),
            )[j] by {
                lemma_word_full_empty((j % 32) as u32);
            }
        }
        let mut i: usize = 0;
        while i < n
            invariant
                v.wf(),
                n == booleans@.len(),
                i <= n,
                v@.len() == n,
                v.word_seq().len() == words_for(n as int),
                forall|j: int| 0 <= j < i ==> #[trigger] v@[j] == booleans@[j],
                forall|j: int|
                    i <= j < v.word_seq().len() * 32 ==> !#[trigger] bits(v.word_seq())[j],
            decreases n - i,
        {
            v.set_value(i, booleans[i]);
            i = i + 1;
        }
        proof {
            assert(v@ =~= booleans@);
        }
        v
    }
}

impl<'a> vstd::std_specs::convert::FromSpecImpl<&'a [bool]> for BitVec {
    /// The contract of `from` stands on the impl above; no spec value is
    /// claimed to equal its result.
    open spec fn obeys_from_spec() -> bool {
        false
    }

    open spec fn from_spec(v: &'a [bool]) -> Self {
        vstd::pervasive::arbitrary()
    }
}

impl std::ops::Index<usize> for BitVec {
    type Output = bool;

    /// Returns the bit at `index`; `index` must be within `0..self.len()`.
    #[inline]
    fn index(&self, index: usize) -> (r: &bool)
        ensures
            *r == self@[index as int],
    {
        let value = self.get(index).unwrap();
        if value {
            &true
        } else {
            &false
        }
    }
}

impl vstd::std_specs::core::IndexSpecImpl<usize> for BitVec {
    open spec fn index_req(&self, index: &usize) -> bool {
        self.wf() && *index < self@.len()
    }
}

impl Default for BitVec {
    /// An empty vector with no storage.
    fn default() -> (r: Self)
        ensures
            r.wf(),
            r@ == Seq::<bool>::empty(),
            r.word_seq() == Seq::<u32>::empty(),
    {
        let r = BitVec { storage: Vec::new(), len: 0 };
        proof {
            assert(r@ =~= Seq::<bool>::empty());
        }
        r
    }
}

} // verus!
