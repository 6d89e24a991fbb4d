//! Mutable views over a range of bits.
use crate::bits::{
    bit_index, bit_of, bits, drained, fill, max_words, read_bit, storage_range, words_for,
    write_bit, write_word, SIZE_IN_BITS,
};
use crate::iter::Iter;
use crate::slice::Slice;
use vstd::prelude::*;

verus! {

/// A mutable view over a range of bits.
///
/// It borrows the whole word vector and the length of the vector it came
/// from, and remembers the window of words that the range spans
/// (`first..last`) and the range of bits inside that window (`start..end`,
/// counted from bit 0 of word `first`).
#[derive(Debug)]
pub struct SliceMut<'a> {
    storage: &'a mut Vec<u32>,
    len: &'a mut usize,
    first: usize,
    last: usize,
    start: usize,
    end: usize,
}

impl<'a> View for SliceMut<'a> {
    type V = Seq<bool>;

    /// The bits of the range, in order.
    closed spec fn view(&self) -> Seq<bool> {
        Seq::new(
            (self.end - self.start) as nat,
            |k: int| bit_of(self.storage@, self.first * 32 + self.start + k),
        )
    }
}

impl<'a> SliceMut<'a> {
    /// The whole borrowed word vector, as it is now.
    pub closed spec fn words_view(&self) -> Seq<u32> {
        self.storage@
    }

    /// The borrowed word vector; its final value is what the lender sees
    /// once the slice is gone.
    pub closed spec fn cell(&self) -> &'a mut Vec<u32> {
        self.storage
    }

    /// The borrowed length of the vector the slice came from; its final
    /// value is the vector's length once the slice is gone.
    pub closed spec fn len_cell(&self) -> &'a mut usize {
        self.len
    }

    /// The length of the vector the slice came from, as it is now.
    pub closed spec fn owner_len(&self) -> int {
        *self.len as int
    }

    /// Whether the slice covers all the bits of the vector it came from.
    pub open spec fn is_whole(&self) -> bool {
        self.offset() == 0 && self@.len() == self.owner_len()
    }

    /// Position, among the bits of `words_view()`, of the slice's first bit.
    pub closed spec fn offset(&self) -> int {
        self.first * 32 + self.start
    }

    /// First word of the window the slice spans.
    pub closed spec fn window_start(&self) -> int {
        self.first as int
    }

    /// One past the last word of the window the slice spans.
    pub closed spec fn window_end(&self) -> int {
        self.last as int
    }

    /// The window lies within the words, the range within the window, and
    /// every bit of the words has an index that fits in a `usize`.
    pub closed spec fn wf(&self) -> bool {
        &&& self.first <= self.last <= self.storage@.len() <= max_words()
        &&& self.start <= self.end <= (self.last - self.first) * 32
        &&& *self.len <= self.storage@.len() * 32
    }

    /// Both slices view the same bits of words of the same length.
    pub open spec fn same_frame(&self, other: &Self) -> bool {
        &&& self.offset() == other.offset()
        &&& self.window_start() == other.window_start()
        &&& self.window_end() == other.window_end()
        &&& self.words_view().len() == other.words_view().len()
        &&& self.owner_len() == other.owner_len()
    }

    /// The bits of a slice are the bits of its words from `offset()` on,
    /// and the slice ends within its window.
    pub proof fn lemma_view_is_window_of_words(&self)
        requires
            self.wf(),
        ensures
            self@ == bits(self.words_view()).subrange(
                self.offset(),
                self.offset() + self@.len(),
            ),
            self.window_start() * 32 <= self.offset(),
            self.offset() + self@.len() <= self.window_end() * 32,
            0 <= self.window_start() <= self.window_end() <= self.words_view().len(),
            self.words_view().len() <= max_words(),
    {
        assert(self@ =~= bits(self.words_view()).subrange(
            self.offset(),
            self.offset() + self@.len(),
        ));
    }

    /// Once a slice will not be written to again, its words and its owner's
    /// length are the ones the lender gets back.
    pub proof fn lemma_settled(&self)
        requires
            has_resolved(*self),
        ensures
            final(self.cell())@ == self.words_view(),
            *final(self.len_cell()) == self.owner_len(),
    {
    }

    /// Views the bits `0..*len` of all of `storage`.
    pub(crate) fn new(storage: &'a mut Vec<u32>, len: &'a mut usize) -> (r: Self)
        requires
            *old(len) <= old(storage)@.len() * 32,
            old(storage)@.len() <= max_words(),
        ensures
            r.wf(),
            r.is_whole(),
            r.words_view() == old(storage)@,
            r.owner_len() == *old(len),
            r.offset() == 0,
            r.window_start() == 0,
            r.window_end() == old(storage)@.len(),
            r@ == bits(old(storage)@).subrange(0, *old(len) as int),
            final(storage)@ == final(r.cell())@,
            *final(len) == *final(r.len_cell()),
    {
        let last = storage.len();
        let end = *len;
        let r = SliceMut { storage, len, first: 0, last, start: 0, end };
        proof {
            assert(r@ =~= bits(r.storage@).subrange(0, end as int));
        }
        r
    }

    /// Sets `index` to `value`.
    ///
    /// `index` may reach past the slice, but must lie within its window.
    pub fn set_value(&mut self, index: usize, value: bool)
        requires
            old(self).wf(),
            old(self).offset() + index < old(self).window_end() * 32,
        ensures
            final(self).wf(),
            final(self).same_frame(old(self)),
            final(self)@.len() == old(self)@.len(),
            final(final(self).cell())@ == final(old(self).cell())@,
            *final(final(self).len_cell()) == *final(old(self).len_cell()),
            bits(final(self).words_view()) == bits(old(self).words_view()).update(
                old(self).offset() + index,
                value,
            ),
            final(self)@ == if index < old(self)@.len() {
                old(self)@.update(index as int, value)
            } else {
                old(self)@
            },
    {
        let index = self.relative_index(index);
        write_bit(self.storage, self.first * SIZE_IN_BITS + index, value);
        proof {
            let off = old(self).offset();
            assert forall|k: int| 0 <= k < self@.len() implies #[trigger] self@[k] == bits(
                self.storage@,
            )[off + k] by {}
            assert forall|k: int| 0 <= k < old(self)@.len() implies #[trigger] old(self)@[k]
                == bits(old(self).storage@)[off + k] by {}
            if index < old(self).end {
                assert(self@ =~= old(self)@.update((index - old(self).start) as int, value));
            } else {
                assert(self@ =~= old(self)@);
            }
        }
    }

    /// Sets `index` to `true`.
    ///
    /// `index` may reach past the slice, but must lie within its window.
    #[inline]
    pub fn set(&mut self, index: usize)
        requires
            old(self).wf(),
            old(self).offset() + index < old(self).window_end() * 32,
        ensures
            final(self).wf(),
            final(self).same_frame(old(self)),
            final(self)@.len() == old(self)@.len(),
            final(final(self).cell())@ == final(old(self).cell())@,
            *final(final(self).len_cell()) == *final(old(self).len_cell()),
            bits(final(self).words_view()) == bits(old(self).words_view()).update(
                old(self).offset() + index,
                true,
            ),
            final(self)@ == if index < old(self)@.len() {
                old(self)@.update(index as int, true)
            } else {
                old(self)@
            },
    {
        self.set_value(index, true);
    }

    /// Sets `index` to `false`.
    ///
    /// `index` may reach past the slice, but must lie within its window.
    #[inline]
    pub fn unset(&mut self, index: usize)
        requires
            old(self).wf(),
            old(self).offset() + index < old(self).window_end() * 32,
        ensures
            final(self).wf(),
            final(self).same_frame(old(self)),
            final(self)@.len() == old(self)@.len(),
            final(final(self).cell())@ == final(old(self).cell())@,
            *final(final(self).len_cell()) == *final(old(self).len_cell()),
            bits(final(self).words_view()) == bits(old(self).words_view()).update(
                old(self).offset() + index,
                false,
            ),
            final(self)@ == if index < old(self)@.len() {
                old(self)@.update(index as int, false)
            } else {
                old(self)@
            },
    {
        self.set_value(index, false);
    }

    /// Returns the bit at `index`, counted from the start of the slice,
    /// without checking it against the slice's length.
    ///
    /// `index` may reach past the slice, but must lie within its window.
    #[inline]
    pub fn get_unsafe(&self, index: usize) -> (r: bool)
        requires
            self.wf(),
            self.offset() + index < self.window_end() * 32,
        ensures
            r == bits(self.words_view())[self.offset() + index],
    {
        let index = self.relative_index(index);
        read_bit(self.storage.as_slice(), self.first * SIZE_IN_BITS + index)
    }

    /// Returns the bit at `index`, or `None` if out of bounds.
    #[inline]
    pub fn get(&self, index: usize) -> (r: Option<bool>)
        requires
            self.wf(),
        ensures
            r == if index < self@.len() {
                Some(self@[index as int])
            } else {
                None
            },
    {
        if index < self.len() {
            Some(self.get_unsafe(index))
        } else {
            None
        }
    }

    /// Returns the number of bits in the slice.
    #[inline]
    pub fn len(&self) -> (r: usize)
        requires
            self.wf(),
        ensures
            r == self@.len(),
    {
        self.end - self.start
    }

    /// Returns the backing words spanned by this slice.
    ///
    /// Note: The first and last words may contain bits outside this slice.
    #[inline]
    pub fn words(&self) -> (r: &[u32])
        requires
            self.wf(),
        ensures
            r@ == self.words_view().subrange(self.window_start(), self.window_end()),
    {
        vstd::slice::slice_subrange(self.storage.as_slice(), self.first, self.last)
    }

    /// Iterates over the bits in this slice.
    #[inline]
    pub fn iter(&self) -> (r: Iter<'_>)
        requires
            self.wf(),
        ensures
            r.wf(),
            r.remaining() == self@,
    {
        let words = self.words();
        let slice = Slice::new(words, self.start, self.end);
        proof {
            assert forall|k: int| 0 <= k < self@.len() implies #[trigger] slice@[k] == self@[k] by {
                crate::bits::lemma_bit_of_subrange(
                    self.storage@,
                    self.first as int,
                    self.last as int,
                    self.start + k,
                );
            }
            assert(slice@ =~= self@);
        }
        slice.iter()
    }

    /// Sets every bit in `range`, counted from the start of the slice.
    ///
    /// `range` may reach past the slice, but must lie within its window.
    pub fn set_range(&mut self, range: std::ops::Range<usize>)
        requires
            old(self).wf(),
            range.start >= range.end || old(self).offset() + range.end <= old(self).window_end()
                * 32,
        ensures
            final(self).wf(),
            final(self).same_frame(old(self)),
            final(self)@.len() == old(self)@.len(),
            final(final(self).cell())@ == final(old(self).cell())@,
            *final(final(self).len_cell()) == *final(old(self).len_cell()),
            bits(final(self).words_view()) == fill(
                bits(old(self).words_view()),
                old(self).offset() + range.start,
                old(self).offset() + range.end,
                true,
            ),
            final(self)@ == fill(old(self)@, range.start as int, range.end as int, true),
    {
        self.set_range_to(range, true);
    }

    /// Clears all bits in this slice.
    #[inline]
    pub fn unset_all(&mut self)
        requires
            old(self).wf(),
        ensures
            final(self).wf(),
            final(self).same_frame(old(self)),
            final(final(self).cell())@ == final(old(self).cell())@,
            *final(final(self).len_cell()) == *final(old(self).len_cell()),
            bits(final(self).words_view()) == fill(
                bits(old(self).words_view()),
                old(self).offset(),
                old(self).offset() + old(self)@.len(),
                false,
            ),
            final(self)@ == Seq::new(old(self)@.len(), |k: int| false),
    {
        let n = self.len();
        proof {
            self.lemma_view_is_window_of_words();
        }
        self.set_range_to(0..n, false);
        proof {
            assert(self@ =~= Seq::new(old(self)@.len(), |k: int| false));
        }
    }

    /// Sets all bits in this slice.
    #[inline]
    pub fn set_all(&mut self)
        requires
            old(self).wf(),
        ensures
            final(self).wf(),
            final(self).same_frame(old(self)),
            final(final(self).cell())@ == final(old(self).cell())@,
            *final(final(self).len_cell()) == *final(old(self).len_cell()),
            bits(final(self).words_view()) == fill(
                bits(old(self).words_view()),
                old(self).offset(),
                old(self).offset() + old(self)@.len(),
                true,
            ),
            final(self)@ == Seq::new(old(self)@.len(), |k: int| true),
    {
        let n = self.len();
        proof {
            self.lemma_view_is_window_of_words();
        }
        self.set_range_to(0..n, true);
        proof {
            assert(self@ =~= Seq::new(old(self)@.len(), |k: int| true));
        }
    }

    /// Removes `range` and shifts the bits after it to the left; the slice
    /// and the vector it came from get shorter by the length of `range`.
    ///
    /// `range` must lie within `0..self.len()`. Only a slice over the whole
    /// vector can be drained, since draining changes the vector's length.
    /// Bits of the words past the new end keep their old values.
    pub fn drain(&mut self, range: std::ops::Range<usize>)
        requires
            old(self).wf(),
            old(self).is_whole(),
            range.start <= range.end <= old(self)@.len(),
        ensures
            final(self).wf(),
            final(self).is_whole(),
            final(self).offset() == old(self).offset(),
            final(self).window_start() == old(self).window_start(),
            final(self).window_end() == old(self).window_end(),
            final(self).words_view().len() == old(self).words_view().len(),
            final(self).owner_len() == old(self).owner_len() - (range.end - range.start),
            final(final(self).cell())@ == final(old(self).cell())@,
            *final(final(self).len_cell()) == *final(old(self).len_cell()),
            final(self)@ == old(self)@.subrange(0, range.start as int) + old(self)@.subrange(
                range.end as int,
                old(self)@.len() as int,
            ),
            bits(final(self).words_view()) == drained(
                bits(old(self).words_view()),
                old(self).offset() + range.start,
                old(self).offset() + range.end,
                old(self).offset() + old(self)@.len(),
            ),
    {
        let ghost off = old(self).offset();
        let ghost old_bits = bits(self.storage@);
        let ghost gap = range.end - range.start;
        proof {
            self.lemma_view_is_window_of_words();
        }
        let n = self.len();
        let mut src = range.end;
        while src < n
            invariant
                self.wf(),
                self.same_frame(old(self)),
                self@.len() == n,
                n == old(self)@.len(),
                off == old(self).offset(),
                off + n <= self.window_end() * 32,
                final(self.cell())@ == final(old(self).cell())@,
                *final(self.len_cell()) == *final(old(self).len_cell()),
                range.start <= range.end <= src <= n,
                gap == range.end - range.start,
                old_bits == bits(old(self).storage@),
                bits(self.storage@) == Seq::new(
                    old_bits.len(),
                    |j: int|
                        if off + range.start <= j < off + src - gap {
                            old_bits[j + gap]
                        } else {
                            old_bits[j]
                        },
                ),
            decreases n - src,
        {
            let dst = range.start + (src - range.end);
            let value = self.get_unsafe(src);
            self.set_value(dst, value);
            src = src + 1;
            proof {
                assert(bits(self.storage@) =~= Seq::new(
                    old_bits.len(),
                    |j: int|
                        if off + range.start <= j < off + src - gap {
                            old_bits[j + gap]
                        } else {
                            old_bits[j]
                        },
                ));
            }
        }
        self.end = self.end - (range.end - range.start);
        *self.len = *self.len - (range.end - range.start);
        proof {
            assert(bits(self.storage@) =~= drained(
                old_bits,
                off + range.start,
                off + range.end,
                off + n,
            ));
            assert forall|i: int| 0 <= i < self@.len() implies #[trigger] self@[i] == (old(
                self,
            )@.subrange(0, range.start as int) + old(self)@.subrange(
                range.end as int,
                old(self)@.len() as int,
            ))[i] by {
                assert(self@[i] == bits(self.storage@)[off + i]);
            }
            assert(self@ =~= old(self)@.subrange(0, range.start as int) + old(self)@.subrange(
                range.end as int,
                old(self)@.len() as int,
            ));
        }
    }

    /// Returns a mutable sub-slice of this slice.
    ///
    /// `range` must lie within `0..self.len()`.
    pub fn slice(self, range: std::ops::Range<usize>) -> (r: Self)
        requires
            self.wf(),
            range.start <= range.end <= self@.len(),
        ensures
            r.wf(),
            r@ == self@.subrange(range.start as int, range.end as int),
            r.words_view() == self.words_view(),
            r.offset() == self.offset() + range.start,
            r.window_start() == (self.offset() + range.start) / 32,
            r.window_end() == words_for(self.offset() + range.end),
            r.owner_len() == self.owner_len(),
            final(r.cell())@ == final(self.cell())@,
            *final(r.len_cell()) == *final(self.len_cell()),
    {
        let start = self.start + range.start;
        let end = self.start + range.end;
        let words = storage_range(start, end);
        let ghost before = self@;
        let r = Self {
            storage: self.storage,
            len: self.len,
            first: self.first + words.start,
            last: self.first + words.end,
            start: bit_index(start),
            end: bit_index(start) + (range.end - range.start),
        };
        proof {
            assert(r@ =~= before.subrange(range.start as int, range.end as int));
        }
        r
    }

    #[inline]
    fn relative_index(&self, index: usize) -> (r: usize)
        requires
            self.start + index <= usize::MAX,
        ensures
            r == self.start + index,
    {
        self.start + index
    }

    /// Sets every bit in `range` to `value`: first bit by bit up to a word
    /// boundary, then whole words, then bit by bit again.
    fn set_range_to(&mut self, range: std::ops::Range<usize>, value: bool)
        requires
            old(self).wf(),
            range.start >= range.end || old(self).offset() + range.end <= old(self).window_end()
                * 32,
        ensures
            final(self).wf(),
            final(self).same_frame(old(self)),
            final(self)@.len() == old(self)@.len(),
            final(final(self).cell())@ == final(old(self).cell())@,
            *final(final(self).len_cell()) == *final(old(self).len_cell()),
            bits(final(self).words_view()) == fill(
                bits(old(self).words_view()),
                old(self).offset() + range.start,
                old(self).offset() + range.end,
                value,
            ),
            final(self)@ == fill(old(self)@, range.start as int, range.end as int, value),
    {
        let ghost off = old(self).offset();
        let ghost b0 = bits(old(self).storage@);
        if range.start >= range.end {
            proof {
                assert(b0 =~= fill(b0, off + range.start, off + range.end, value));
                assert(self@ =~= fill(self@, range.start as int, range.end as int, value));
            }
            return ;
        }
        let end = range.end;
        let mut index = range.start;
        while index < end && bit_index(self.relative_index(index)) != 0
            invariant
                self.wf(),
                self.same_frame(old(self)),
                self@.len() == old(self)@.len(),
                final(self.cell())@ == final(old(self).cell())@,
                *final(self.len_cell()) == *final(old(self).len_cell()),
                off == old(self).offset(),
                off == self.first * 32 + self.start,
                off + end <= self.window_end() * 32,
                range.start <= index <= end,
                end == range.end,
                b0 == bits(old(self).storage@),
                bits(self.storage@) == fill(b0, off + range.start, off + index, value),
            decreases end - index,
        {
            self.set_value(index, value);
            index = index + 1;
            proof {
                assert(bits(self.storage@) =~= fill(b0, off + range.start, off + index, value));
            }
        }
        while end - index >= SIZE_IN_BITS
            invariant
                self.wf(),
                self.same_frame(old(self)),
                self@.len() == old(self)@.len(),
                final(self.cell())@ == final(old(self).cell())@,
                *final(self.len_cell()) == *final(old(self).len_cell()),
                off == old(self).offset(),
                off == self.first * 32 + self.start,
                off + end <= self.window_end() * 32,
                range.start <= index <= end,
                end == range.end,
                index == end || (self.start + index) % 32 == 0,
                b0 == bits(old(self).storage@),
                bits(self.storage@) == fill(b0, off + range.start, off + index, value),
            decreases end - index,
        {
            let block = self.relative_index(index) / SIZE_IN_BITS;
            write_word(self.storage, self.first + block, value);
            index = index + SIZE_IN_BITS;
            proof {
                assert(bits(self.storage@) =~= fill(b0, off + range.start, off + index, value));
            }
        }
        while index < end
            invariant
                self.wf(),
                self.same_frame(old(self)),
                self@.len() == old(self)@.len(),
                final(self.cell())@ == final(old(self).cell())@,
                *final(self.len_cell()) == *final(old(self).len_cell()),
                off == old(self).offset(),
                off + end <= self.window_end() * 32,
                range.start <= index <= end,
                end == range.end,
                b0 == bits(old(self).storage@),
                bits(self.storage@) == fill(b0, off + range.start, off + index, value),
            decreases end - index,
        {
            self.set_value(index, value);
            index = index + 1;
            proof {
                assert(bits(self.storage@) =~= fill(b0, off + range.start, off + index, value));
            }
        }
        proof {
            assert forall|k: int| 0 <= k < self@.len() implies #[trigger] self@[k] == fill(
                old(self)@,
                range.start as int,
                range.end as int,
                value,
            )[k] by {
                assert(self@[k] == bits(self.storage@)[off + k]);
            }
            assert(self@ =~= fill(old(self)@, range.start as int, range.end as int, value));
        }
    }
}

impl<'a> std::ops::Index<usize> for SliceMut<'a> {
    type Output = bool;

    /// Returns the bit at `index`; `index` must be within `0..self.len()`.
    #[inline]
    fn index(&self, index: usize) -> (r: &bool)
        ensures
            *r == self@[index as int],
    {
        let value = self.get(index).unwrap();
        if value {
            &true
        } else {
            &false
        }
    }
}

impl<'a> vstd::std_specs::core::IndexSpecImpl<usize> for SliceMut<'a> {
    open spec fn index_req(&self, index: &usize) -> bool {
        self.wf() && *index < self@.len()
    }
}

} // verus!
