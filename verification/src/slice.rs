//! Immutable views over a range of bits.
use crate::bits::{
    bit_index, bit_of, bits, lemma_bit_of_subrange, max_words, read_bit, storage_range, words_for,
};
use crate::iter::Iter;
use vstd::prelude::*;

verus! {

/// An immutable view over a range of bits.
///
/// It holds the words that the range spans and the range of bits inside
/// those words.
#[derive(Debug, Clone, Copy)]
pub struct Slice<'a> {
    storage: &'a [u32],
    start: usize,
    end: usize,
}

impl<'a> View for Slice<'a> {
    type V = Seq<bool>;

    /// The bits of the range, in order.
    closed spec fn view(&self) -> Seq<bool> {
        Seq::new((self.end - self.start) as nat, |k: int| bit_of(self.storage@, self.start + k))
    }
}

impl<'a> Slice<'a> {
    /// The words the slice spans.
    pub closed spec fn words_view(&self) -> Seq<u32> {
        self.storage@
    }

    /// Position, among the bits of `words_view()`, of the slice's first bit.
    pub closed spec fn offset(&self) -> int {
        self.start as int
    }

    /// The range lies within the words, and every bit of the words has an
    /// index that fits in a `usize`.
    pub closed spec fn wf(&self) -> bool {
        &&& self.start <= self.end <= self.storage@.len() * 32
        &&& self.storage@.len() <= max_words()
    }

    /// The bits of a slice are the bits of its words from `offset()` on.
    pub proof fn lemma_view_is_window_of_words(&self)
        requires
            self.wf(),
        ensures
            self@ == bits(self.words_view()).subrange(
                self.offset(),
                self.offset() + self@.len(),
            ),
            0 <= self.offset(),
            self.offset() + self@.len() <= self.words_view().len() * 32,
            self.words_view().len() <= max_words(),
    {
        assert(self@ =~= bits(self.words_view()).subrange(
            self.offset(),
            self.offset() + self@.len(),
        ));
    }

    /// Views the bits `start..end` of `storage`.
    pub(crate) fn new(storage: &'a [u32], start: usize, end: usize) -> (r: Self)
        requires
            start <= end <= storage@.len() * 32,
            storage@.len() <= max_words(),
        ensures
            r.wf(),
            r.words_view() == storage@,
            r.offset() == start,
            r@ == bits(storage@).subrange(start as int, end as int),
    {
        let r = Slice { storage, start, end };
        proof {
            assert(r@ =~= bits(storage@).subrange(start as int, end as int));
        }
        r
    }

    /// Returns the bit at `index`, counted from the start of the slice,
    /// without checking it against the slice's length.
    ///
    /// `index` may reach past the slice, but must lie within its words.
    #[inline]
    pub fn get_unsafe(&self, index: usize) -> (r: bool)
        requires
            self.wf(),
            self.offset() + index < self.words_view().len() * 32,
        ensures
            r == bits(self.words_view())[self.offset() + index],
    {
        read_bit(self.storage, self.start + index)
    }

    /// Returns the bit at `index`, or `None` if out of bounds.
    #[inline]
    pub fn get(&self, index: usize) -> (r: Option<bool>)
        requires
            self.wf(),
        ensures
            r == if index < self@.len() {
                Some(self@[index as int])
            } else {
                None
            },
    {
        if index < self.len() {
            Some(self.get_unsafe(index))
        } else {
            None
        }
    }

    /// Returns the number of bits in the slice.
    #[inline]
    pub fn len(&self) -> (r: usize)
        requires
            self.wf(),
        ensures
            r == self@.len(),
    {
        self.end - self.start
    }

    /// Returns the backing words spanned by this slice.
    ///
    /// Note: The first and last words may contain bits outside this slice.
    #[inline]
    pub fn words(&self) -> (r: &'a [u32])
        ensures
            r@ == self.words_view(),
    {
        self.storage
    }

    /// Iterates over the bits in this slice.
    #[inline]
    pub fn iter(&self) -> (r: Iter<'a>)
        requires
            self.wf(),
        ensures
            r.wf(),
            r.remaining() == self@,
    {
        Iter::new(*self)
    }

    /// Returns the sub-slice `range` of this slice.
    ///
    /// `range` must lie within `0..self.len()`.
    pub fn slice(&self, range: std::ops::Range<usize>) -> (r: Slice<'a>)
        requires
            self.wf(),
            range.start <= range.end <= self@.len(),
        ensures
            r.wf(),
            r@ == self@.subrange(range.start as int, range.end as int),
            r.words_view() == self.words_view().subrange(
                (self.offset() + range.start) / 32,
                words_for(self.offset() + range.end),
            ),
            r.offset() == (self.offset() + range.start) % 32,
    {
        let start = self.start + range.start;
        let end = self.start + range.end;
        let words = storage_range(start, end);
        let ghost first = words.start as int;
        let ghost last = words.end as int;
        let storage = &self.storage[words];
        let r = Slice {
            storage,
            start: bit_index(start),
            end: bit_index(start) + (range.end - range.start),
        };
        proof {
            assert forall|k: int| 0 <= k < r@.len() implies #[trigger] r@[k] == self@.subrange(
                range.start as int,
                range.end as int,
            )[k] by {
                lemma_bit_of_subrange(self.storage@, first, last, r.start + k);
            }
            assert(r@ =~= self@.subrange(range.start as int, range.end as int));
        }
        r
    }
}

impl<'a> std::ops::Index<usize> for Slice<'a> {
    type Output = bool;

    /// Returns the bit at `index`; `index` must be within `0..self.len()`.
    #[inline]
    fn index(&self, index: usize) -> (r: &bool)
        ensures
            *r == self@[index as int],
    {
        let value = self.get(index).unwrap();
        if value {
            &true
        } else {
            &false
        }
    }
}

impl<'a> vstd::std_specs::core::IndexSpecImpl<usize> for Slice<'a> {
    open spec fn index_req(&self, index: &usize) -> bool {
        self.wf() && *index < self@.len()
    }
}

} // verus!
