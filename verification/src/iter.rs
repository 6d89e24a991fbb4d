//! Iteration over the bits of a slice.
use crate::slice::Slice;
use vstd::prelude::*;

verus! {

/// Yields the bits of a slice, from first to last.
#[derive(Debug, Clone)]
pub struct Iter<'a> {
    slice: Slice<'a>,
    index: usize,
}

impl<'a> Iter<'a> {
    /// The bits not yet yielded, in order.
    pub closed spec fn remaining(&self) -> Seq<bool> {
        self.slice@.subrange(self.index as int, self.slice@.len() as int)
    }

    /// The slice is valid and the position lies within it.
    pub closed spec fn wf(&self) -> bool {
        self.slice.wf() && self.index <= self.slice@.len()
    }

    /// Starts at the first bit of `slice`.
    pub(crate) fn new(slice: Slice<'a>) -> (r: Self)
        requires
            slice.wf(),
        ensures
            r.wf(),
            r.remaining() == slice@,
    {
        let r = Self { slice, index: 0 };
        proof {
            assert(r.remaining() =~= slice@);
        }
        r
    }

    /// Returns the next bit, or `None` once every bit has been yielded.
    pub fn next(&mut self) -> (r: Option<bool>)
        requires
            old(self).wf(),
        ensures
            final(self).wf(),
            old(self).remaining().len() == 0 ==> r == None::<bool> && final(self).remaining()
                == old(self).remaining(),
            old(self).remaining().len() > 0 ==> r == Some(old(self).remaining()[0])
                && final(self).remaining() == old(self).remaining().drop_first(),
    {
        match self.slice.get(self.index) {
            Some(value) => {
                proof {
                    self.slice.lemma_view_is_window_of_words();
                }
                self.index = self.index + 1;
                proof {
                    assert(self.remaining() =~= old(self).remaining().drop_first());
                }
                Some(value)
            },
            None => None,
        }
    }

    /// Returns the number of bits left, as both bounds.
    pub fn size_hint(&self) -> (r: (usize, Option<usize>))
        requires
            self.wf(),
        ensures
            r.0 == self.remaining().len(),
            r.1 == Some(r.0),
    {
        let len = self.slice.len() - self.index;
        (len, Some(len))
    }
}

} // verus!
