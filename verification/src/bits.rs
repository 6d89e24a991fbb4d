//! Word-level layout of a bit vector: bit `i` lives in word `i / 32`, at
//! bit position `i % 32` of that word.
use vstd::prelude::*;

verus! {

/// Number of bits held by one storage word.
pub(crate) const SIZE_IN_BITS: usize = 32;

/// Whether bit `b` of the word `w` is set.
pub open spec fn word_bit(w: u32, b: u32) -> bool {
    (w >> b) & 1u32 == 1u32
}

/// Bit `i` of a word sequence, counted from bit 0 of word 0.
pub open spec fn bit_of(words: Seq<u32>, i: int) -> bool {
    word_bit(words[i / 32], (i % 32) as u32)
}

/// Every bit held by a word sequence, padding included.
pub open spec fn bits(words: Seq<u32>) -> Seq<bool> {
    Seq::new((words.len() * 32) as nat, |i: int| bit_of(words, i))
}

/// Number of words needed to hold `n` bits.
pub open spec fn words_for(n: int) -> int {
    (n + 31) / 32
}

/// `s` with every position in `lo..hi` replaced by `v`.
pub open spec fn fill(s: Seq<bool>, lo: int, hi: int, v: bool) -> Seq<bool> {
    Seq::new(s.len(), |i: int| if lo <= i < hi { v } else { s[i] })
}

/// `s` after the bits `start..end` have been removed and the bits of
/// `end..len` moved down to `start`; positions from `len - (end - start)`
/// on keep their old values.
pub open spec fn drained(s: Seq<bool>, start: int, end: int, len: int) -> Seq<bool> {
    Seq::new(
        s.len(),
        |j: int|
            if start <= j < len - (end - start) {
                s[j + (end - start)]
            } else {
                s[j]
            },
    )
}

/// The largest number of words a bit vector may use, so that every bit
/// index fits in a `usize`.
pub open spec fn max_words() -> int {
    usize::MAX as int / 32
}

/// Index of the word that holds bit `index`.
pub(crate) fn block_index(index: usize) -> (r: usize)
    ensures
        r == index / 32,
{
    index / SIZE_IN_BITS
}

/// Position of bit `index` inside its word.
pub(crate) fn bit_index(index: usize) -> (r: usize)
    ensures
        r == index % 32,
        r < 32,
{
    index % SIZE_IN_BITS
}

/// Number of words needed to hold `n` bits.
pub(crate) fn align_count(n: usize) -> (r: usize)
    ensures
        r == words_for(n as int),
{
    let full = n / SIZE_IN_BITS;
    if n % SIZE_IN_BITS == 0 {
        full
    } else {
        full + 1
    }
}

/// The words spanned by the bits `start..end`.
pub(crate) fn storage_range(start: usize, end: usize) -> (r: std::ops::Range<usize>)
    ensures
        r.start == start / 32,
        r.end == words_for(end as int),
{
    block_index(start)..align_count(end)
}

/// Setting bit `b` of a word leaves its other bits alone.
pub(crate) proof fn lemma_word_set(w: u32, b: u32, j: u32)
    by (bit_vector)
    requires
        b < 32,
        j < 32,
    ensures
        word_bit(w | (1u32 << b), j) == (j == b || word_bit(w, j)),
{
}

/// Clearing bit `b` of a word leaves its other bits alone.
pub(crate) proof fn lemma_word_unset(w: u32, b: u32, j: u32)
    by (bit_vector)
    requires
        b < 32,
        j < 32,
    ensures
        word_bit(w & !(1u32 << b), j) == (j != b && word_bit(w, j)),
{
}

/// Masking with bit `b` tells whether bit `b` is set.
pub(crate) proof fn lemma_word_get(w: u32, b: u32)
    by (bit_vector)
    requires
        b < 32,
    ensures
        (w & (1u32 << b) != 0u32) == word_bit(w, b),
{
}

/// Every bit of the all-ones word is set, and none of the zero word.
pub(crate) proof fn lemma_word_full_empty(j: u32)
    by (bit_vector)
    requires
        j < 32,
    ensures
        word_bit(0xffff_ffffu32, j),
        !word_bit(0u32, j),
{
}

/// Masking with the `k` low bits keeps bits below `k` and clears the rest.
pub(crate) proof fn lemma_word_low_mask(w: u32, k: u32, j: u32)
    by (bit_vector)
    requires
        0 < k < 32,
        j < 32,
    ensures
        word_bit(w & (((1u32 << k) - 1u32) as u32), j) == (j < k && word_bit(w, j)),
{
}

/// Reading a bit of a window of words is reading the same bit of the
/// whole sequence, shifted by the window's first word.
pub(crate) proof fn lemma_bit_of_subrange(words: Seq<u32>, a: int, b: int, i: int)
    requires
        0 <= a <= b <= words.len(),
        0 <= i < (b - a) * 32,
    ensures
        bit_of(words.subrange(a, b), i) == bit_of(words, a * 32 + i),
{
}

/// Reads bit `index` of `words`.
pub(crate) fn read_bit(words: &[u32], index: usize) -> (b: bool)
    requires
        index < words@.len() * 32,
    ensures
        b == bit_of(words@, index as int),
{
    let block = block_index(index);
    let bit = bit_index(index) as u32;
    proof {
        lemma_word_get(words@[block as int], bit);
    }
    words[block] & (1u32 << bit) != 0
}

/// Writes `value` to bit `index` of `words`; every other bit keeps its value.
pub(crate) fn write_bit(words: &mut Vec<u32>, index: usize, value: bool)
    requires
        index < old(words)@.len() * 32,
    ensures
        final(words)@.len() == old(words)@.len(),
        bits(final(words)@) == bits(old(words)@).update(index as int, value),
{
    let block = block_index(index);
    let bit = bit_index(index) as u32;
    let w = words[block];
    let nw = if value {
        w | (1u32 << bit)
    } else {
        w & !(1u32 << bit)
    };
    words.set(block, nw);
    proof {
        let ghost n = old(words)@.len() * 32;
        assert forall|i: int| 0 <= i < n implies bit_of(words@, i) == (if i == index {
            value
        } else {
            bit_of(old(words)@, i)
        }) by {
            if i / 32 == block as int {
                if value {
                    lemma_word_set(w, bit, (i % 32) as u32);
                } else {
                    lemma_word_unset(w, bit, (i % 32) as u32);
                }
            }
        }
        assert(bits(words@) =~= bits(old(words)@).update(index as int, value));
    }
}

/// Clears every bit of `words` from bit `len` on, where `words` holds
/// exactly the words needed for `len` bits.
pub(crate) fn clear_padding(words: &mut Vec<u32>, len: usize)
    requires
        old(words)@.len() == words_for(len as int),
    ensures
        final(words)@.len() == old(words)@.len(),
        forall|j: int|
            0 <= j < final(words)@.len() * 32 ==> #[trigger] bit_of(final(words)@, j) == (j < len
                && bit_of(old(words)@, j)),
{
    if len > 0 {
        let last_block = block_index(len - 1);
        let mask = match bit_index(len) {
            0 => u32::MAX,
            used => {
                let b = used as u32;
                assert(1u32 << b >= 1u32) by (bit_vector)
                    requires
                        b < 32u32,
                ;
                (1u32 << b) - 1
            },
        };
        let w = words[last_block];
        words.set(last_block, w & mask);
        proof {
            let k = (len % 32) as u32;
            assert forall|j: int| 0 <= j < words@.len() * 32 implies #[trigger] bit_of(words@, j)
                == (j < len && bit_of(old(words)@, j)) by {
                if j / 32 == last_block as int {
                    if k == 0 {
                        assert(w & 0xffff_ffffu32 == w) by (bit_vector);
                    } else {
                        lemma_word_low_mask(w, k, (j % 32) as u32);
                    }
                }
            }
        }
    }
}

/// Sets every bit of word `block` to `value`.
pub(crate) fn write_word(words: &mut Vec<u32>, block: usize, value: bool)
    requires
        block < old(words)@.len(),
    ensures
        final(words)@.len() == old(words)@.len(),
        bits(final(words)@) == fill(bits(old(words)@), block * 32, block * 32 + 32, value),
{
    let nw: u32 = if value { 0xffff_ffffu32 } else { 0u32 };
    words.set(block, nw);
    proof {
        let ghost n = old(words)@.len() * 32;
        assert forall|i: int| 0 <= i < n implies bit_of(words@, i) == (if block * 32 <= i < block
            * 32 + 32 {
            value
        } else {
            bit_of(old(words)@, i)
        }) by {
            if i / 32 == block as int {
                lemma_word_full_empty((i % 32) as u32);
            }
        }
        assert(bits(words@) =~= fill(bits(old(words)@), block * 32, block * 32 + 32, value));
    }
}

} // verus!
