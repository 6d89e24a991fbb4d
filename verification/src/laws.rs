//! Facts about the bit sequences that the operations' contracts are written
//! over. Each one, put together with the contract it names, answers a
//! question about a sequence of calls; Verus proves the fact itself.
use crate::bits::{bits, drained, fill, max_words};
use crate::max_bits;
use vstd::prelude::*;

verus! {

/// The largest length a vector may have is the largest multiple of 32
/// that fits in a `usize`, and it is above `isize::MAX`: every slice of
/// `bool` that can exist (it holds at most `isize::MAX` bytes) is short
/// enough for `new` and for `From<&[bool]>`, which then keeps all its bits.
pub proof fn law_every_slice_fits()
    ensures
        max_bits() == usize::MAX as int / 32 * 32,
        max_words() * 32 == max_bits(),
        isize::MAX < max_bits(),
        max_bits() <= usize::MAX,
{
}

/// With the contracts of `set_value` (new view `before.update(i, v)`) and
/// `get` (answers `Some(view[i])` below the length): reading a bit after
/// writing it gives the written value, and every other bit keeps its value.
pub proof fn law_read_after_write(before: Seq<bool>, index: int, value: bool)
    requires
        0 <= index < before.len(),
    ensures
        before.update(index, value)[index] == value,
        before.update(index, value).len() == before.len(),
        forall|j: int|
            0 <= j < before.len() && j != index ==> #[trigger] before.update(index, value)[j]
                == before[j],
{
}

/// With the contracts of `push` (new view `before.push(v)`) and `get`:
/// the new last bit is the pushed one and the earlier bits keep their
/// values.
pub proof fn law_push_then_read(before: Seq<bool>, value: bool)
    ensures
        before.push(value).len() == before.len() + 1,
        before.push(value)[before.len() as int] == value,
        forall|j: int| 0 <= j < before.len() ==> #[trigger] before.push(value)[j] == before[j],
{
}

/// With the contract of `slice` (view `whole.subrange(a, b)`): a slice of a
/// slice, `slice(a..b).slice(c..d)`, shows the same bits as the one slice
/// `slice(a + c..a + d)`.
pub proof fn law_slice_of_slice(whole: Seq<bool>, a: int, b: int, c: int, d: int)
    requires
        0 <= a <= b <= whole.len(),
        0 <= c <= d <= b - a,
    ensures
        whole.subrange(a, b).subrange(c, d) == whole.subrange(a + c, a + d),
{
    assert(whole.subrange(a, b).subrange(c, d) =~= whole.subrange(a + c, a + d));
}

/// With the contracts of `set_range`, `set_all` and `unset_all` (new word
/// bits `fill(bits(before), lo, hi, v)`): every bit of the words outside
/// the range keeps its value, and every bit inside it becomes `v`.
pub proof fn law_fill_stays_inside(before: Seq<u32>, after: Seq<u32>, lo: int, hi: int, value: bool)
    requires
        bits(after) == fill(bits(before), lo, hi, value),
    ensures
        after.len() == before.len(),
        forall|j: int|
            0 <= j < bits(before).len() && !(lo <= j < hi) ==> #[trigger] bits(after)[j]
                == bits(before)[j],
        forall|j: int| 0 <= j < bits(before).len() && lo <= j < hi ==> #[trigger] bits(after)[j] == value,
{
    assert(bits(after).len() == bits(before).len());
}

/// With the contracts of `drain` (new word bits `drained(s, start, end,
/// len)`): the bits `0..len - (end - start)` are the kept bits in order,
/// and no bit from `len` on changes.
pub proof fn law_drain_keeps_order(s: Seq<bool>, start: int, end: int, len: int)
    requires
        0 <= start <= end <= len <= s.len(),
    ensures
        drained(s, start, end, len).subrange(0, len - (end - start)) == s.subrange(0, start)
            + s.subrange(end, len),
        forall|j: int| len <= j < s.len() ==> #[trigger] drained(s, start, end, len)[j] == s[j],
{
    assert(drained(s, start, end, len).subrange(0, len - (end - start)) =~= s.subrange(0, start)
        + s.subrange(end, len));
}

} // verus!
