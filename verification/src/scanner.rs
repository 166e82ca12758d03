//! Byte scanning: locating the next separator or line terminator in a range.

use vstd::prelude::*;

verus! {

/// Position of the first occurrence of `b` in `s[i..end]`, or `end` if none.
pub open spec fn find_from(s: Seq<u8>, i: int, end: int, b: u8) -> int
    decreases end - i,
{
    if i < 0 || i >= end {
        end
    } else if s[i] == b {
        i
    } else {
        find_from(s, i + 1, end, b)
    }
}

/// `find_from` returns the first match: everything before it differs from `b`.
pub proof fn lemma_find_from(s: Seq<u8>, i: int, end: int, b: u8)
    requires
        0 <= i <= end <= s.len(),
    ensures
        i <= find_from(s, i, end, b) <= end,
        find_from(s, i, end, b) < end ==> s[find_from(s, i, end, b)] == b,
        forall|j: int| i <= j < find_from(s, i, end, b) ==> s[j] != b,
    decreases end - i,
{
    if i < end && s[i] != b {
        lemma_find_from(s, i + 1, end, b);
    }
}

/// Shortening the search window does not change a match found inside it.
pub proof fn lemma_find_from_narrow(s: Seq<u8>, i: int, end1: int, end2: int, b: u8)
    requires
        0 <= i <= end1 <= end2 <= s.len(),
        find_from(s, i, end2, b) < end1 || find_from(s, i, end2, b) == end2,
    ensures
        find_from(s, i, end1, b) == if find_from(s, i, end2, b) < end1 {
            find_from(s, i, end2, b)
        } else {
            end1
        },
    decreases end1 - i,
{
    lemma_find_from(s, i, end2, b);
    if i < end1 && s[i] != b {
        lemma_find_from_narrow(s, i + 1, end1, end2, b);
    }
}

/// A stretch known to be free of `b` can be skipped without changing the
/// search's result.
pub proof fn lemma_find_from_skip(s: Seq<u8>, i: int, j: int, end: int, b: u8)
    requires
        0 <= i <= j <= end <= s.len(),
        forall|m: int| i <= m < j ==> s[m] != b,
    ensures
        find_from(s, i, end, b) == find_from(s, j, end, b),
    decreases j - i,
{
    if i < j {
        lemma_find_from_skip(s, i + 1, j, end, b);
    }
}

/// First occurrence of `b` in `data[from..end]`, or `end` if there is none.
pub fn find_byte_from(data: &[u8], from: usize, end: usize, b: u8) -> (r: usize)
    requires
        from <= end <= data@.len(),
    ensures
        r == find_from(data@, from as int, end as int, b),
{
    let mut i = from;
    while i < end
        invariant
            from <= i <= end <= data@.len(),
            find_from(data@, from as int, end as int, b) == find_from(
                data@,
                i as int,
                end as int,
                b,
            ),
        decreases end - i,
    {
        if data[i] == b {
            return i;
        }
        i += 1;
    }
    end
}

/// Offset of the first newline in `slice`, if any.
pub fn memchr_newline(slice: &[u8]) -> (r: Option<usize>)
    ensures
        match r {
            Some(i) => i == find_from(slice@, 0, slice@.len() as int, crate::NEWLINE) && i
                < slice@.len(),
            None => find_from(slice@, 0, slice@.len() as int, crate::NEWLINE) == slice@.len(),
        },
{
    let n = slice.len();
    let i = find_byte_from(slice, 0, n, crate::NEWLINE);
    proof {
        lemma_find_from(slice@, 0, n as int, crate::NEWLINE);
    }
    if i < n {
        Some(i)
    } else {
        None
    }
}

} // verus!
