//! Partitioner: split a buffer into contiguous, newline-aligned ranges.

use vstd::prelude::*;
use crate::NEWLINE;
use crate::scanner::{find_byte_from, lemma_find_from};

verus! {

/// Split `data` into up to `workers` contiguous ranges covering the whole
/// buffer, every range but the last ending just past a line terminator.
/// `workers == 0` is treated as one worker over the whole buffer.
pub fn chunk_by_newlines(data: &[u8], workers: usize) -> (r: Vec<(usize, usize)>)
    ensures
        data@.len() > 0 ==> r@.len() > 0,
        r@.len() > 0 ==> (r@[0]).0 == 0 && (r@[r@.len() - 1]).1 == data@.len(),
        forall|i: int| 0 <= i < r@.len() ==> (#[trigger] r@[i]).0 <= r@[i].1 <= data@.len(),
        forall|i: int| 0 <= i < r@.len() - 1 ==> (#[trigger] r@[i]).1 == r@[i + 1].0,
        forall|i: int|
            0 <= i < r@.len() - 1 ==> 0 < (#[trigger] r@[i]).1 && data@[r@[i].1 - 1] == NEWLINE,
{
    let len = data.len();
    if workers == 0 {
        let mut v: Vec<(usize, usize)> = Vec::new();
        v.push((0, len));
        return v;
    }
    let mut ranges: Vec<(usize, usize)> = Vec::new();
    let mut pos: usize = 0;
    let base = len / workers;
    let chunk_size = if base == 0 {
        len
    } else {
        base
    };
    while pos < len
        invariant
            pos <= len,
            len == data@.len(),
            len > 0 ==> chunk_size >= 1,
            ranges@.len() == 0 ==> pos == 0,
            ranges@.len() > 0 ==> (ranges@[0]).0 == 0 && (ranges@[ranges@.len() - 1]).1 == pos
                && pos > 0,
            forall|i: int|
                0 <= i < ranges@.len() ==> (#[trigger] ranges@[i]).0 <= ranges@[i].1 <= len,
            forall|i: int|
                0 <= i < ranges@.len() - 1 ==> (#[trigger] ranges@[i]).1 == ranges@[i + 1].0,
            forall|i: int|
                0 <= i < ranges@.len() - 1 ==> 0 < (#[trigger] ranges@[i]).1 && data@[ranges@[i].1
                    - 1] == NEWLINE,
            ranges@.len() > 0 && pos < len ==> data@[pos - 1] == NEWLINE,
        decreases len - pos,
    {
        if chunk_size >= len - pos {
            ranges.push((pos, len));
            pos = len;
        } else {
            let e = pos + chunk_size;
            let nl = find_byte_from(data, e, len, NEWLINE);
            proof {
                lemma_find_from(data@, e as int, len as int, NEWLINE);
            }
            if nl < len {
                ranges.push((pos, nl + 1));
                pos = nl + 1;
            } else {
                ranges.push((pos, len));
                pos = len;
            }
        }
    }
    ranges
}

} // verus!
