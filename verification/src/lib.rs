//! Per-station temperature statistics over a delimited text buffer.
//!
//! The input is one `station;temperature\n` record per line, the temperature
//! an ASCII fixed-point token with one fractional digit. The engine splits
//! the buffer into newline-aligned partitions, scans each partition into a
//! per-partition hash table of running aggregates, merges the tables, and
//! renders one sorted `{name=min/mean/max, ...}` summary line.

use vstd::prelude::*;

use crate::driver::{process_partition, table_of, records_between, wf_between};
use crate::driver::{lemma_records_concat, lemma_records_len, lemma_fold_count};
use crate::merge::{
    merge_format, spec_output, table_views, merged_contains, merged_val, merge_maps, cut_tables,
    valid_cuts, lemma_partition_invariant, lemma_wf_of_cuts,
};
use crate::partition::chunk_by_newlines;
use crate::table::{Table, AggSpec, MAX_COUNT, get_or_empty};

pub mod decode;
pub mod driver;
pub mod merge;
pub mod order;
pub mod partition;
pub mod render;
pub mod scanner;
pub mod swar;
pub mod table;

verus! {

/// Line terminator byte.
pub const NEWLINE: u8 = 10;

/// Station/value separator byte.
pub const SEMICOLON: u8 = 59;

/// ASCII minus sign.
pub const MINUS: u8 = 45;

/// ASCII decimal point.
pub const PERIOD: u8 = 46;

/// A value token that matches none of the fixed-point layouts; the engine
/// aborts the computation rather than produce partial output.
#[derive(Clone, Copy, Debug, PartialEq, Eq, Structural)]
pub struct FormatError;

/// Rounded mean of `sum_scaled` tenths over `count` observations,
/// half-tenths rounding away from zero.
pub open spec fn spec_mean(sum: int, count: int) -> int {
    if sum >= 0 {
        (sum + count / 2) / count
    } else {
        -((-sum + count / 2) / count)
    }
}

/// Mean in tenths, rounding half away from zero.
pub fn mean_tenths(sum_scaled: i64, count: u64) -> (r: i64)
    requires
        1 <= count <= MAX_COUNT,
        -999 * count <= sum_scaled <= 999 * count,
    ensures
        r == spec_mean(sum_scaled as int, count as int),
        -999 <= r <= 999,
{
    let denom = count as i64;
    let r = if sum_scaled >= 0 {
        (sum_scaled + (denom / 2)) / denom
    } else {
        -((-sum_scaled + (denom / 2)) / denom)
    };
    proof {
        let s = sum_scaled as int;
        let a = if s >= 0 { s } else { -s };
        let c = count as int;
        assert(0 <= (a + c / 2) / c <= 999) by (nonlinear_arith)
            requires 1 <= c && 0 <= a <= 999 * c;
    }
    r
}

/// Aggregate a whole buffer: partition it for `workers` scanners, scan each
/// partition, merge the partition tables, and render the summary line. Fails
/// exactly when some value token in the buffer is malformed.
pub fn solve_bytes(data: &[u8], workers: usize) -> (r: Result<Vec<u8>, FormatError>)
    requires
        data@.len() <= MAX_COUNT,
    ensures
        match r {
            Ok(out) => {
                &&& wf_between(data@, 0, data@.len() as int)
                &&& out@ == spec_output(table_of(data@, 0, data@.len() as int))
            },
            Err(_) => !wf_between(data@, 0, data@.len() as int),
        },
{
    let ghost s = data@;
    let len = data.len();
    let chunks = chunk_by_newlines(data, workers);
    if chunks.len() == 0 {
        let tables: Vec<Table> = Vec::new();
        let out = merge_format(&tables);
        proof {
            assert(s.len() == 0);
            assert(table_views(tables@) =~= Seq::<Map<Seq<u8>, AggSpec>>::empty());
            assert(records_between(s, 0, 0) =~= Seq::<(Seq<u8>, int)>::empty());
            assert(merge_maps(Seq::<Map<Seq<u8>, AggSpec>>::empty()) =~= table_of(s, 0, 0));
        }
        return Ok(out);
    }
    let mut tables: Vec<Table> = Vec::new();
    let mut ci: usize = 0;
    while ci < chunks.len()
        invariant
            ci <= chunks@.len(),
            s == data@,
            len == s.len() <= MAX_COUNT,
            chunks@.len() > 0,
            (chunks@[0]).0 == 0,
            (chunks@[chunks@.len() - 1]).1 == len,
            forall|j: int|
                0 <= j < chunks@.len() ==> (#[trigger] chunks@[j]).0 <= chunks@[j].1 <= len,
            forall|j: int|
                0 <= j < chunks@.len() - 1 ==> (#[trigger] chunks@[j]).1 == chunks@[j + 1].0,
            forall|j: int|
                0 <= j < chunks@.len() - 1 ==> 0 < (#[trigger] chunks@[j]).1 && s[chunks@[j].1
                    - 1] == NEWLINE,
            tables@.len() == ci,
            forall|j: int| 0 <= j < ci ==> (#[trigger] tables@[j]).wf(),
            forall|j: int|
                0 <= j < ci ==> (#[trigger] tables@[j])@ == table_of(
                    s,
                    (chunks@[j]).0 as int,
                    (chunks@[j]).1 as int,
                ),
            forall|j: int|
                0 <= j < ci ==> wf_between(s, (#[trigger] chunks@[j]).0 as int, (
                chunks@[j]).1 as int),
        decreases chunks@.len() - ci,
    {
        let (cs, ce) = chunks[ci];
        match process_partition(data, cs, ce) {
            Ok(t) => {
                tables.push(t);
            },
            Err(e) => {
                proof {
                    let b = cs as int;
                    let c = ce as int;
                    if wf_between(s, 0, len as int) {
                        if ci > 0 {
                            assert((chunks@[ci - 1]).1 == cs);
                        }
                        lemma_records_concat(s, 0, b, len as int);
                        if c < len as int {
                            assert(ci < chunks@.len() - 1);
                            lemma_records_concat(s, b, c, len as int);
                        }
                        assert(false);
                    }
                }
                return Err(e);
            },
        }
        ci += 1;
    }
    proof {
        let cuts = chunks@.map_values(|c: (usize, usize)| (c.0 as int, c.1 as int));
        assert(cuts.len() == chunks@.len());
        assert(forall|j: int|
            0 <= j < cuts.len() ==> #[trigger] cuts[j] == ((chunks@[j]).0 as int, (
            chunks@[j]).1 as int));
        lemma_wf_of_cuts(s, cuts);
        assert(valid_cuts(s, cuts));
        lemma_partition_invariant(s, cuts);
        assert(table_views(tables@) =~= cut_tables(s, cuts));
        assert forall|k: Seq<u8>| #[trigger]
            merged_contains(table_views(tables@), k) implies merged_val(
            table_views(tables@),
            k,
        ).count <= MAX_COUNT by {
            lemma_records_len(s, 0, len as int);
            lemma_fold_count(Map::<Seq<u8>, AggSpec>::empty(), records_between(s, 0, len as int), k);
            assert(merge_maps(table_views(tables@)) == table_of(s, 0, len as int));
            assert(merged_val(table_views(tables@), k) == merge_maps(table_views(tables@))[k]);
            assert(get_or_empty(table_of(s, 0, len as int), k).count <= len);
        }
    }
    let out = merge_format(&tables);
    Ok(out)
}

/// The rendered output depends on the buffer's records alone, never on the
/// number of workers: two runs over the same buffer agree.
pub proof fn lemma_output_deterministic(s: Seq<u8>, out1: Seq<u8>, out2: Seq<u8>)
    requires
        out1 == spec_output(table_of(s, 0, s.len() as int)),
        out2 == spec_output(table_of(s, 0, s.len() as int)),
    ensures
        out1 == out2,
{
}

} // verus!
