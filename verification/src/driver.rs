//! Scan driver: one pass over a partition, folding every record into a
//! partition table.
//!
//! The specification-level model splits a byte range into lines at each line
//! terminator, reads a record from every line holding a separator followed by
//! a non-empty value token, and folds the records in order into a map from
//! station name to aggregate.

use vstd::prelude::*;
use crate::decode::{check_token, parse_digits, token_value, wf_token, lemma_token_value_bounds};
use crate::scanner::{find_from, find_byte_from, lemma_find_from};
use crate::table::{
    Table, AggSpec, agg_add, get_or_empty, key_hash, MAX_COUNT,
};
use crate::{FormatError, NEWLINE, SEMICOLON};
use vstd::slice::slice_subrange;

verus! {

/// The line starting at `i` holds a separator followed by a non-empty value.
pub open spec fn line_has_record(s: Seq<u8>, i: int, e: int) -> bool {
    let sep = find_from(s, i, e, SEMICOLON);
    sep < e && e - (sep + 1) > 0
}

/// Station name of the line starting at `i` and ending at `e`.
pub open spec fn line_name(s: Seq<u8>, i: int, e: int) -> Seq<u8> {
    s.subrange(i, find_from(s, i, e, SEMICOLON))
}

/// Value bytes of the line starting at `i` and ending at `e`.
pub open spec fn line_value_bytes(s: Seq<u8>, i: int, e: int) -> Seq<u8> {
    s.subrange(find_from(s, i, e, SEMICOLON) + 1, e)
}

/// The line's value token, if present, is well formed.
pub open spec fn line_ok(s: Seq<u8>, i: int, e: int) -> bool {
    line_has_record(s, i, e) ==> wf_token(line_value_bytes(s, i, e))
}

/// Every line of `s[i..end]` has a well-formed value token where it has one.
pub open spec fn wf_between(s: Seq<u8>, i: int, end: int) -> bool
    decreases end - i,
{
    if i < 0 || i >= end {
        true
    } else {
        let e = find_from(s, i, end, NEWLINE);
        line_ok(s, i, e) && if i <= e && e < end {
            wf_between(s, e + 1, end)
        } else {
            true
        }
    }
}

/// The records of `s[i..end]`, in order: one per line that has a separator
/// and a non-empty value, skipping lines without either.
pub open spec fn records_between(s: Seq<u8>, i: int, end: int) -> Seq<(Seq<u8>, int)>
    decreases end - i,
{
    if i < 0 || i >= end {
        Seq::empty()
    } else {
        let e = find_from(s, i, end, NEWLINE);
        let head: Seq<(Seq<u8>, int)> = if line_has_record(s, i, e) {
            seq![(line_name(s, i, e), token_value(line_value_bytes(s, i, e)))]
        } else {
            Seq::empty()
        };
        if i <= e && e < end {
            head + records_between(s, e + 1, end)
        } else {
            head
        }
    }
}

/// Fold one record into a map of aggregates.
pub open spec fn apply_rec(m: Map<Seq<u8>, AggSpec>, r: (Seq<u8>, int)) -> Map<Seq<u8>, AggSpec> {
    m.insert(r.0, agg_add(get_or_empty(m, r.0), r.1))
}

/// Fold a sequence of records into a map of aggregates, in order.
pub open spec fn fold_records(m: Map<Seq<u8>, AggSpec>, recs: Seq<(Seq<u8>, int)>) -> Map<
    Seq<u8>,
    AggSpec,
>
    decreases recs.len(),
{
    if recs.len() == 0 {
        m
    } else {
        fold_records(apply_rec(m, recs[0]), recs.drop_first())
    }
}

/// Aggregates of all records of `s[i..end]`, by station name.
pub open spec fn table_of(s: Seq<u8>, i: int, end: int) -> Map<Seq<u8>, AggSpec> {
    fold_records(Map::empty(), records_between(s, i, end))
}

/// Folding a head record then the rest equals folding them all.
pub proof fn lemma_fold_cons(m: Map<Seq<u8>, AggSpec>, r: (Seq<u8>, int), rest: Seq<(Seq<u8>, int)>)
    ensures
        fold_records(m, seq![r] + rest) == fold_records(apply_rec(m, r), rest),
{
    let s = seq![r] + rest;
    assert(s[0] == r);
    assert(s.drop_first() =~= rest);
}

/// Splitting a range at a line boundary splits its records and its
/// well-formedness.
pub proof fn lemma_records_concat(s: Seq<u8>, a: int, b: int, c: int)
    requires
        0 <= a <= b <= c <= s.len(),
        a == b || s[b - 1] == NEWLINE,
    ensures
        records_between(s, a, c) == records_between(s, a, b) + records_between(s, b, c),
        wf_between(s, a, c) <==> (wf_between(s, a, b) && wf_between(s, b, c)),
    decreases b - a,
{
    if a >= b {
        assert(records_between(s, a, b) =~= Seq::<(Seq<u8>, int)>::empty());
        assert(records_between(s, a, c) =~= records_between(s, a, b) + records_between(s, b, c));
    } else {
        lemma_find_from(s, a, c, NEWLINE);
        lemma_find_from(s, a, b, NEWLINE);
        let e = find_from(s, a, c, NEWLINE);
        assert(e <= b - 1) by {
            if e > b - 1 {
                assert(s[b - 1] != NEWLINE);
            }
        }
        crate::scanner::lemma_find_from_narrow(s, a, b, c, NEWLINE);
        assert(find_from(s, a, b, NEWLINE) == e);
        lemma_records_concat(s, e + 1, b, c);
        let head: Seq<(Seq<u8>, int)> = if line_has_record(s, a, e) {
            seq![(line_name(s, a, e), token_value(line_value_bytes(s, a, e)))]
        } else {
            Seq::empty()
        };
        assert(records_between(s, a, c) == head + records_between(s, e + 1, c));
        assert(records_between(s, a, b) == head + records_between(s, e + 1, b));
        assert(head + (records_between(s, e + 1, b) + records_between(s, b, c)) =~= (head
            + records_between(s, e + 1, b)) + records_between(s, b, c));
    }
}

/// Folding a concatenation folds the two halves in turn.
pub proof fn lemma_fold_concat(
    m: Map<Seq<u8>, AggSpec>,
    r1: Seq<(Seq<u8>, int)>,
    r2: Seq<(Seq<u8>, int)>,
)
    ensures
        fold_records(m, r1 + r2) == fold_records(fold_records(m, r1), r2),
    decreases r1.len(),
{
    if r1.len() == 0 {
        assert(r1 + r2 =~= r2);
    } else {
        assert((r1 + r2)[0] == r1[0]);
        assert((r1 + r2).drop_first() =~= r1.drop_first() + r2);
        lemma_fold_concat(apply_rec(m, r1[0]), r1.drop_first(), r2);
    }
}

/// Every record of a well-formed range decodes into `[-999, 999]`.
pub proof fn lemma_records_values_bounded(s: Seq<u8>, i: int, end: int)
    requires
        0 <= i,
        end <= s.len(),
        wf_between(s, i, end),
    ensures
        forall|x: int|
            0 <= x < records_between(s, i, end).len() ==> -999 <= (#[trigger] records_between(
                s,
                i,
                end,
            )[x]).1 <= 999,
    decreases end - i,
{
    if 0 <= i < end {
        lemma_find_from(s, i, end, NEWLINE);
        let e = find_from(s, i, end, NEWLINE);
        if line_has_record(s, i, e) {
            lemma_token_value_bounds(line_value_bytes(s, i, e));
        }
        let head: Seq<(Seq<u8>, int)> = if line_has_record(s, i, e) {
            seq![(line_name(s, i, e), token_value(line_value_bytes(s, i, e)))]
        } else {
            Seq::empty()
        };
        let rest: Seq<(Seq<u8>, int)> = if e < end {
            records_between(s, e + 1, end)
        } else {
            Seq::empty()
        };
        if e < end {
            lemma_records_values_bounded(s, e + 1, end);
        }
        let recs = records_between(s, i, end);
        assert(recs =~= head + rest);
        assert forall|x: int| 0 <= x < recs.len() implies -999 <= (#[trigger] recs[x]).1
            <= 999 by {
            if x < head.len() {
                assert(recs[x] == head[0]);
            } else {
                assert(recs[x] == rest[x - head.len()]);
            }
        }
    }
}

/// Each record covers at least one byte of its range.
pub proof fn lemma_records_len(s: Seq<u8>, i: int, end: int)
    requires
        0 <= i,
        end <= s.len(),
    ensures
        records_between(s, i, end).len() <= end - i || end <= i,
    decreases end - i,
{
    if 0 <= i < end {
        lemma_find_from(s, i, end, NEWLINE);
        let e = find_from(s, i, end, NEWLINE);
        if line_has_record(s, i, e) {
            lemma_find_from(s, i, e, SEMICOLON);
        }
        if e < end {
            lemma_records_len(s, e + 1, end);
        }
    }
}

/// Folding can raise a station's count by at most the number of records.
pub proof fn lemma_fold_count(m: Map<Seq<u8>, AggSpec>, recs: Seq<(Seq<u8>, int)>, k: Seq<u8>)
    ensures
        get_or_empty(fold_records(m, recs), k).count <= get_or_empty(m, k).count + recs.len(),
    decreases recs.len(),
{
    if recs.len() > 0 {
        lemma_fold_count(apply_rec(m, recs[0]), recs.drop_first(), k);
    }
}

/// Scan one newline-aligned partition `data[start..end]` and aggregate every
/// record in it. Fails exactly when some line's value token is malformed.
pub fn process_partition(data: &[u8], start: usize, end: usize) -> (r: Result<Table, FormatError>)
    requires
        start <= end <= data@.len(),
        end - start <= MAX_COUNT,
    ensures
        match r {
            Ok(t) => {
                &&& t.wf()
                &&& wf_between(data@, start as int, end as int)
                &&& t@ == table_of(data@, start as int, end as int)
            },
            Err(_) => !wf_between(data@, start as int, end as int),
        },
{
    let ghost s = data@;
    let ghost goal = table_of(data@, start as int, end as int);
    let mut t = Table::new();
    let mut pos = start;
    while pos < end
        invariant
            start <= pos <= end <= data@.len(),
            end - start <= MAX_COUNT,
            s == data@,
            t.wf(),
            fold_records(t@, records_between(s, pos as int, end as int)) == goal,
            goal == table_of(s, start as int, end as int),
            wf_between(s, pos as int, end as int) <==> wf_between(s, start as int, end as int),
            forall|k: Seq<u8>|
                t@.contains_key(k) ==> #[trigger] t@[k].count <= pos - start,
        decreases end - pos,
    {
        let nl = find_byte_from(data, pos, end, NEWLINE);
        proof {
            lemma_find_from(s, pos as int, end as int, NEWLINE);
        }
        let sep = crate::swar::find_sep_from(data, pos, nl);
        proof {
            lemma_find_from(s, pos as int, nl as int, SEMICOLON);
        }
        let ghost e = nl as int;
        if sep < nl && nl - (sep + 1) > 0 {
            let vslice = slice_subrange(data, sep + 1, nl);
            if !check_token(vslice) {
                proof {
                    assert(line_has_record(s, pos as int, e));
                    assert(!line_ok(s, pos as int, e));
                    assert(!wf_between(s, pos as int, end as int));
                }
                return Err(FormatError);
            }
            let val = parse_digits(vslice);
            let name = slice_subrange(data, pos, sep);
            let h = key_hash(name);
            let ghost rec = (line_name(s, pos as int, e), token_value(
                line_value_bytes(s, pos as int, e),
            ));
            proof {
                assert(name@ == rec.0);
                assert(val as int == rec.1);
                lemma_token_value_bounds(vslice@);
            }
            let ghost told = t@;
            t.record(h, name, val);
            proof {
                assert(t@ == apply_rec(told, rec));
                let rest = if e < end as int {
                    records_between(s, e + 1, end as int)
                } else {
                    Seq::<(Seq<u8>, int)>::empty()
                };
                assert(records_between(s, pos as int, end as int) == seq![rec] + rest) by {
                    if e < end as int {
                    } else {
                        assert(seq![rec] + rest =~= seq![rec]);
                    }
                }
                lemma_fold_cons(told, rec, rest);
            }
        } else {
            proof {
                assert(!line_has_record(s, pos as int, e));
                let rest = if e < end as int {
                    records_between(s, e + 1, end as int)
                } else {
                    Seq::<(Seq<u8>, int)>::empty()
                };
                assert(records_between(s, pos as int, end as int) == rest) by {
                    if e < end as int {
                        assert(Seq::<(Seq<u8>, int)>::empty() + rest =~= rest);
                    }
                }
            }
        }
        if nl >= end {
            pos = end;
        } else {
            pos = nl + 1;
        }
    }
    proof {
        assert(records_between(s, pos as int, end as int) =~= Seq::<(Seq<u8>, int)>::empty());
        assert(fold_records(t@, Seq::<(Seq<u8>, int)>::empty()) == t@);
    }
    Ok(t)
}

} // verus!
