//! Merge & format: fan in the partition tables, sort the distinct station
//! names, fold per-station aggregates, and render the summary line.

use vstd::prelude::*;
use vstd::relations::total_ordering;
use crate::order::{
    lex_leq, lex_lt, lemma_lex_refl, lemma_lex_total, lemma_lex_antisym, lemma_lex_trans,
    strict_sorted, nview, insert_sorted, lemma_strict_sorted_unique,
};
use crate::table::{
    Table, AggSpec, agg_add, agg_empty, agg_merge, get_or_empty, wf_agg, key_hash, MAX_COUNT,
};
use crate::render::{spec_render_tenths, render_tenths};
use crate::driver::{
    fold_records, apply_rec, table_of, records_between, wf_between, lemma_records_concat,
    lemma_fold_concat, lemma_records_values_bounded,
};
use crate::spec_mean;
use crate::mean_tenths;
use crate::NEWLINE;

verus! {

/// The byte-lexicographic order as a relation value.
pub open spec fn lexf() -> spec_fn(Seq<u8>, Seq<u8>) -> bool {
    |a: Seq<u8>, b: Seq<u8>| lex_leq(a, b)
}

/// The mappings held by a sequence of tables.
pub open spec fn table_views(ts: Seq<Table>) -> Seq<Map<Seq<u8>, AggSpec>> {
    ts.map_values(|t: Table| t@)
}

/// Every aggregate a map holds is within bounds.
pub open spec fn map_wf(m: Map<Seq<u8>, AggSpec>) -> bool {
    forall|k: Seq<u8>| m.contains_key(k) ==> wf_agg(#[trigger] m[k])
}

/// Some table mentions the station.
pub open spec fn merged_contains(ms: Seq<Map<Seq<u8>, AggSpec>>, k: Seq<u8>) -> bool {
    exists|i: int| 0 <= i < ms.len() && (#[trigger] ms[i]).contains_key(k)
}

/// Fold of the station's aggregates across all tables.
pub open spec fn merged_val(ms: Seq<Map<Seq<u8>, AggSpec>>, k: Seq<u8>) -> AggSpec
    decreases ms.len(),
{
    if ms.len() == 0 {
        agg_empty()
    } else {
        agg_merge(merged_val(ms.drop_last(), k), get_or_empty(ms.last(), k))
    }
}

/// The merged mapping: every station any table mentions, with the fold of its
/// aggregates.
pub open spec fn merge_maps(ms: Seq<Map<Seq<u8>, AggSpec>>) -> Map<Seq<u8>, AggSpec> {
    Map::new(|k: Seq<u8>| merged_contains(ms, k), |k: Seq<u8>| merged_val(ms, k))
}

/// A merged aggregate of well-formed tables is itself within bounds, and is
/// non-empty exactly where some table mentions the station.
pub proof fn lemma_merged_wf(ms: Seq<Map<Seq<u8>, AggSpec>>, k: Seq<u8>)
    requires
        forall|i: int| 0 <= i < ms.len() ==> map_wf(#[trigger] ms[i]),
    ensures
        0 <= merged_val(ms, k).count,
        -999 * merged_val(ms, k).count <= merged_val(ms, k).sum <= 999 * merged_val(ms, k).count,
        merged_val(ms, k).count > 0 ==> -999 <= merged_val(ms, k).min <= merged_val(ms, k).max
            <= 999,
        merged_val(ms, k).count == 0 ==> merged_val(ms, k) == agg_empty(),
        merged_contains(ms, k) <==> merged_val(ms, k).count > 0,
    decreases ms.len(),
{
    if ms.len() > 0 {
        let front = ms.drop_last();
        assert(forall|i: int| 0 <= i < front.len() ==> front[i] == ms[i]);
        lemma_merged_wf(front, k);
        assert(map_wf(ms[ms.len() - 1]));
        if merged_contains(front, k) {
            let i = choose|i: int| 0 <= i < front.len() && (#[trigger] front[i]).contains_key(k);
            assert(ms[i].contains_key(k));
            assert(merged_contains(ms, k));
        }
        if ms.last().contains_key(k) {
            assert(merged_contains(ms, k));
        }
        if merged_contains(ms, k) {
            let i = choose|i: int| 0 <= i < ms.len() && (#[trigger] ms[i]).contains_key(k);
            if i < ms.len() - 1 {
                assert(front[i].contains_key(k));
                assert(merged_contains(front, k));
            }
        }
    }
}

/// A fold over a prefix of the tables counts no more observations than the
/// fold over all of them.
pub proof fn lemma_merged_mono(ms: Seq<Map<Seq<u8>, AggSpec>>, k: Seq<u8>, t: int)
    requires
        forall|i: int| 0 <= i < ms.len() ==> map_wf(#[trigger] ms[i]),
        0 <= t <= ms.len(),
    ensures
        merged_val(ms.take(t), k).count <= merged_val(ms, k).count,
    decreases ms.len() - t,
{
    if t == ms.len() {
        assert(ms.take(t) =~= ms);
    } else {
        lemma_merged_mono(ms, k, t + 1);
        assert(ms.take(t + 1).drop_last() =~= ms.take(t));
        assert(ms.take(t + 1).last() == ms[t]);
        assert(map_wf(ms[t]));
        assert(merged_val(ms.take(t + 1), k) == agg_merge(
            merged_val(ms.take(t), k),
            get_or_empty(ms[t], k),
        ));
        if ms[t].contains_key(k) {
            assert(wf_agg(ms[t][k]));
        }
    }
}

/// The merged mapping's domain is finite when each table's is.
pub proof fn lemma_merged_dom_finite(ms: Seq<Map<Seq<u8>, AggSpec>>)
    requires
        forall|i: int| 0 <= i < ms.len() ==> (#[trigger] ms[i]).dom().finite(),
    ensures
        merge_maps(ms).dom().finite(),
    decreases ms.len(),
{
    if ms.len() == 0 {
        assert(merge_maps(ms).dom() =~= Set::<Seq<u8>>::empty());
    } else {
        let front = ms.drop_last();
        assert(forall|i: int| 0 <= i < front.len() ==> front[i] == ms[i]);
        lemma_merged_dom_finite(front);
        assert forall|k: Seq<u8>| #[trigger] merged_contains(ms, k) implies (merged_contains(
            front,
            k,
        ) || ms.last().contains_key(k)) by {
            let i = choose|i: int| 0 <= i < ms.len() && (#[trigger] ms[i]).contains_key(k);
            if i < ms.len() - 1 {
                assert(front[i].contains_key(k));
            }
        }
        assert forall|k: Seq<u8>|
            merged_contains(front, k) || ms.last().contains_key(k) implies #[trigger]
            merged_contains(ms, k) by {
            if merged_contains(front, k) {
                let i = choose|i: int|
                    0 <= i < front.len() && (#[trigger] front[i]).contains_key(k);
                assert(ms[i].contains_key(k));
            }
        }
        assert(merge_maps(ms).dom() =~= merge_maps(front).dom().union(ms.last().dom()));
    }
}

/// A finite set enumerates without repetition.
pub proof fn lemma_to_seq_no_dup(s: Set<Seq<u8>>)
    requires
        s.finite(),
    ensures
        s.to_seq().no_duplicates(),
        forall|k: Seq<u8>| s.to_seq().contains(k) <==> s.contains(k),
    decreases s.len(),
{
    s.lemma_to_seq_to_set_id();
    assert forall|k: Seq<u8>| s.to_seq().contains(k) <==> s.contains(k) by {
        assert(s.to_seq().to_set().contains(k) == s.to_seq().contains(k));
    }
    if s.len() != 0 {
        let x = s.choose();
        assert(s.contains(x));
        let rest = s.remove(x);
        lemma_to_seq_no_dup(rest);
        let t = s.to_seq();
        assert(t == Seq::<Seq<u8>>::empty().push(x) + rest.to_seq());
        assert forall|i: int, j: int| 0 <= i < j < t.len() implies t[i] != t[j] by {
            if i == 0 {
                assert(t[j] == rest.to_seq()[j - 1]);
                assert(rest.to_seq().contains(t[j]));
                assert(!rest.contains(x));
            } else {
                assert(t[i] == rest.to_seq()[i - 1]);
                assert(t[j] == rest.to_seq()[j - 1]);
            }
        }
    }
}

/// The station names of the merged mapping, sorted byte-lexicographically.
pub open spec fn canonical_names(m: Map<Seq<u8>, AggSpec>) -> Seq<Seq<u8>> {
    m.dom().to_seq().sort_by(lexf())
}

/// A strictly sorted enumeration of the merged stations is the canonical one.
pub proof fn lemma_canonical_names(ns: Seq<Seq<u8>>, m: Map<Seq<u8>, AggSpec>)
    requires
        strict_sorted(ns),
        forall|k: Seq<u8>| ns.contains(k) <==> m.dom().contains(k),
        m.dom().finite(),
    ensures
        ns == canonical_names(m),
{
    let ts = m.dom().to_seq();
    let c = ts.sort_by(lexf());
    assert(total_ordering(lexf())) by {
        assert forall|a: Seq<u8>| #[trigger] lexf()(a, a) by {
            lemma_lex_refl(a);
        }
        assert forall|a: Seq<u8>, b: Seq<u8>|
            #[trigger] lexf()(a, b) && #[trigger] lexf()(b, a) implies a == b by {
            lemma_lex_antisym(a, b);
        }
        assert forall|a: Seq<u8>, b: Seq<u8>, c0: Seq<u8>|
            #[trigger] lexf()(a, b) && #[trigger] lexf()(b, c0) implies lexf()(a, c0) by {
            lemma_lex_trans(a, b, c0);
        }
        assert forall|a: Seq<u8>, b: Seq<u8>| #[trigger] lexf()(a, b) || #[trigger] lexf()(
            b,
            a,
        ) by {
            lemma_lex_total(a, b);
        }
    }
    ts.lemma_sort_by_ensures(lexf());
    lemma_to_seq_no_dup(m.dom());
    // contains carries across sorting through the multiset
    assert forall|k: Seq<u8>| c.contains(k) <==> ts.contains(k) by {
        vstd::seq_lib::to_multiset_contains(c, k);
        vstd::seq_lib::to_multiset_contains(ts, k);
    }
    // so does distinctness
    ts.lemma_multiset_has_no_duplicates();
    c.lemma_multiset_has_no_duplicates_conv();
    assert(strict_sorted(c)) by {
        assert forall|i: int, j: int| 0 <= i < j < c.len() implies lex_lt(
            #[trigger] c[i],
            #[trigger] c[j],
        ) by {
            assert(lexf()(c[i], c[j]));
        }
    }
    lemma_strict_sorted_unique(ns, c);
}

/// An aggregate a spec-level fold can produce: empty, or within the bounds
/// of the observations folded in.
pub open spec fn agg_bounded(a: AggSpec) -> bool {
    &&& a.count >= 0
    &&& (a.count == 0 ==> a == agg_empty())
    &&& (a.count > 0 ==> -999 <= a.min <= a.max <= 999)
}

/// Every aggregate of the map is such a fold result, of at least one
/// observation.
pub open spec fn map_bounded(m: Map<Seq<u8>, AggSpec>) -> bool {
    forall|k: Seq<u8>|
        m.contains_key(k) ==> (agg_bounded(#[trigger] m[k]) && m[k].count >= 1)
}

/// Every record's value is a representable temperature.
pub open spec fn recs_bounded(recs: Seq<(Seq<u8>, int)>) -> bool {
    forall|x: int| 0 <= x < recs.len() ==> -999 <= (#[trigger] recs[x]).1 <= 999
}

/// Folding bounded records into a bounded map leaves it bounded.
pub proof fn lemma_fold_bounded(m: Map<Seq<u8>, AggSpec>, recs: Seq<(Seq<u8>, int)>)
    requires
        map_bounded(m),
        recs_bounded(recs),
    ensures
        map_bounded(fold_records(m, recs)),
    decreases recs.len(),
{
    if recs.len() > 0 {
        let x = recs[0];
        assert(-999 <= x.1 <= 999);
        assert(map_bounded(apply_rec(m, x))) by {
            assert forall|k: Seq<u8>| apply_rec(m, x).contains_key(k) implies agg_bounded(
                #[trigger] apply_rec(m, x)[k],
            ) by {
                if k != x.0 {
                    assert(apply_rec(m, x)[k] == m[k]);
                }
            }
        }
        assert(recs_bounded(recs.drop_first())) by {
            assert forall|y: int|
                0 <= y < recs.drop_first().len() implies -999 <= (#[trigger] recs.drop_first(
            )[y]).1 <= 999 by {
                assert(recs.drop_first()[y] == recs[y + 1]);
            }
        }
        lemma_fold_bounded(apply_rec(m, x), recs.drop_first());
    }
}

/// Folding records into `m` merges `m` with the fold of the records alone.
pub proof fn lemma_fold_merge(m: Map<Seq<u8>, AggSpec>, recs: Seq<(Seq<u8>, int)>)
    requires
        map_bounded(m),
        recs_bounded(recs),
    ensures
        forall|k: Seq<u8>| #[trigger]
            fold_records(m, recs).contains_key(k) <==> (m.contains_key(k) || fold_records(
                Map::empty(),
                recs,
            ).contains_key(k)),
        forall|k: Seq<u8>| #[trigger]
            get_or_empty(fold_records(m, recs), k) == agg_merge(
                get_or_empty(m, k),
                get_or_empty(fold_records(Map::<Seq<u8>, AggSpec>::empty(), recs), k),
            ),
    decreases recs.len(),
{
    if recs.len() == 0 {
        assert forall|k: Seq<u8>| #[trigger]
            get_or_empty(fold_records(m, recs), k) == agg_merge(
                get_or_empty(m, k),
                get_or_empty(fold_records(Map::<Seq<u8>, AggSpec>::empty(), recs), k),
            ) by {
            if m.contains_key(k) {
                assert(agg_bounded(m[k]));
            }
        }
    } else {
        let x = recs[0];
        let rest = recs.drop_first();
        assert(-999 <= x.1 <= 999);
        assert(recs_bounded(rest)) by {
            assert forall|y: int|
                0 <= y < rest.len() implies -999 <= (#[trigger] rest[y]).1 <= 999 by {
                assert(rest[y] == recs[y + 1]);
            }
        }
        assert(map_bounded(apply_rec(m, x))) by {
            assert forall|k: Seq<u8>| apply_rec(m, x).contains_key(k) implies agg_bounded(
                #[trigger] apply_rec(m, x)[k],
            ) by {
                if k != x.0 {
                    assert(apply_rec(m, x)[k] == m[k]);
                }
            }
        }
        assert(map_bounded(apply_rec(Map::<Seq<u8>, AggSpec>::empty(), x)));
        lemma_fold_merge(apply_rec(m, x), rest);
        lemma_fold_merge(apply_rec(Map::<Seq<u8>, AggSpec>::empty(), x), rest);
        lemma_fold_bounded(Map::<Seq<u8>, AggSpec>::empty(), rest);
        assert(fold_records(m, recs) == fold_records(apply_rec(m, x), rest));
        assert(fold_records(Map::<Seq<u8>, AggSpec>::empty(), recs) == fold_records(
            apply_rec(Map::<Seq<u8>, AggSpec>::empty(), x),
            rest,
        ));
        assert forall|k: Seq<u8>| #[trigger]
            fold_records(m, recs).contains_key(k) <==> (m.contains_key(k) || fold_records(
                Map::<Seq<u8>, AggSpec>::empty(),
                recs,
            ).contains_key(k)) by {
            assert(fold_records(apply_rec(m, x), rest).contains_key(k) <==> (apply_rec(
                m,
                x,
            ).contains_key(k) || fold_records(Map::<Seq<u8>, AggSpec>::empty(), rest).contains_key(
                k,
            )));
            assert(fold_records(apply_rec(Map::<Seq<u8>, AggSpec>::empty(), x), rest).contains_key(
                k,
            ) <==> (apply_rec(Map::<Seq<u8>, AggSpec>::empty(), x).contains_key(k) || fold_records(
                Map::<Seq<u8>, AggSpec>::empty(),
                rest,
            ).contains_key(k)));
        }
        assert forall|k: Seq<u8>| #[trigger]
            get_or_empty(fold_records(m, recs), k) == agg_merge(
                get_or_empty(m, k),
                get_or_empty(fold_records(Map::<Seq<u8>, AggSpec>::empty(), recs), k),
            ) by {
            let frest = fold_records(Map::<Seq<u8>, AggSpec>::empty(), rest);
            assert(get_or_empty(fold_records(apply_rec(m, x), rest), k) == agg_merge(
                get_or_empty(apply_rec(m, x), k),
                get_or_empty(frest, k),
            ));
            assert(get_or_empty(
                fold_records(apply_rec(Map::<Seq<u8>, AggSpec>::empty(), x), rest),
                k,
            ) == agg_merge(
                get_or_empty(apply_rec(Map::<Seq<u8>, AggSpec>::empty(), x), k),
                get_or_empty(frest, k),
            ));
            if k == x.0 {
                assert(get_or_empty(apply_rec(m, x), k) == agg_add(get_or_empty(m, k), x.1));
                assert(get_or_empty(apply_rec(Map::<Seq<u8>, AggSpec>::empty(), x), k)
                    == agg_add(agg_empty(), x.1));
            } else {
                assert(get_or_empty(apply_rec(m, x), k) == get_or_empty(m, k));
                assert(get_or_empty(apply_rec(Map::<Seq<u8>, AggSpec>::empty(), x), k)
                    == agg_empty());
                if frest.contains_key(k) {
                    assert(agg_bounded(frest[k]));
                }
            }
        }
    }
}

/// Contiguous ranges covering the whole buffer, each interior boundary at a
/// line boundary.
pub open spec fn valid_cuts(s: Seq<u8>, cuts: Seq<(int, int)>) -> bool {
    &&& cuts.len() > 0
    &&& (cuts[0]).0 == 0
    &&& (cuts[cuts.len() - 1]).1 == s.len()
    &&& forall|i: int| 0 <= i < cuts.len() ==> 0 <= (#[trigger] cuts[i]).0 <= cuts[i].1 <= s.len()
    &&& forall|i: int| 0 <= i < cuts.len() - 1 ==> (#[trigger] cuts[i]).1 == cuts[i + 1].0
    &&& forall|i: int|
        0 <= i < cuts.len() - 1 ==> ((#[trigger] cuts[i]).1 == 0 || s[cuts[i].1 - 1] == NEWLINE)
}

/// The per-range tables of a cut list.
pub open spec fn cut_tables(s: Seq<u8>, cuts: Seq<(int, int)>) -> Seq<Map<Seq<u8>, AggSpec>> {
    cuts.map_values(|c: (int, int)| table_of(s, c.0, c.1))
}

/// A merged aggregate of bounded tables is bounded, and non-empty exactly
/// where some table mentions the station.
pub proof fn lemma_merged_bounded(ms: Seq<Map<Seq<u8>, AggSpec>>, k: Seq<u8>)
    requires
        forall|i: int| 0 <= i < ms.len() ==> map_bounded(#[trigger] ms[i]),
    ensures
        agg_bounded(merged_val(ms, k)),
        merged_contains(ms, k) <==> merged_val(ms, k).count > 0,
    decreases ms.len(),
{
    if ms.len() > 0 {
        let front = ms.drop_last();
        assert(forall|i: int| 0 <= i < front.len() ==> front[i] == ms[i]);
        lemma_merged_bounded(front, k);
        assert(map_bounded(ms[ms.len() - 1]));
        if ms.last().contains_key(k) {
            assert(agg_bounded(ms.last()[k]));
        }
        if merged_contains(front, k) {
            let i = choose|i: int| 0 <= i < front.len() && (#[trigger] front[i]).contains_key(k);
            assert(ms[i].contains_key(k));
            assert(merged_contains(ms, k));
        }
        if ms.last().contains_key(k) {
            assert(merged_contains(ms, k));
        }
        if merged_contains(ms, k) && merged_val(ms, k).count == 0 {
            let i = choose|i: int| 0 <= i < ms.len() && (#[trigger] ms[i]).contains_key(k);
            if i < ms.len() - 1 {
                assert(front[i].contains_key(k));
                assert(merged_contains(front, k));
            }
            assert(false);
        }
    }
}

/// Induction core of the partition invariance: the cuts cover `[0, e)` for
/// the last cut's end `e`, which need not be the whole buffer yet.
proof fn lemma_partition_helper(s: Seq<u8>, cuts: Seq<(int, int)>)
    requires
        cuts.len() > 0,
        (cuts[0]).0 == 0,
        forall|i: int| 0 <= i < cuts.len() ==> 0 <= (#[trigger] cuts[i]).0 <= cuts[i].1 <= s.len(),
        forall|i: int| 0 <= i < cuts.len() - 1 ==> (#[trigger] cuts[i]).1 == cuts[i + 1].0,
        forall|i: int|
            0 <= i < cuts.len() - 1 ==> ((#[trigger] cuts[i]).1 == 0 || s[cuts[i].1 - 1]
                == NEWLINE),
        wf_between(s, 0, (cuts[cuts.len() - 1]).1),
    ensures
        forall|i: int| 0 <= i < cuts.len() ==> wf_between(s, (#[trigger] cuts[i]).0, cuts[i].1),
        merge_maps(cut_tables(s, cuts)) == table_of(s, 0, (cuts[cuts.len() - 1]).1),
    decreases cuts.len(),
{
    let last = cuts.len() - 1;
    let b = cuts[last].0;
    let c = cuts[last].1;
    let ms = cut_tables(s, cuts);
    if cuts.len() == 1 {
        let t = table_of(s, 0, c);
        lemma_records_values_bounded(s, 0, c);
        lemma_fold_bounded(Map::<Seq<u8>, AggSpec>::empty(), records_between(s, 0, c));
        assert(ms[0] == t);
        assert forall|k: Seq<u8>| true implies #[trigger] merged_val(ms, k) == get_or_empty(
            t,
            k,
        ) by {
            assert(ms.drop_last() =~= Seq::<Map<Seq<u8>, AggSpec>>::empty());
            assert(merged_val(Seq::<Map<Seq<u8>, AggSpec>>::empty(), k) == agg_empty());
            assert(ms.last() == t);
            assert(merged_val(ms, k) == agg_merge(agg_empty(), get_or_empty(t, k)));
            if t.contains_key(k) {
                assert(agg_bounded(t[k]) && t[k].count >= 1);
            }
        }
        assert forall|k: Seq<u8>| #[trigger] merged_contains(ms, k) <==> t.contains_key(k) by {
            if t.contains_key(k) {
                assert(ms[0].contains_key(k));
            }
        }
        assert(merge_maps(ms) =~= t);
    } else {
        let front = cuts.drop_last();
        assert(forall|i: int| 0 <= i < front.len() ==> front[i] == cuts[i]);
        assert((front[front.len() - 1]).1 == b);
        assert(b == 0 || s[b - 1] == NEWLINE);
        lemma_records_concat(s, 0, b, c);
        lemma_partition_helper(s, front);
        let t1 = table_of(s, 0, b);
        let t2 = table_of(s, b, c);
        let r1 = records_between(s, 0, b);
        let r2 = records_between(s, b, c);
        lemma_fold_concat(Map::<Seq<u8>, AggSpec>::empty(), r1, r2);
        assert(table_of(s, 0, c) == fold_records(t1, r2));
        lemma_records_values_bounded(s, 0, b);
        lemma_records_values_bounded(s, b, c);
        lemma_fold_bounded(Map::<Seq<u8>, AggSpec>::empty(), r1);
        lemma_fold_bounded(Map::<Seq<u8>, AggSpec>::empty(), r2);
        lemma_fold_merge(t1, r2);
        let fms = cut_tables(s, front);
        assert(ms.drop_last() =~= fms);
        assert(ms.last() == t2);
        let m1 = merge_maps(fms);
        assert forall|i: int| 0 <= i < fms.len() implies map_bounded(#[trigger] fms[i]) by {
            lemma_records_values_bounded(s, (front[i]).0, (front[i]).1);
            lemma_fold_bounded(
                Map::<Seq<u8>, AggSpec>::empty(),
                records_between(s, (front[i]).0, (front[i]).1),
            );
        }
        assert forall|k: Seq<u8>| true implies #[trigger] merged_val(ms, k) == get_or_empty(
            table_of(s, 0, c),
            k,
        ) by {
            lemma_merged_bounded(fms, k);
            assert(merged_val(fms, k) == get_or_empty(m1, k));
            assert(merged_val(ms, k) == agg_merge(merged_val(fms, k), get_or_empty(t2, k)));
            assert(get_or_empty(m1, k) == get_or_empty(t1, k));
            assert(get_or_empty(fold_records(t1, r2), k) == agg_merge(
                get_or_empty(t1, k),
                get_or_empty(t2, k),
            ));
        }
        assert forall|k: Seq<u8>| #[trigger] merged_contains(ms, k) <==> table_of(
            s,
            0,
            c,
        ).contains_key(k) by {
            if merged_contains(ms, k) {
                let i = choose|i: int| 0 <= i < ms.len() && (#[trigger] ms[i]).contains_key(k);
                if i < ms.len() - 1 {
                    assert(fms[i].contains_key(k));
                    assert(merged_contains(fms, k));
                    assert(m1.contains_key(k));
                    assert(t1.contains_key(k));
                } else {
                    assert(t2.contains_key(k));
                }
                assert(fold_records(t1, r2).contains_key(k));
            }
            if table_of(s, 0, c).contains_key(k) {
                if t1.contains_key(k) {
                    assert(m1.contains_key(k));
                    assert(merged_contains(fms, k));
                    let i = choose|i: int|
                        0 <= i < fms.len() && (#[trigger] fms[i]).contains_key(k);
                    assert(ms[i].contains_key(k));
                } else {
                    assert(t2.contains_key(k));
                    assert(ms[ms.len() - 1].contains_key(k));
                }
            }
        }
        assert(merge_maps(ms) =~= table_of(s, 0, c));
    }
}

/// A buffer whose newline-aligned pieces are all well formed is well formed.
pub proof fn lemma_wf_of_cuts(s: Seq<u8>, cuts: Seq<(int, int)>)
    requires
        cuts.len() > 0,
        (cuts[0]).0 == 0,
        forall|i: int| 0 <= i < cuts.len() ==> 0 <= (#[trigger] cuts[i]).0 <= cuts[i].1 <= s.len(),
        forall|i: int| 0 <= i < cuts.len() - 1 ==> (#[trigger] cuts[i]).1 == cuts[i + 1].0,
        forall|i: int|
            0 <= i < cuts.len() - 1 ==> ((#[trigger] cuts[i]).1 == 0 || s[cuts[i].1 - 1]
                == NEWLINE),
        forall|i: int| 0 <= i < cuts.len() ==> wf_between(s, (#[trigger] cuts[i]).0, cuts[i].1),
    ensures
        wf_between(s, 0, (cuts[cuts.len() - 1]).1),
    decreases cuts.len(),
{
    if cuts.len() > 1 {
        let front = cuts.drop_last();
        assert(forall|i: int| 0 <= i < front.len() ==> front[i] == cuts[i]);
        lemma_wf_of_cuts(s, front);
        let last = cuts.len() - 1;
        assert((front[front.len() - 1]).1 == (cuts[last]).0);
        lemma_records_concat(s, 0, (cuts[last]).0, (cuts[last]).1);
    }
}

/// Partitioning is observably invariant: the merged per-range tables of any
/// newline-aligned split hold exactly the aggregates of one pass over the
/// whole well-formed buffer.
pub proof fn lemma_partition_invariant(s: Seq<u8>, cuts: Seq<(int, int)>)
    requires
        valid_cuts(s, cuts),
        wf_between(s, 0, s.len() as int),
    ensures
        forall|i: int| 0 <= i < cuts.len() ==> wf_between(s, (#[trigger] cuts[i]).0, cuts[i].1),
        merge_maps(cut_tables(s, cuts)) == table_of(s, 0, s.len() as int),
{
    lemma_partition_helper(s, cuts);
}

/// One rendered summary entry: `name=min/mean/max`.
pub open spec fn spec_entry(name: Seq<u8>, a: AggSpec) -> Seq<u8> {
    name + seq![61u8] + spec_render_tenths(a.min) + seq![47u8] + spec_render_tenths(
        spec_mean(a.sum, a.count),
    ) + seq![47u8] + spec_render_tenths(a.max)
}

/// The rendered entries of `names` in order, joined by `", "`.
pub open spec fn spec_entries(names: Seq<Seq<u8>>, m: Map<Seq<u8>, AggSpec>) -> Seq<u8>
    decreases names.len(),
{
    if names.len() == 0 {
        Seq::empty()
    } else if names.len() == 1 {
        spec_entry(names[0], get_or_empty(m, names[0]))
    } else {
        spec_entries(names.drop_last(), m) + seq![44u8, 32u8] + spec_entry(
            names.last(),
            get_or_empty(m, names.last()),
        )
    }
}

/// The whole summary line for a merged mapping: entries sorted by station
/// name, wrapped in braces, with a trailing line terminator.
pub open spec fn spec_output(m: Map<Seq<u8>, AggSpec>) -> Seq<u8> {
    seq![123u8] + spec_entries(canonical_names(m), m) + seq![125u8, 10u8]
}

/// Collect the distinct station names of all tables, strictly sorted.
fn collect_names(tables: &Vec<Table>) -> (names: Vec<Vec<u8>>)
    requires
        forall|i: int| 0 <= i < tables@.len() ==> (#[trigger] tables@[i]).wf(),
    ensures
        strict_sorted(nview(names@)),
        forall|k: Seq<u8>|
            nview(names@).contains(k) <==> merged_contains(table_views(tables@), k),
{
    let ghost ms = table_views(tables@);
    let mut names: Vec<Vec<u8>> = Vec::new();
    let mut ti: usize = 0;
    proof {
        assert(nview(names@) =~= Seq::<Seq<u8>>::empty());
    }
    while ti < tables.len()
        invariant
            ti <= tables@.len(),
            ms == table_views(tables@),
            forall|i: int| 0 <= i < tables@.len() ==> (#[trigger] tables@[i]).wf(),
            strict_sorted(nview(names@)),
            forall|k: Seq<u8>|
                nview(names@).contains(k) <==> merged_contains(ms.take(ti as int), k),
        decreases tables@.len() - ti,
    {
        proof {
            tables@[ti as int].lemma_keys();
        }
        let nk = tables[ti].num_keys();
        let mut j: usize = 0;
        while j < nk
            invariant
                ti < tables@.len(),
                j <= nk,
                nk == tables@[ti as int].key_seq().len(),
                ms == table_views(tables@),
                forall|i: int| 0 <= i < tables@.len() ==> (#[trigger] tables@[i]).wf(),
                strict_sorted(nview(names@)),
                forall|k: Seq<u8>|
                    nview(names@).contains(k) <==> (merged_contains(ms.take(ti as int), k)
                        || tables@[ti as int].key_seq().take(j as int).contains(k)),
            decreases nk - j,
        {
            let key = tables[ti].key_at(j);
            let ghost before = nview(names@);
            insert_sorted(&mut names, key.as_slice());
            proof {
                let ks = tables@[ti as int].key_seq();
                assert forall|k: Seq<u8>|
                    ks.take(j + 1).contains(k) <==> (ks.take(j as int).contains(k) || k
                        == ks[j as int]) by {
                    if ks.take(j + 1).contains(k) {
                        let w = choose|w: int|
                            0 <= w < j + 1 && #[trigger] ks.take(j + 1)[w] == k;
                        if w < j {
                            assert(ks.take(j as int)[w] == k);
                        }
                    }
                    if ks.take(j as int).contains(k) {
                        let w = choose|w: int| 0 <= w < j && #[trigger] ks.take(j as int)[w] == k;
                        assert(ks.take(j + 1)[w] == k);
                    }
                    if k == ks[j as int] {
                        assert(ks.take(j + 1)[j as int] == k);
                    }
                }
            }
            j += 1;
        }
        proof {
            let ks = tables@[ti as int].key_seq();
            assert(ks.take(nk as int) =~= ks);
            tables@[ti as int].lemma_keys();
            // a key list entry is a station of this table, and conversely
            assert forall|k: Seq<u8>|
                nview(names@).contains(k) <==> merged_contains(ms.take(ti + 1), k) by {
                assert(ms[ti as int] == tables@[ti as int]@);
                if nview(names@).contains(k) {
                    if merged_contains(ms.take(ti as int), k) {
                        let i = choose|i: int|
                            0 <= i < ti && (#[trigger] ms.take(ti as int)[i]).contains_key(k);
                        assert(ms.take(ti + 1)[i].contains_key(k));
                    } else {
                        assert(ks.contains(k));
                        assert(ms.take(ti + 1)[ti as int].contains_key(k));
                    }
                }
                if merged_contains(ms.take(ti + 1), k) {
                    let i = choose|i: int|
                        0 <= i < ti + 1 && (#[trigger] ms.take(ti + 1)[i]).contains_key(k);
                    if i < ti {
                        assert(ms.take(ti as int)[i].contains_key(k));
                    } else {
                        assert(tables@[ti as int]@.contains_key(k));
                        assert(ks.contains(k));
                    }
                }
            }
        }
        ti += 1;
    }
    proof {
        assert(ms.take(tables@.len() as int) =~= ms);
    }
    names
}

/// Fold one station's aggregates across all tables:
/// `(min, max, sum, count)`.
fn fold_station(tables: &Vec<Table>, key: &Vec<u8>) -> (r: (i32, i32, i64, u64))
    requires
        forall|i: int| 0 <= i < tables@.len() ==> (#[trigger] tables@[i]).wf(),
        forall|k: Seq<u8>| #[trigger]
            merged_contains(table_views(tables@), k) ==> merged_val(table_views(tables@), k).count
                <= MAX_COUNT,
    ensures
        merged_val(table_views(tables@), key@) == (AggSpec {
            min: r.0 as int,
            max: r.1 as int,
            sum: r.2 as int,
            count: r.3 as int,
        }),
{
    let ghost ms = table_views(tables@);
    proof {
        assert forall|i: int| 0 <= i < ms.len() implies map_wf(#[trigger] ms[i]) by {
            tables@[i].lemma_keys();
        }
    }
    let h = key_hash(key.as_slice());
    let mut minv: i32 = i32::MAX;
    let mut maxv: i32 = i32::MIN;
    let mut sum: i64 = 0;
    let mut cnt: u64 = 0;
    let mut t: usize = 0;
    proof {
        assert(ms.take(0) =~= Seq::<Map<Seq<u8>, AggSpec>>::empty());
    }
    while t < tables.len()
        invariant
            t <= tables@.len(),
            ms == table_views(tables@),
            forall|i: int| 0 <= i < tables@.len() ==> (#[trigger] tables@[i]).wf(),
            forall|i: int| 0 <= i < ms.len() ==> map_wf(#[trigger] ms[i]),
            forall|k: Seq<u8>| #[trigger]
                merged_contains(ms, k) ==> merged_val(ms, k).count <= MAX_COUNT,
            h.0 == crate::table::spec_key_hash(key@),
            merged_val(ms.take(t as int), key@) == (AggSpec {
                min: minv as int,
                max: maxv as int,
                sum: sum as int,
                count: cnt as int,
            }),
            0 <= cnt <= MAX_COUNT,
            -999 * cnt <= sum <= 999 * cnt,
            cnt > 0 ==> -999 <= minv <= maxv <= 999,
            cnt == 0 ==> minv == i32::MAX && maxv == i32::MIN && sum == 0,
        decreases tables@.len() - t,
    {
        let ghost prefix = ms.take(t as int);
        proof {
            assert(ms.take(t + 1).drop_last() =~= prefix);
            assert(ms.take(t + 1).last() == ms[t as int]);
            assert(ms[t as int] == tables@[t as int]@);
        }
        match tables[t].find(h, key.as_slice()) {
            Some(a) => {
                proof {
                    assert(tables@[t as int]@.contains_key(key@));
                    assert(merged_contains(ms, key@));
                    lemma_merged_mono(ms, key@, t + 1);
                    lemma_merged_wf(prefix, key@);
                    assert(wf_agg(tables@[t as int]@[key@]));
                }
                let (mn, mx, s, c) = a;
                if mn < minv {
                    minv = mn;
                }
                if mx > maxv {
                    maxv = mx;
                }
                sum = sum + s;
                cnt = cnt + c;
            },
            None => {
                proof {
                    assert(get_or_empty(ms[t as int], key@) == agg_empty());
                    assert(merged_val(ms.take(t + 1), key@) == agg_merge(
                        merged_val(prefix, key@),
                        agg_empty(),
                    ));
                }
            },
        }
        t += 1;
    }
    proof {
        assert(ms.take(tables@.len() as int) =~= ms);
    }
    (minv, maxv, sum, cnt)
}

/// Merge every partition table and render the summary line.
#[verifier::rlimit(100)]
pub fn merge_format(tables: &Vec<Table>) -> (out: Vec<u8>)
    requires
        forall|i: int| 0 <= i < tables@.len() ==> (#[trigger] tables@[i]).wf(),
        forall|k: Seq<u8>| #[trigger]
            merged_contains(table_views(tables@), k) ==> merged_val(table_views(tables@), k).count
                <= MAX_COUNT,
    ensures
        out@ == spec_output(merge_maps(table_views(tables@))),
{
    let ghost ms = table_views(tables@);
    let ghost m = merge_maps(ms);
    proof {
        assert forall|i: int| 0 <= i < ms.len() implies map_wf(#[trigger] ms[i]) by {
            tables@[i].lemma_keys();
        }
    }
    let names = collect_names(tables);
    let ghost nv = nview(names@);
    let mut out: Vec<u8> = Vec::new();
    out.push(123);
    let mut idx: usize = 0;
    proof {
        assert(out@ =~= seq![123u8] + spec_entries(nv.take(0), m));
    }
    let n = names.len();
    while idx < n
        invariant
            idx <= n == names@.len(),
            ms == table_views(tables@),
            m == merge_maps(ms),
            nv == nview(names@),
            forall|i: int| 0 <= i < tables@.len() ==> (#[trigger] tables@[i]).wf(),
            forall|k: Seq<u8>| #[trigger]
                merged_contains(ms, k) ==> merged_val(ms, k).count <= MAX_COUNT,
            forall|i: int| 0 <= i < ms.len() ==> map_wf(#[trigger] ms[i]),
            forall|k: Seq<u8>| nv.contains(k) <==> merged_contains(ms, k),
            out@ == seq![123u8] + spec_entries(nv.take(idx as int), m),
        decreases n - idx,
    {
        if idx > 0 {
            out.push(44);
            out.push(32);
        }
        let key = &names[idx];
        proof {
            assert(nv[idx as int] == key@);
            assert(nv.contains(key@)) by {
                assert(0 <= idx < nv.len() && nv[idx as int] == key@);
            }
            lemma_merged_wf(ms, key@);
        }
        let (minv, maxv, sum, cnt) = fold_station(tables, key);
        proof {
            assert(m.contains_key(key@));
            assert(m[key@] == merged_val(ms, key@));
        }
        out.extend_from_slice(key.as_slice());
        let ghost with_name = out@;
        proof {
            assert(with_name =~= (seq![123u8] + spec_entries(nv.take(idx as int), m) + (if idx
                > 0 {
                seq![44u8, 32u8]
            } else {
                Seq::<u8>::empty()
            })) + key@);
        }
        out.push(61);
        render_tenths(minv, &mut out);
        out.push(47);
        let mean = mean_tenths(sum, cnt);
        render_tenths(mean as i32, &mut out);
        out.push(47);
        render_tenths(maxv, &mut out);
        proof {
            let a = m[key@];
            assert(spec_mean(a.sum, a.count) == mean as int);
            assert(nv.take(idx + 1).drop_last() =~= nv.take(idx as int));
            assert(nv.take(idx + 1).last() == nv[idx as int]);
            assert(get_or_empty(m, key@) == a);
            if idx == 0 {
                assert(out@ =~= seq![123u8] + spec_entries(nv.take(1), m));
            } else {
                assert(out@ =~= seq![123u8] + spec_entries(nv.take(idx + 1), m));
            }
        }
        idx += 1;
    }
    out.push(125);
    out.push(10);
    proof {
        assert(nv.take(n as int) =~= nv);
        assert forall|i: int| 0 <= i < ms.len() implies (#[trigger] ms[i]).dom().finite() by {
            tables@[i].lemma_keys();
        }
        lemma_merged_dom_finite(ms);
        assert forall|k: Seq<u8>| nv.contains(k) <==> m.dom().contains(k) by {}
        lemma_canonical_names(nv, m);
        assert(out@ =~= spec_output(m));
    }
    out
}

} // verus!
