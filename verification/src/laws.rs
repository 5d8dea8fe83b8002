//! The library's laws: properties that relate several functions, stated
//! and proved over the same models their contracts use.

use crate::consolidate::{
    aggregate_countries, aggregates, consolidated_series, dedup_keep_last, is_significant,
    kept_series, lemma_aggregate_countries_distinct, lemma_dedup_contains_kept,
    lemma_filter_elements, lemma_sum_at_nonneg, region_index_ok, same_series_key, sorted_by_state,
    subnationals_of, sum_at,
};
use crate::data::{is_minor_locality_spec, region_selected, Config, DataSetV, RegionV, SeriesV};
use crate::order::{lex_le, lex_lt};
use vstd::prelude::*;

verus! {

/// Aggregation correctness: the synthesized series of a country stands at
/// its position among the aggregates with an empty state, and its value at
/// every date index is the sum, over the country's sub-national series, of
/// their values at that index.
pub proof fn lemma_aggregation_correct(kept: Seq<SeriesV>, c: Seq<char>, n: nat, k: int, i: int)
    requires
        0 <= k < aggregate_countries(kept).len(),
        aggregate_countries(kept)[k] == c,
        0 <= i < n,
        sum_at(subnationals_of(kept, c), i) <= u64::MAX,
    ensures
        aggregates(kept, n)[k].region.country == c,
        aggregates(kept, n)[k].region.state.len() == 0,
        aggregates(kept, n)[k].points[i] == sum_at(subnationals_of(kept, c), i),
{
    lemma_sum_at_nonneg(subnationals_of(kept, c), i);
}

/// Every synthesized aggregate survives the deduplication: nothing after
/// it in the combined list answers for the same data, since the aggregates
/// carry pairwise-distinct countries.
pub proof fn lemma_aggregate_survives_dedup(kept: Seq<SeriesV>, n: nat, k: int)
    requires
        0 <= k < aggregate_countries(kept).len(),
    ensures
        dedup_keep_last(kept + aggregates(kept, n)).contains(aggregates(kept, n)[k]),
{
    let combined = kept + aggregates(kept, n);
    let i = kept.len() + k;
    assert(combined[i] == aggregates(kept, n)[k]);
    lemma_aggregate_countries_distinct(kept);
    assert forall|j: int| i < j < combined.len() implies !same_series_key(
        #[trigger] combined[j],
        combined[i],
    ) by {
        let k2 = j - kept.len();
        assert(combined[j] == aggregates(kept, n)[k2]);
        assert(aggregates(kept, n)[k2].region.country == aggregate_countries(kept)[k2]);
        assert(aggregates(kept, n)[k].region.country == aggregate_countries(kept)[k]);
        assert(aggregate_countries(kept)[k] != aggregate_countries(kept)[k2]);
    }
    lemma_dedup_contains_kept(combined, i);
}

/// Sort order of the region index: countries strictly ascending by name,
/// within each country the regions ascending by state name, and the empty
/// name sorting before any other, so a country-level region always leads
/// its country's list.
pub proof fn lemma_region_index_sorted(ds: DataSetV)
    requires
        region_index_ok(ds.regions, ds.series),
    ensures
        forall|i: int, j: int|
            0 <= i < j < ds.regions.len() ==> lex_lt(
                (#[trigger] ds.regions[i]).0,
                (#[trigger] ds.regions[j]).0,
            ),
        forall|k: int| 0 <= k < ds.regions.len() ==> sorted_by_state((#[trigger] ds.regions[k]).1),
        forall|s: Seq<char>| lex_le(Seq::<char>::empty(), s),
{
}

/// Whether `a` appears inside `b` in order (matching greedily from the
/// front, which decides subsequence-hood).
pub open spec fn is_subsequence<A>(a: Seq<A>, b: Seq<A>) -> bool
    decreases b.len(), a.len(),
{
    if a.len() == 0 {
        true
    } else if b.len() == 0 {
        false
    } else if a[0] == b[0] {
        is_subsequence(a.drop_first(), b.drop_first())
    } else {
        is_subsequence(a, b.drop_first())
    }
}

proof fn lemma_subseq_single_last<A>(b: Seq<A>, x: A)
    ensures
        is_subsequence(seq![x], b.push(x)),
    decreases b.len(),
{
    let a = seq![x];
    let bp = b.push(x);
    assert(a[0] == x);
    assert(a.drop_first() =~= Seq::<A>::empty());
    assert(is_subsequence(Seq::<A>::empty(), bp.drop_first()));
    if b.len() == 0 {
        assert(bp[0] == x);
    } else {
        assert(bp[0] == b[0]);
        if x == b[0] {
        } else {
            lemma_subseq_single_last(b.drop_first(), x);
            assert(bp.drop_first() =~= b.drop_first().push(x));
        }
    }
}

proof fn lemma_subseq_extend_both<A>(a: Seq<A>, b: Seq<A>, x: A)
    requires
        is_subsequence(a, b),
    ensures
        is_subsequence(a.push(x), b.push(x)),
    decreases b.len(),
{
    if a.len() == 0 {
        assert(a.push(x) =~= seq![x]);
        lemma_subseq_single_last(b, x);
    } else {
        assert(b.len() > 0);
        assert(a.push(x)[0] == a[0]);
        assert(b.push(x)[0] == b[0]);
        assert(a.push(x).drop_first() =~= a.drop_first().push(x));
        assert(b.push(x).drop_first() =~= b.drop_first().push(x));
        if a[0] == b[0] {
            lemma_subseq_extend_both(a.drop_first(), b.drop_first(), x);
        } else {
            lemma_subseq_extend_both(a, b.drop_first(), x);
        }
    }
}

proof fn lemma_subseq_extend_right<A>(a: Seq<A>, b: Seq<A>, x: A)
    requires
        is_subsequence(a, b),
    ensures
        is_subsequence(a, b.push(x)),
    decreases b.len(),
{
    if a.len() == 0 {
    } else if b.len() == 0 {
    } else {
        assert(b.push(x)[0] == b[0]);
        assert(b.push(x).drop_first() =~= b.drop_first().push(x));
        if a[0] == b[0] {
            lemma_subseq_extend_right(a.drop_first(), b.drop_first(), x);
        } else {
            lemma_subseq_extend_right(a, b.drop_first(), x);
        }
    }
}

/// What a filter keeps stands in the original order: the filtered
/// sequence is a subsequence of the one it was taken from.
pub proof fn lemma_filter_is_subsequence<A>(s: Seq<A>, pred: spec_fn(A) -> bool)
    ensures
        is_subsequence(s.filter(pred), s),
    decreases s.len(),
{
    reveal(Seq::filter);
    if s.len() == 0 {
    } else {
        let s0 = s.drop_last();
        lemma_filter_is_subsequence(s0, pred);
        assert(s =~= s0.push(s.last()));
        if pred(s.last()) {
            lemma_subseq_extend_both(s0.filter(pred), s0, s.last());
        } else {
            lemma_subseq_extend_right(s0.filter(pred), s0, s.last());
        }
    }
}

/// Selection correctness: the selection holds exactly the series whose
/// region is structurally equal to a requested one — none besides, none
/// missing, each at most as often as it occurs — and in the original
/// series order.
pub proof fn lemma_selection_correct(series: Seq<SeriesV>, requested: Seq<RegionV>)
    ensures
        ({
            let sel = series.filter(|s: SeriesV| region_selected(requested, s));
            &&& forall|k: int|
                0 <= k < sel.len() ==> requested.contains((#[trigger] sel[k]).region)
            &&& forall|j: int|
                0 <= j < series.len() && requested.contains(series[j].region) ==> sel.contains(
                    #[trigger] series[j],
                )
            &&& is_subsequence(sel, series)
        }),
{
    let pred = |s: SeriesV| region_selected(requested, s);
    let sel = series.filter(pred);
    assert forall|k: int| 0 <= k < sel.len() implies requested.contains(
        (#[trigger] sel[k]).region,
    ) by {
        Seq::lemma_filter_pred(series, pred, k);
    }
    assert forall|j: int|
        0 <= j < series.len() && requested.contains(series[j].region) implies sel.contains(
        #[trigger] series[j],
    ) by {
        Seq::lemma_filter_contains(series, pred, j);
    }
    lemma_filter_is_subsequence(series, pred);
}

/// Minor-locality exclusion: with the policy enabled, a series whose
/// state names a minor locality neither appears in the consolidated
/// output nor contributes to any country aggregate.
pub proof fn lemma_minor_locality_excluded(raw: Seq<SeriesV>, config: Config, n: nat)
    requires
        config.drop_minor_localities,
    ensures
        forall|k: int|
            0 <= k < consolidated_series(raw, config, n).len() ==> !is_minor_locality_spec(
                (#[trigger] consolidated_series(raw, config, n)[k]).region,
            ),
        forall|c: Seq<char>, j: int|
            0 <= j < subnationals_of(kept_series(raw, config), c).len()
                ==> !is_minor_locality_spec(
                (#[trigger] subnationals_of(kept_series(raw, config), c)[j]).region,
            ),
{
    let keep = |s: SeriesV| !is_minor_locality_spec(s.region);
    let kept = kept_series(raw, config);
    assert(kept == raw.filter(keep));
    assert forall|j: int| 0 <= j < kept.len() implies !is_minor_locality_spec(
        (#[trigger] kept[j]).region,
    ) by {
        Seq::lemma_filter_pred(raw, keep, j);
    }
    let combined = kept + aggregates(kept, n);
    assert forall|k: int| 0 <= k < combined.len() implies !is_minor_locality_spec(
        (#[trigger] combined[k]).region,
    ) by {
        if k < kept.len() {
            assert(combined[k] == kept[k]);
        } else {
            let m = k - kept.len();
            assert(combined[k] == aggregates(kept, n)[m]);
            assert(aggregates(kept, n)[m].region.state.len() == 0);
        }
    }
    let sig = |s: SeriesV| is_significant(s, config);
    let deduped = crate::consolidate::dedup_keep_last(combined);
    let out = consolidated_series(raw, config, n);
    assert(out == deduped.filter(sig));
    crate::consolidate::lemma_dedup_elements(combined);
    lemma_filter_elements(deduped, sig);
    assert forall|k: int| 0 <= k < deduped.len() implies !is_minor_locality_spec(
        (#[trigger] deduped[k]).region,
    ) by {
        assert(combined.contains(deduped[k]));
        let m = choose|m: int| 0 <= m < combined.len() && combined[m] == deduped[k];
        assert(!is_minor_locality_spec(combined[m].region));
    }
    assert forall|k: int| 0 <= k < out.len() implies !is_minor_locality_spec(
        (#[trigger] out[k]).region,
    ) by {
        assert(deduped.contains(out[k]));
        let m = choose|m: int| 0 <= m < deduped.len() && deduped[m] == out[k];
        assert(!is_minor_locality_spec(deduped[m].region));
    }
    assert forall|c: Seq<char>, j: int|
        0 <= j < subnationals_of(kept, c).len() implies !is_minor_locality_spec(
        (#[trigger] subnationals_of(kept, c)[j]).region,
    ) by {
        let sub = |s: SeriesV| crate::consolidate::is_subnational(s) && s.region.country == c;
        Seq::lemma_filter_pred(kept, sub, j);
        lemma_filter_elements(kept, sub);
        assert(kept.contains(subnationals_of(kept, c)[j]));
        let m = choose|m: int| 0 <= m < kept.len() && kept[m] == subnationals_of(kept, c)[j];
        assert(!is_minor_locality_spec(kept[m].region));
    }
}

} // verus!
