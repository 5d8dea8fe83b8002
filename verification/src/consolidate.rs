//! The aggregation engine: turns raw per-locality series into a
//! consolidated data set.

use crate::data::{
    groups_view, is_minor_locality_spec, pair_view, regions_view, series_view, ConsolidationError,
    Config, DataSet, Date, Region, RegionV, Series, SeriesV,
};
use crate::order::{lex_le, lex_lt};
use crate::sort::{sort_groups_by_country, sort_regions_by_state};
use vstd::prelude::*;

verus! {

broadcast use vstd::seq_lib::group_to_multiset_ensures;

/// Filtering a sequence extended by one element keeps the filtered prefix
/// and appends the element exactly when it passes the predicate.
pub proof fn lemma_filter_push<A>(s: Seq<A>, pred: spec_fn(A) -> bool, x: A)
    ensures
        s.push(x).filter(pred) == if pred(x) {
            s.filter(pred).push(x)
        } else {
            s.filter(pred)
        },
{
    reveal(Seq::filter);
    assert(s.push(x).drop_last() =~= s);
    assert(s.push(x).last() == x);
}

/// A filter keeps nothing when no element passes the predicate.
pub proof fn lemma_filter_all_false<A>(s: Seq<A>, pred: spec_fn(A) -> bool)
    requires
        forall|i: int| 0 <= i < s.len() ==> !pred(#[trigger] s[i]),
    ensures
        s.filter(pred) == Seq::<A>::empty(),
    decreases s.len(),
{
    reveal(Seq::filter);
    if s.len() > 0 {
        lemma_filter_all_false(s.drop_last(), pred);
    }
}

/// The raw series that consolidation works on: all of them, or all but the
/// minor localities when that policy is switched on.
pub open spec fn kept_series(raw: Seq<SeriesV>, config: Config) -> Seq<SeriesV> {
    if config.drop_minor_localities {
        raw.filter(|s: SeriesV| !is_minor_locality_spec(s.region))
    } else {
        raw
    }
}

/// A series reported below country level.
pub open spec fn is_subnational(s: SeriesV) -> bool {
    s.region.state.len() > 0
}

/// The sub-national series of country `c`, in input order.
pub open spec fn subnationals_of(kept: Seq<SeriesV>, c: Seq<char>) -> Seq<SeriesV> {
    kept.filter(|s: SeriesV| is_subnational(s) && s.region.country == c)
}

/// The sum of the values at date index `i` across the given series.
pub open spec fn sum_at(ss: Seq<SeriesV>, i: int) -> int
    decreases ss.len(),
{
    if ss.len() == 0 {
        0
    } else {
        sum_at(ss.drop_last(), i) + ss.last().points[i]
    }
}

/// The countries that have at least one sub-national series, in order of
/// first appearance.
pub open spec fn aggregate_countries(ss: Seq<SeriesV>) -> Seq<Seq<char>>
    decreases ss.len(),
{
    if ss.len() == 0 {
        Seq::empty()
    } else {
        let prefix = aggregate_countries(ss.drop_last());
        let s = ss.last();
        if is_subnational(s) && !prefix.contains(s.region.country) {
            prefix.push(s.region.country)
        } else {
            prefix
        }
    }
}

/// The synthesized country-level series for country `c`: its points are the
/// date-wise sums of the country's sub-national series, its tags are taken
/// from the first of them, and its state is empty.
pub open spec fn aggregate_for(kept: Seq<SeriesV>, c: Seq<char>, n: nat) -> SeriesV {
    let subs = subnationals_of(kept, c);
    SeriesV {
        region: RegionV { country: c, state: Seq::empty() },
        data_type: subs[0].data_type,
        series_type: subs[0].series_type,
        points: Seq::new(n, |i: int| sum_at(subs, i) as u64),
    }
}

/// All synthesized country aggregates, one per country with sub-national
/// series, in order of first appearance.
pub open spec fn aggregates(kept: Seq<SeriesV>, n: nat) -> Seq<SeriesV> {
    aggregate_countries(kept).map_values(|c: Seq<char>| aggregate_for(kept, c, n))
}

/// The most recent value of a series, or zero when it has no points.
pub open spec fn last_point_or_zero(points: Seq<u64>) -> u64 {
    if points.len() == 0 {
        0
    } else {
        points.last()
    }
}

/// Whether the significance filter keeps `s`: with a threshold configured,
/// only country-level series whose most recent value reaches it stay.
pub open spec fn is_significant(s: SeriesV, config: Config) -> bool {
    match config.min_country_total_threshold {
        Option::None => true,
        Option::Some(t) => s.region.state.len() == 0 && last_point_or_zero(s.points) >= t,
    }
}

/// Whether two series answer for the same data: the same region and the
/// same case type. The data set never holds two such series.
pub open spec fn same_series_key(a: SeriesV, b: SeriesV) -> bool {
    a.region == b.region && a.data_type == b.data_type
}

/// Whether some series in `s` shares its key with `x`.
pub open spec fn key_appears(s: Seq<SeriesV>, x: SeriesV) -> bool {
    exists|j: int| 0 <= j < s.len() && same_series_key(#[trigger] s[j], x)
}

/// Deduplication by series key, keeping the last occurrence: a series
/// survives exactly when no later series answers for the same data. Since
/// the synthesized aggregates stand last, a country's aggregate supersedes
/// a country-level input row of the same case type.
pub open spec fn dedup_keep_last(s: Seq<SeriesV>) -> Seq<SeriesV>
    decreases s.len(),
{
    if s.len() == 0 {
        Seq::empty()
    } else if key_appears(s.drop_first(), s[0]) {
        dedup_keep_last(s.drop_first())
    } else {
        seq![s[0]] + dedup_keep_last(s.drop_first())
    }
}

/// The full series pipeline: keep, aggregate, append, deduplicate, filter.
pub open spec fn consolidated_series(raw: Seq<SeriesV>, config: Config, n: nat) -> Seq<SeriesV> {
    let kept = kept_series(raw, config);
    dedup_keep_last(kept + aggregates(kept, n)).filter(|s: SeriesV| is_significant(s, config))
}

/// Every raw series has exactly one point per date.
pub open spec fn lengths_match(raw: Seq<SeriesV>, n: nat) -> bool {
    forall|k: int| 0 <= k < raw.len() ==> (#[trigger] raw[k].points).len() == n
}

/// Every date-wise country sum fits in a machine word.
pub open spec fn sums_fit(kept: Seq<SeriesV>, n: nat) -> bool {
    forall|c: Seq<char>, i: int|
        aggregate_countries(kept).contains(c) && 0 <= i < n ==> #[trigger] sum_at(
            subnationals_of(kept, c),
            i,
        ) <= u64::MAX
}

pub proof fn lemma_sum_at_nonneg(ss: Seq<SeriesV>, i: int)
    ensures
        sum_at(ss, i) >= 0,
    decreases ss.len(),
{
    if ss.len() > 0 {
        lemma_sum_at_nonneg(ss.drop_last(), i);
    }
}

pub proof fn lemma_sum_at_concat(x: Seq<SeriesV>, y: Seq<SeriesV>, i: int)
    ensures
        sum_at(x + y, i) == sum_at(x, i) + sum_at(y, i),
    decreases y.len(),
{
    if y.len() == 0 {
        assert(x + y =~= x);
    } else {
        assert((x + y).drop_last() =~= x + y.drop_last());
        assert((x + y).last() == y.last());
        lemma_sum_at_concat(x, y.drop_last(), i);
    }
}

/// A country that aggregation picked up stays picked up as more series
/// are appended.
pub proof fn lemma_aggregate_countries_extend(ss: Seq<SeriesV>, t: Seq<SeriesV>, c: Seq<char>)
    requires
        aggregate_countries(ss).contains(c),
    ensures
        aggregate_countries(ss + t).contains(c),
    decreases t.len(),
{
    if t.len() == 0 {
        assert(ss + t =~= ss);
    } else {
        lemma_aggregate_countries_extend(ss, t.drop_last(), c);
        assert((ss + t).drop_last() =~= ss + t.drop_last());
        let prefix = aggregate_countries(ss + t.drop_last());
        let k = choose|k: int| 0 <= k < prefix.len() && prefix[k] == c;
        if aggregate_countries(ss + t) != prefix {
            assert(aggregate_countries(ss + t) == prefix.push((ss + t).last().region.country));
            assert(aggregate_countries(ss + t)[k] == c);
        }
    }
}

/// Aggregation picks up no two equal countries.
pub proof fn lemma_aggregate_countries_distinct(ss: Seq<SeriesV>)
    ensures
        forall|i: int, j: int|
            0 <= i < j < aggregate_countries(ss).len() ==> aggregate_countries(ss)[i]
                != aggregate_countries(ss)[j],
    decreases ss.len(),
{
    if ss.len() > 0 {
        lemma_aggregate_countries_distinct(ss.drop_last());
        let prefix = aggregate_countries(ss.drop_last());
        let whole = aggregate_countries(ss);
        if whole != prefix {
            assert forall|i: int, j: int| 0 <= i < j < whole.len() implies whole[i] != whole[j] by {
                if j == whole.len() - 1 {
                    assert(prefix.contains(prefix[i]));
                }
            }
        }
    }
}

/// A country that aggregation never picked up has no sub-national series.
pub proof fn lemma_no_country_no_subnationals(ss: Seq<SeriesV>, c: Seq<char>)
    requires
        !aggregate_countries(ss).contains(c),
    ensures
        subnationals_of(ss, c) == Seq::<SeriesV>::empty(),
    decreases ss.len(),
{
    reveal(Seq::filter);
    if ss.len() > 0 {
        let prefix = aggregate_countries(ss.drop_last());
        let whole = aggregate_countries(ss);
        assert forall|k: int| 0 <= k < prefix.len() implies prefix[k] != c by {
            assert(whole[k] == prefix[k]);
        }
        lemma_no_country_no_subnationals(ss.drop_last(), c);
        let s = ss.last();
        if is_subnational(s) && s.region.country == c {
            if prefix.contains(c) {
                assert(false);
            } else {
                assert(whole == prefix.push(c));
                assert(whole[whole.len() - 1] == c);
                assert(false);
            }
        }
    }
}

/// A country that aggregation picked up has at least one sub-national
/// series.
pub proof fn lemma_country_has_subnationals(ss: Seq<SeriesV>, c: Seq<char>)
    requires
        aggregate_countries(ss).contains(c),
    ensures
        subnationals_of(ss, c).len() > 0,
    decreases ss.len(),
{
    reveal(Seq::filter);
    if ss.len() == 0 {
    } else {
        let prefix = aggregate_countries(ss.drop_last());
        let whole = aggregate_countries(ss);
        let s = ss.last();
        assert(subnationals_of(ss, c) == if is_subnational(s) && s.region.country == c {
            subnationals_of(ss.drop_last(), c).push(s)
        } else {
            subnationals_of(ss.drop_last(), c)
        });
        if is_subnational(s) && s.region.country == c {
        } else {
            assert(prefix.contains(c)) by {
                let k = choose|k: int| 0 <= k < whole.len() && whole[k] == c;
                if whole == prefix {
                } else {
                    assert(whole == prefix.push(s.region.country));
                    if k < prefix.len() {
                        assert(prefix[k] == c);
                    } else {
                        assert(c == s.region.country);
                        if is_subnational(s) {
                            assert(false);
                        } else {
                            assert(whole == prefix);
                            assert(false);
                        }
                    }
                }
            }
            lemma_country_has_subnationals(ss.drop_last(), c);
        }
    }
}

/// The index of the aggregate already opened for country `c`, if any.
fn find_country(aggs: &Vec<Series>, c: &String) -> (r: Option<usize>)
    ensures
        match r {
            Some(idx) => idx < aggs@.len() && aggs@[idx as int]@.region.country == c@,
            None => forall|m: int| 0 <= m < aggs@.len() ==> (#[trigger] aggs@[m])@.region.country != c@,
        },
{
    let mut t: usize = 0;
    while t < aggs.len()
        invariant
            t <= aggs.len(),
            forall|m: int| 0 <= m < t ==> (#[trigger] aggs@[m])@.region.country != c@,
        decreases aggs.len() - t,
    {
        if crate::order::str_eq(aggs[t].region.country.as_str(), c.as_str()) {
            return Some(t);
        }
        t = t + 1;
    }
    None
}

/// Synthesizes one zero-state aggregate series per country with
/// sub-national input, its points the date-wise sums of that country's
/// sub-national series; rejects the input if such a sum cannot be held.
fn build_aggregates(kept: &Vec<Series>, n: usize) -> (result: Result<
    Vec<Series>,
    ConsolidationError,
>)
    requires
        forall|k: int| 0 <= k < kept@.len() ==> (#[trigger] kept@[k])@.points.len() == n,
    ensures
        ({
            let keptv = kept@.map_values(|s: Series| s@);
            match result {
                Ok(aggs) => {
                    &&& sums_fit(keptv, n as nat)
                    &&& aggs@.map_values(|s: Series| s@) == aggregates(keptv, n as nat)
                },
                Err(e) => e == ConsolidationError::CaseCountOverflow && !sums_fit(
                    keptv,
                    n as nat,
                ),
            }
        }),
{
    let ghost keptv = kept@.map_values(|s: Series| s@);
    let mut aggs: Vec<Series> = Vec::new();
    let mut j: usize = 0;
    proof {
        assert(keptv.take(0) =~= Seq::<SeriesV>::empty());
    }
    while j < kept.len()
        invariant
            j <= kept.len(),
            keptv == kept@.map_values(|s: Series| s@),
            forall|k: int| 0 <= k < keptv.len() ==> (#[trigger] keptv[k]).points.len() == n,
            aggs@.len() == aggregate_countries(keptv.take(j as int)).len(),
            forall|k: int|
                0 <= k < aggs@.len() ==> (#[trigger] aggs@[k])@ == aggregate_for(
                    keptv.take(j as int),
                    aggregate_countries(keptv.take(j as int))[k],
                    n as nat,
                ),
            forall|k: int, i: int|
                0 <= k < aggs@.len() && 0 <= i < n ==> #[trigger] sum_at(
                    subnationals_of(
                        keptv.take(j as int),
                        aggregate_countries(keptv.take(j as int))[k],
                    ),
                    i,
                ) <= u64::MAX,
        decreases kept.len() - j,
    {
        let ghost pfx = keptv.take(j as int);
        let ghost pfx2 = keptv.take(j as int + 1);
        let ghost sv = keptv[j as int];
        let ghost c = sv.region.country;
        let ghost subs = subnationals_of(pfx, c);
        let ghost subpred = |s: SeriesV| is_subnational(s) && s.region.country == c;
        proof {
            assert(sv == kept@[j as int]@);
            assert(pfx2 =~= pfx.push(sv));
            assert(pfx2.drop_last() =~= pfx);
            assert(pfx2.last() == sv);
        }
        let s = &kept[j];
        if s.region.state.as_str().unicode_len() > 0 {
            assert(is_subnational(sv));
            match find_country(&aggs, &s.region.country) {
                Some(idx) => {
                    let ghost subs2 = subs.push(sv);
                    let ghost old_aggs = aggs@;
                    let ghost countries = aggregate_countries(pfx);
                    proof {
                        assert(old_aggs[idx as int]@ == aggregate_for(
                            pfx,
                            countries[idx as int],
                            n as nat,
                        ));
                        assert(aggregate_for(pfx, countries[idx as int], n as nat).region.country
                            == countries[idx as int]);
                        assert(countries[idx as int] == c);
                        assert(countries.contains(c));
                        assert(aggregate_countries(pfx2) == countries);
                        lemma_country_has_subnationals(pfx, c);
                        lemma_filter_push(pfx, subpred, sv);
                        assert(subnationals_of(pfx2, c) == subs2);
                        // the full input extends the processed prefix
                        assert(keptv =~= pfx2 + keptv.skip(j as int + 1));
                        lemma_aggregate_countries_extend(pfx2, keptv.skip(j as int + 1), c);
                        assert(aggregate_countries(keptv).contains(c));
                        assert(subnationals_of(keptv, c) == subnationals_of(pfx2, c)
                            + subnationals_of(keptv.skip(j as int + 1), c)) by {
                            Seq::filter_distributes_over_add(
                                pfx2,
                                keptv.skip(j as int + 1),
                                subpred,
                            );
                        }
                    }
                    proof {
                        assert forall|t: int| 0 <= t < n implies sum_at(subnationals_of(keptv, c), t)
                            >= sum_at(subs2, t) by {
                            lemma_sum_at_concat(
                                subnationals_of(pfx2, c),
                                subnationals_of(keptv.skip(j as int + 1), c),
                                t,
                            );
                            lemma_sum_at_nonneg(subnationals_of(keptv.skip(j as int + 1), c), t);
                        }
                    }
                    let mut acc = aggs.remove(idx);
                    proof {
                        assert(acc@ == aggregate_for(pfx, c, n as nat));
                        assert(acc@.points.len() == n);
                        assert(sv.points.len() == n);
                        assert forall|t: int| 0 <= t < n implies acc.points@[t] == sum_at(subs, t)
                            && sum_at(subs2, t) == sum_at(subs, t) + sv.points[t] by {
                            lemma_sum_at_nonneg(subs, t);
                            assert(acc@.points[t] == sum_at(subs, t) as u64);
                            assert(subs2.drop_last() =~= subs);
                        }
                    }
                    let mut new_points: Vec<u64> = Vec::new();
                    let mut i: usize = 0;
                    while i < n
                        invariant
                            i <= n,
                            keptv == kept@.map_values(|s2: Series| s2@),
                            j < kept@.len(),
                            keptv.len() == kept@.len(),
                            s@ == sv,
                            new_points@.len() == i,
                            acc.points@.len() == n,
                            sv.points.len() == n,
                            sv == keptv[j as int],
                            c == sv.region.country,
                            subs2 == subs.push(sv),
                            aggregate_countries(keptv).contains(c),
                            forall|t: int|
                                0 <= t < n ==> #[trigger] acc.points@[t] == sum_at(subs, t),
                            forall|t: int|
                                0 <= t < n ==> sum_at(subs2, t) == sum_at(subs, t) + sv.points[t],
                            forall|t: int|
                                0 <= t < n ==> sum_at(subnationals_of(keptv, c), t) >= #[trigger] sum_at(
                                    subs2,
                                    t,
                                ),
                            forall|t: int|
                                0 <= t < i ==> #[trigger] new_points@[t] == sum_at(subs2, t),
                        decreases n - i,
                    {
                        match acc.points[i].checked_add(s.points[i]) {
                            None => {
                                proof {
                                    assert(s.points@[i as int] == sv.points[i as int]);
                                    assert(sum_at(subs2, i as int) > u64::MAX);
                                    assert(sum_at(subnationals_of(keptv, c), i as int)
                                        > u64::MAX);
                                    assert(!sums_fit(keptv, n as nat));
                                }
                                return Err(ConsolidationError::CaseCountOverflow);
                            },
                            Some(v) => {
                                proof {
                                    assert(s.points@[i as int] == sv.points[i as int]);
                                    assert(v == sum_at(subs2, i as int));
                                }
                                new_points.push(v);
                            },
                        }
                        i = i + 1;
                    }
                    proof {
                        assert forall|t: int| 0 <= t < n implies 0 <= #[trigger] sum_at(subs2, t)
                            <= u64::MAX by {
                            assert(new_points@[t] == sum_at(subs2, t));
                        }
                    }
                    acc.points = new_points;
                    aggs.insert(idx, acc);
                    proof {
                        lemma_aggregate_countries_distinct(pfx);
                        assert(aggs@ =~= old_aggs.update(idx as int, acc));
                        assert(acc@.points =~= Seq::new(
                            n as nat,
                            |t: int| sum_at(subnationals_of(pfx2, c), t) as u64,
                        ));
                        assert(acc@ == aggregate_for(pfx2, c, n as nat)) by {
                            assert(subs2[0] == subs[0]);
                        }
                        assert forall|k: int|
                            0 <= k < aggs@.len() && k != idx implies subnationals_of(
                            pfx2,
                            countries[k],
                        ) == subnationals_of(pfx, countries[k]) by {
                            assert(countries.contains(countries[k]));
                            assert(countries[k] != c);
                            let p = |s2: SeriesV| is_subnational(s2) && s2.region.country
                                == countries[k];
                            lemma_filter_push(pfx, p, sv);
                        }
                        assert forall|k: int| 0 <= k < aggs@.len() implies (#[trigger] aggs@[k])@
                            == aggregate_for(pfx2, aggregate_countries(pfx2)[k], n as nat) by {
                            if k != idx {
                                assert(aggs@[k]@ == aggregate_for(pfx, countries[k], n as nat));
                            }
                        }
                        assert forall|k: int, i2: int|
                            0 <= k < aggs@.len() && 0 <= i2 < n implies #[trigger] sum_at(
                            subnationals_of(pfx2, aggregate_countries(pfx2)[k]),
                            i2,
                        ) <= u64::MAX by {
                            if k == idx {
                                assert(sum_at(subs2, i2) <= u64::MAX);
                            } else {
                                assert(sum_at(subnationals_of(pfx, countries[k]), i2)
                                    <= u64::MAX);
                            }
                        }
                    }
                },
                None => {
                    let ghost old_aggs = aggs@;
                    let ghost countries = aggregate_countries(pfx);
                    proof {
                        assert forall|k: int|
                            0 <= k < countries.len() implies countries[k] != c by {
                            assert(old_aggs[k]@ == aggregate_for(pfx, countries[k], n as nat));
                        }
                        assert(!countries.contains(c));
                        lemma_no_country_no_subnationals(pfx, c);
                        assert(aggregate_countries(pfx2) == countries.push(c));
                        lemma_filter_push(pfx, subpred, sv);
                        assert(subnationals_of(pfx2, c) =~= Seq::<SeriesV>::empty().push(sv));
                    }
                    let mut agg0 = s.clone();
                    agg0.region = Region {
                        country: s.region.country.clone(),
                        state: String::new(),
                    };
                    aggs.push(agg0);
                    proof {
                        let ghost subs2 = subnationals_of(pfx2, c);
                        assert(subs2.len() == 1 && subs2[0] == sv);
                        assert(aggs@.last()@.points =~= Seq::new(
                            n as nat,
                            |t: int| sum_at(subs2, t) as u64,
                        )) by {
                            assert forall|t: int| 0 <= t < n implies sum_at(subs2, t)
                                == sv.points[t] as int by {
                                assert(subs2.drop_last() =~= Seq::<SeriesV>::empty());
                                assert(subs2.last() == sv);
                                assert(sum_at(subs2.drop_last(), t) == 0);
                            }
                        }
                        assert(aggs@.last()@ == aggregate_for(pfx2, c, n as nat));
                        assert forall|k: int|
                            0 <= k < old_aggs.len() implies subnationals_of(pfx2, countries[k])
                            == subnationals_of(pfx, countries[k]) by {
                            assert(countries.contains(countries[k]));
                            let p = |s2: SeriesV| is_subnational(s2) && s2.region.country
                                == countries[k];
                            lemma_filter_push(pfx, p, sv);
                        }
                        assert forall|k: int| 0 <= k < aggs@.len() implies (#[trigger] aggs@[k])@
                            == aggregate_for(pfx2, aggregate_countries(pfx2)[k], n as nat) by {
                            if k < old_aggs.len() {
                                assert(aggs@[k] == old_aggs[k]);
                                assert(aggregate_countries(pfx2)[k] == countries[k]);
                            }
                        }
                        assert forall|k: int, i2: int|
                            0 <= k < aggs@.len() && 0 <= i2 < n implies #[trigger] sum_at(
                            subnationals_of(pfx2, aggregate_countries(pfx2)[k]),
                            i2,
                        ) <= u64::MAX by {
                            if k < old_aggs.len() {
                                assert(sum_at(subnationals_of(pfx, countries[k]), i2)
                                    <= u64::MAX);
                            } else {
                                assert(aggregate_countries(pfx2)[k] == c);
                                assert(sum_at(subs2, i2) == sv.points[i2] as int) by {
                                    assert(subs2.drop_last() =~= Seq::<SeriesV>::empty());
                                    assert(subs2.last() == sv);
                                    assert(sum_at(subs2.drop_last(), i2) == 0);
                                }
                            }
                        }
                    }
                },
            }
        } else {
            proof {
                assert(!is_subnational(sv));
                assert(aggregate_countries(pfx2) == aggregate_countries(pfx));
                let countries = aggregate_countries(pfx);
                assert forall|k: int|
                    0 <= k < aggs@.len() implies subnationals_of(pfx2, countries[k])
                    == subnationals_of(pfx, countries[k]) by {
                    let p = |s2: SeriesV| is_subnational(s2) && s2.region.country == countries[k];
                    lemma_filter_push(pfx, p, sv);
                }
            }
        }
        j = j + 1;
    }
    proof {
        assert(keptv.take(keptv.len() as int) =~= keptv);
        let countries = aggregate_countries(keptv);
        assert(aggs@.map_values(|s: Series| s@) =~= aggregates(keptv, n as nat));
        assert forall|c2: Seq<char>, i: int|
            countries.contains(c2) && 0 <= i < n implies #[trigger] sum_at(
            subnationals_of(keptv, c2),
            i,
        ) <= u64::MAX by {
            let k = choose|k: int| 0 <= k < countries.len() && countries[k] == c2;
            assert(sum_at(subnationals_of(keptv, countries[k]), i) <= u64::MAX);
        }
    }
    Ok(aggs)
}

/// Every element a filter keeps was in the sequence it was taken from.
pub proof fn lemma_filter_elements<A>(s: Seq<A>, pred: spec_fn(A) -> bool)
    ensures
        forall|k: int|
            0 <= k < s.filter(pred).len() ==> s.contains(#[trigger] s.filter(pred)[k]),
    decreases s.len(),
{
    reveal(Seq::filter);
    if s.len() > 0 {
        lemma_filter_elements(s.drop_last(), pred);
        let f = s.filter(pred);
        let f0 = s.drop_last().filter(pred);
        assert forall|k: int| 0 <= k < f.len() implies s.contains(f[k]) by {
            if k < f0.len() {
                assert(f[k] == f0[k]);
                assert(s.drop_last().contains(f0[k]));
                let m = choose|m: int|
                    0 <= m < s.drop_last().len() && s.drop_last()[m] == f0[k];
                assert(s[m] == f0[k]);
            } else {
                assert(f[k] == s.last());
                assert(s[s.len() - 1] == s.last());
            }
        }
    }
}

/// Every series the deduplication keeps was in the list it was taken
/// from.
pub proof fn lemma_dedup_elements(s: Seq<SeriesV>)
    ensures
        forall|k: int|
            0 <= k < dedup_keep_last(s).len() ==> s.contains(#[trigger] dedup_keep_last(s)[k]),
    decreases s.len(),
{
    if s.len() > 0 {
        lemma_dedup_elements(s.drop_first());
        let d = dedup_keep_last(s);
        let d0 = dedup_keep_last(s.drop_first());
        assert forall|k: int| 0 <= k < d.len() implies s.contains(d[k]) by {
            if key_appears(s.drop_first(), s[0]) {
                assert(d[k] == d0[k]);
                assert(s.drop_first().contains(d0[k]));
                let m = choose|m: int|
                    0 <= m < s.drop_first().len() && s.drop_first()[m] == d0[k];
                assert(s[m + 1] == d0[k]);
            } else {
                if k == 0 {
                    assert(d[0] == s[0]);
                } else {
                    assert(d[k] == d0[k - 1]);
                    assert(s.drop_first().contains(d0[k - 1]));
                    let m = choose|m: int|
                        0 <= m < s.drop_first().len() && s.drop_first()[m] == d0[k - 1];
                    assert(s[m + 1] == d0[k - 1]);
                }
            }
        }
    }
}

/// No two series the deduplication keeps answer for the same data.
pub proof fn lemma_dedup_distinct_keys(s: Seq<SeriesV>)
    ensures
        forall|a: int, b: int|
            0 <= a < b < dedup_keep_last(s).len() ==> !same_series_key(
                #[trigger] dedup_keep_last(s)[a],
                #[trigger] dedup_keep_last(s)[b],
            ),
    decreases s.len(),
{
    if s.len() > 0 {
        lemma_dedup_distinct_keys(s.drop_first());
        lemma_dedup_elements(s.drop_first());
        let d = dedup_keep_last(s);
        let d0 = dedup_keep_last(s.drop_first());
        if !key_appears(s.drop_first(), s[0]) {
            assert forall|a: int, b: int| 0 <= a < b < d.len() implies !same_series_key(
                d[a],
                d[b],
            ) by {
                if a == 0 {
                    assert(d[0] == s[0]);
                    assert(d[b] == d0[b - 1]);
                    assert(s.drop_first().contains(d0[b - 1]));
                    let m = choose|m: int|
                        0 <= m < s.drop_first().len() && s.drop_first()[m] == d0[b - 1];
                    if same_series_key(d[0], d[b]) {
                        assert(same_series_key(s.drop_first()[m], s[0]));
                        assert(key_appears(s.drop_first(), s[0]));
                    }
                } else {
                    assert(d[a] == d0[a - 1] && d[b] == d0[b - 1]);
                }
            }
        }
    }
}

/// A series after which no same-key series follows survives the
/// deduplication.
pub proof fn lemma_dedup_contains_kept(s: Seq<SeriesV>, i: int)
    requires
        0 <= i < s.len(),
        forall|j: int| i < j < s.len() ==> !same_series_key(#[trigger] s[j], s[i]),
    ensures
        dedup_keep_last(s).contains(s[i]),
    decreases s.len(),
{
    if i == 0 {
        assert forall|j: int| 0 <= j < s.drop_first().len() implies !same_series_key(
            #[trigger] s.drop_first()[j],
            s[0],
        ) by {
            assert(s.drop_first()[j] == s[j + 1]);
        }
        assert(!key_appears(s.drop_first(), s[0]));
        assert(dedup_keep_last(s)[0] == s[0]);
    } else {
        assert forall|j: int|
            i - 1 < j < s.drop_first().len() implies !same_series_key(
            #[trigger] s.drop_first()[j],
            s.drop_first()[i - 1],
        ) by {
            assert(s.drop_first()[j] == s[j + 1]);
            assert(s.drop_first()[i - 1] == s[i]);
        }
        lemma_dedup_contains_kept(s.drop_first(), i - 1);
        let d0 = dedup_keep_last(s.drop_first());
        let m = choose|m: int| 0 <= m < d0.len() && d0[m] == s.drop_first()[i - 1];
        assert(s.drop_first()[i - 1] == s[i]);
        if key_appears(s.drop_first(), s[0]) {
            assert(dedup_keep_last(s)[m] == s[i]);
        } else {
            assert(dedup_keep_last(s)[m + 1] == d0[m]);
        }
    }
}

/// A filter of a list whose series keys are pairwise distinct keeps them
/// pairwise distinct.
pub proof fn lemma_filter_distinct_keys(s: Seq<SeriesV>, pred: spec_fn(SeriesV) -> bool)
    requires
        forall|a: int, b: int|
            0 <= a < b < s.len() ==> !same_series_key(#[trigger] s[a], #[trigger] s[b]),
    ensures
        forall|a: int, b: int|
            0 <= a < b < s.filter(pred).len() ==> !same_series_key(
                #[trigger] s.filter(pred)[a],
                #[trigger] s.filter(pred)[b],
            ),
    decreases s.len(),
{
    reveal(Seq::filter);
    if s.len() > 0 {
        let s0 = s.drop_last();
        assert forall|a: int, b: int| 0 <= a < b < s0.len() implies !same_series_key(
            #[trigger] s0[a],
            #[trigger] s0[b],
        ) by {
            assert(s0[a] == s[a] && s0[b] == s[b]);
        }
        lemma_filter_distinct_keys(s0, pred);
        lemma_filter_elements(s0, pred);
        let f = s.filter(pred);
        let f0 = s0.filter(pred);
        assert forall|a: int, b: int| 0 <= a < b < f.len() implies !same_series_key(
            f[a],
            f[b],
        ) by {
            if pred(s.last()) {
                if b == f.len() - 1 {
                    assert(f[a] == f0[a]);
                    assert(s0.contains(f0[a]));
                    let m = choose|m: int| 0 <= m < s0.len() && s0[m] == f0[a];
                    assert(s[m] == f0[a]);
                    assert(f[b] == s[s.len() - 1]);
                } else {
                    assert(f[a] == f0[a] && f[b] == f0[b]);
                }
            } else {
                assert(f[a] == f0[a] && f[b] == f0[b]);
            }
        }
    }
}

/// The countries named by a list of series, with repetition.
pub open spec fn series_countries(series: Seq<SeriesV>) -> Seq<Seq<char>> {
    series.map_values(|s: SeriesV| s.region.country)
}

/// The regions of the series of country `c`, in series order.
pub open spec fn regions_of_country(series: Seq<SeriesV>, c: Seq<char>) -> Seq<RegionV> {
    series.filter(|s: SeriesV| s.region.country == c).map_values(|s: SeriesV| s.region)
}

/// A region list sorted by state name ascending (the empty state first).
pub open spec fn sorted_by_state(rs: Seq<RegionV>) -> bool {
    forall|i: int, j: int| 0 <= i <= j < rs.len() ==> lex_le(#[trigger] rs[i].state, #[trigger] rs[j].state)
}

/// The index of the region-index entry already opened for country `c`, if
/// any.
fn find_group(groups: &Vec<(String, Vec<Region>)>, c: &String) -> (r: Option<usize>)
    ensures
        match r {
            Some(idx) => idx < groups@.len() && groups@[idx as int].0@ == c@,
            None => forall|m: int| 0 <= m < groups@.len() ==> (#[trigger] groups@[m]).0@ != c@,
        },
{
    let mut t: usize = 0;
    while t < groups.len()
        invariant
            t <= groups.len(),
            forall|m: int| 0 <= m < t ==> (#[trigger] groups@[m]).0@ != c@,
        decreases groups.len() - t,
    {
        if crate::order::str_eq(groups[t].0.as_str(), c.as_str()) {
            return Some(t);
        }
        t = t + 1;
    }
    None
}

/// Builds the region index of a list of series: one entry per distinct
/// country, strictly sorted by country name, each listing that country's
/// regions sorted by state name.
fn build_region_index(series: &Vec<Series>) -> (r: Vec<(String, Vec<Region>)>)
    ensures
        region_index_ok(groups_view(r@), series_view(series@)),
{
    let ghost sv = series_view(series@);
    let mut groups: Vec<(String, Vec<Region>)> = Vec::new();
    let mut j: usize = 0;
    proof {
        assert(sv.take(0) =~= Seq::<SeriesV>::empty());
    }
    while j < series.len()
        invariant
            j <= series.len(),
            sv == series_view(series@),
            forall|a: int, b: int|
                0 <= a < b < groups@.len() ==> (#[trigger] groups@[a]).0@ != (
                #[trigger] groups@[b]).0@,
            forall|k: int|
                0 <= k < groups@.len() ==> series_countries(sv.take(j as int)).contains(
                    (#[trigger] groups@[k]).0@,
                ),
            forall|j2: int|
                0 <= j2 < j ==> exists|k: int|
                    0 <= k < groups@.len() && (#[trigger] groups@[k]).0@ == (
                    #[trigger] sv[j2]).region.country,
            forall|k: int|
                0 <= k < groups@.len() ==> regions_view((#[trigger] groups@[k]).1@)
                    == regions_of_country(sv.take(j as int), groups@[k].0@),
        decreases series.len() - j,
    {
        let ghost pfx = sv.take(j as int);
        let ghost pfx2 = sv.take(j as int + 1);
        let ghost svj = sv[j as int];
        let ghost c = svj.region.country;
        proof {
            assert(svj == series@[j as int]@);
            assert(pfx2 =~= pfx.push(svj));
            assert(series_countries(pfx2) =~= series_countries(pfx).push(c));
        }
        let s = &series[j];
        match find_group(&groups, &s.region.country) {
            Some(idx) => {
                let ghost old_groups = groups@;
                let mut g = groups.remove(idx);
                g.1.push(s.region.clone());
                groups.insert(idx, g);
                proof {
                    assert(groups@ =~= old_groups.update(idx as int, g));
                    assert(regions_view(g.1@) =~= regions_view(old_groups[idx as int].1@).push(
                        svj.region,
                    ));
                    assert forall|k: int| 0 <= k < groups@.len() implies regions_view(
                        (#[trigger] groups@[k]).1@,
                    ) == regions_of_country(pfx2, groups@[k].0@) by {
                        let p = |s2: SeriesV| s2.region.country == groups@[k].0@;
                        lemma_filter_push(pfx, p, svj);
                        if k == idx {
                            assert(groups@[k].0@ == c);
                            assert(pfx2.filter(p) == pfx.filter(p).push(svj));
                            assert(regions_of_country(pfx2, c) =~= regions_of_country(
                                pfx,
                                c,
                            ).push(svj.region));
                        } else {
                            assert(groups@[k] == old_groups[k]);
                            assert(groups@[k].0@ != c);
                            assert(pfx2.filter(p) == pfx.filter(p));
                            assert(regions_of_country(pfx2, groups@[k].0@) =~= regions_of_country(
                                pfx,
                                groups@[k].0@,
                            ));
                        }
                    }
                    assert forall|j2: int| 0 <= j2 < j + 1 implies exists|k: int|
                        0 <= k < groups@.len() && (#[trigger] groups@[k]).0@ == (
                        #[trigger] sv[j2]).region.country by {
                        if j2 == j {
                            assert(groups@[idx as int].0@ == c);
                        } else {
                            let k = choose|k: int|
                                0 <= k < old_groups.len() && (#[trigger] old_groups[k]).0@
                                    == sv[j2].region.country;
                            assert(groups@[k].0@ == old_groups[k].0@);
                        }
                    }
                    assert forall|k: int| 0 <= k < groups@.len() implies series_countries(
                        pfx2,
                    ).contains((#[trigger] groups@[k]).0@) by {
                        assert(series_countries(pfx).contains(old_groups[k].0@));
                        let m = choose|m: int|
                            0 <= m < series_countries(pfx).len() && series_countries(pfx)[m]
                                == old_groups[k].0@;
                        assert(series_countries(pfx2)[m] == old_groups[k].0@);
                    }
                }
            },
            None => {
                let ghost old_groups = groups@;
                let mut states: Vec<Region> = Vec::new();
                states.push(s.region.clone());
                groups.push((s.region.country.clone(), states));
                proof {
                    let p = |s2: SeriesV| s2.region.country == c;
                    assert forall|j2: int| 0 <= j2 < pfx.len() implies !p(
                        #[trigger] pfx[j2],
                    ) by {
                        if pfx[j2].region.country == c {
                            assert(sv[j2] == pfx[j2]);
                            let k = choose|k: int|
                                0 <= k < old_groups.len() && (#[trigger] old_groups[k]).0@
                                    == sv[j2].region.country;
                        }
                    }
                    lemma_filter_all_false(pfx, p);
                    lemma_filter_push(pfx, p, svj);
                    assert(pfx2.filter(p) =~= Seq::<SeriesV>::empty().push(svj));
                    assert(regions_of_country(pfx2, c) =~= Seq::<RegionV>::empty().push(
                        svj.region,
                    ));
                    let last = groups@.len() - 1;
                    assert(groups@[last].0@ == c);
                    assert(regions_view(groups@[last].1@) =~= Seq::<RegionV>::empty().push(
                        svj.region,
                    ));
                    assert forall|k: int| 0 <= k < groups@.len() implies regions_view(
                        (#[trigger] groups@[k]).1@,
                    ) == regions_of_country(pfx2, groups@[k].0@) by {
                        if k < last {
                            assert(groups@[k] == old_groups[k]);
                            assert(groups@[k].0@ != c);
                            let p2 = |s2: SeriesV| s2.region.country == groups@[k].0@;
                            lemma_filter_push(pfx, p2, svj);
                            assert(regions_of_country(pfx2, groups@[k].0@) =~= regions_of_country(
                                pfx,
                                groups@[k].0@,
                            ));
                        }
                    }
                    assert forall|k: int| 0 <= k < groups@.len() implies series_countries(
                        pfx2,
                    ).contains((#[trigger] groups@[k]).0@) by {
                        if k < last {
                            assert(series_countries(pfx).contains(old_groups[k].0@));
                            let m = choose|m: int|
                                0 <= m < series_countries(pfx).len() && series_countries(pfx)[m]
                                    == old_groups[k].0@;
                            assert(series_countries(pfx2)[m] == old_groups[k].0@);
                        } else {
                            assert(series_countries(pfx2)[pfx.len() as int] == c);
                        }
                    }
                    assert forall|j2: int| 0 <= j2 < j + 1 implies exists|k: int|
                        0 <= k < groups@.len() && (#[trigger] groups@[k]).0@ == (
                        #[trigger] sv[j2]).region.country by {
                        if j2 == j {
                            assert(groups@[last].0@ == c);
                        } else {
                            let k = choose|k: int|
                                0 <= k < old_groups.len() && (#[trigger] old_groups[k]).0@
                                    == sv[j2].region.country;
                            assert(groups@[k].0@ == old_groups[k].0@);
                        }
                    }
                }
            },
        }
        j = j + 1;
    }
    proof {
        assert(sv.take(sv.len() as int) =~= sv);
    }
    // sort each country's regions by state
    let ghost grouped = groups@;
    let mut polished: Vec<(String, Vec<Region>)> = Vec::new();
    while groups.len() > 0
        invariant
            polished@.len() + groups@.len() == grouped.len(),
            groups@ == grouped.skip(polished@.len() as int),
            forall|k: int|
                0 <= k < polished@.len() ==> (#[trigger] polished@[k]).0@ == grouped[k].0@
                    && sorted_by_state(regions_view(polished@[k].1@)) && regions_view(
                    polished@[k].1@,
                ).to_multiset() == regions_view(grouped[k].1@).to_multiset(),
        decreases groups.len(),
    {
        let ghost t = polished@.len() as int;
        let g = groups.remove(0);
        proof {
            assert(grouped.skip(t)[0] == grouped[t]);
            assert(g == grouped[t]);
            assert(grouped.skip(t).remove(0) =~= grouped.skip(t + 1));
        }
        let sorted_states = sort_regions_by_state(g.1);
        polished.push((g.0, sorted_states));
    }
    // sort the countries
    proof {
        assert forall|a: int, b: int|
            0 <= a < b < polished@.len() implies (#[trigger] polished@[a]).0@ != (
        #[trigger] polished@[b]).0@ by {
            assert(polished@[a].0@ == grouped[a].0@ && polished@[b].0@ == grouped[b].0@);
        }
    }
    let ghost polishedv = polished@;
    let sorted = sort_groups_by_country(polished);
    proof {
        let pview = |p: (String, Vec<Region>)| pair_view(p);
        let ps = polishedv.map_values(pview);
        let ss = sorted@.map_values(pview);
        let r = groups_view(sorted@);
        assert(r == ss);
        assert(ps.to_multiset() == ss.to_multiset());
        assert(polishedv.len() == grouped.len());
        // every entry of the sorted index is one of the grouped entries
        assert forall|k: int| 0 <= k < r.len() implies series_countries(sv).contains(
            (#[trigger] r[k]).0,
        ) && sorted_by_state(r[k].1) && r[k].1.to_multiset() == regions_of_country(
            sv,
            r[k].0,
        ).to_multiset() by {
            assert(ss[k] == pair_view(sorted@[k]));
            assert(ss.contains(ss[k]));
            assert(ss.to_multiset().count(ss[k]) > 0);
            assert(ps.to_multiset().count(ss[k]) > 0);
            assert(ps.contains(ss[k]));
            let m = choose|m: int| 0 <= m < ps.len() && ps[m] == ss[k];
            assert(ps[m] == pair_view(polishedv[m]));
            assert(r[k].0 == polishedv[m].0@ && r[k].1 == regions_view(polishedv[m].1@));
            assert(polishedv[m].0@ == grouped[m].0@);
            assert(regions_view(grouped[m].1@) == regions_of_country(sv, grouped[m].0@));
        }
        // every country of the series has an entry
        assert forall|j2: int| 0 <= j2 < sv.len() implies index_countries(r).contains(
            (#[trigger] sv[j2]).region.country,
        ) by {
            let m = choose|m: int|
                0 <= m < grouped.len() && (#[trigger] grouped[m]).0@ == sv[j2].region.country;
            assert(ps[m] == pair_view(polishedv[m]));
            assert(ps.contains(ps[m]));
            assert(ps.to_multiset().count(ps[m]) > 0);
            assert(ss.to_multiset().count(ps[m]) > 0);
            assert(ss.contains(ps[m]));
            let k = choose|k: int| 0 <= k < ss.len() && ss[k] == ps[m];
            assert(ss[k] == pair_view(sorted@[k]));
            assert(r[k].0 == polishedv[m].0@);
            assert(index_countries(r)[k] == sv[j2].region.country);
        }
        assert forall|a: int, b: int| 0 <= a < b < r.len() implies lex_lt(
            (#[trigger] r[a]).0,
            (#[trigger] r[b]).0,
        ) by {
            assert(r[a] == pair_view(sorted@[a]) && r[b] == pair_view(sorted@[b]));
        }
    }
    sorted
}

/// What the region index promises: countries strictly sorted by name, one
/// entry per country of `series`, and per country its regions sorted by
/// state, one per series of that country.
/// Drops every raw series that reports a minor locality.
fn drop_minor(raw: Vec<Series>) -> (r: Vec<Series>)
    ensures
        series_view(r@) == series_view(raw@).filter(
            |s: SeriesV| !is_minor_locality_spec(s.region),
        ),
{
    let ghost pred = |s: SeriesV| !is_minor_locality_spec(s.region);
    let mut r: Vec<Series> = Vec::new();
    let mut i: usize = 0;
    proof {
        assert(series_view(raw@.take(0)) =~= Seq::<SeriesV>::empty());
        assert(Seq::<SeriesV>::empty().filter(pred) =~= Seq::<SeriesV>::empty()) by {
            reveal(Seq::filter);
        }
        assert(series_view(r@) =~= Seq::<SeriesV>::empty());
    }
    while i < raw.len()
        invariant
            i <= raw.len(),
            pred == (|s: SeriesV| !is_minor_locality_spec(s.region)),
            series_view(r@) == series_view(raw@.take(i as int)).filter(pred),
        decreases raw.len() - i,
    {
        let ghost prefix = series_view(raw@.take(i as int));
        if !raw[i].region.is_minor_locality() {
            r.push(raw[i].clone());
        }
        proof {
            assert(series_view(raw@.take(i + 1)) =~= prefix.push(raw@[i as int]@));
            lemma_filter_push(prefix, pred, raw@[i as int]@);
        }
        i = i + 1;
    }
    proof {
        assert(raw@.take(raw@.len() as int) =~= raw@);
    }
    r
}

/// Whether two series answer for the same region and case type.
fn same_key(a: &Series, b: &Series) -> (r: bool)
    ensures
        r == same_series_key(a@, b@),
{
    crate::order::str_eq(a.region.country.as_str(), b.region.country.as_str())
        && crate::order::str_eq(a.region.state.as_str(), b.region.state.as_str()) && a.data_type
        == b.data_type
}

/// Deduplicates the combined series list by (region, case type), keeping
/// each key's last occurrence, so that a synthesized aggregate supersedes
/// a country-level input row of the same case type.
fn dedup_series(all: Vec<Series>) -> (r: Vec<Series>)
    ensures
        series_view(r@) == dedup_keep_last(series_view(all@)),
{
    let ghost sv = series_view(all@);
    let mut out: Vec<Series> = Vec::new();
    let mut i: usize = 0;
    proof {
        assert(sv.skip(0) =~= sv);
        assert(series_view(out@) =~= Seq::<SeriesV>::empty());
        assert(series_view(out@) + dedup_keep_last(sv.skip(0)) =~= dedup_keep_last(sv));
    }
    while i < all.len()
        invariant
            i <= all.len(),
            sv == series_view(all@),
            series_view(out@) + dedup_keep_last(sv.skip(i as int)) == dedup_keep_last(sv),
        decreases all.len() - i,
    {
        let ghost old_out = out@;
        let mut j: usize = i + 1;
        let mut dup = false;
        while j < all.len()
            invariant
                i < j <= all.len(),
                i < all.len(),
                sv == series_view(all@),
                dup ==> key_appears(sv.skip(i as int + 1), sv[i as int]),
                !dup ==> forall|m: int|
                    i < m < j ==> !same_series_key(#[trigger] sv[m], sv[i as int]),
            decreases all.len() - j,
        {
            if same_key(&all[j], &all[i]) {
                dup = true;
                proof {
                    assert(sv.skip(i as int + 1)[j - i - 1] == sv[j as int]);
                    assert(key_appears(sv.skip(i as int + 1), sv[i as int]));
                }
            }
            j = j + 1;
        }
        proof {
            let tail = sv.skip(i as int + 1);
            if !dup {
                assert forall|m: int| 0 <= m < tail.len() implies !same_series_key(
                    #[trigger] tail[m],
                    sv[i as int],
                ) by {
                    assert(tail[m] == sv[m + i + 1]);
                }
                assert(!key_appears(tail, sv[i as int]));
            }
            assert(sv.skip(i as int).drop_first() =~= sv.skip(i as int + 1));
            assert(sv.skip(i as int)[0] == sv[i as int]);
        }
        if !dup {
            out.push(all[i].clone());
            proof {
                assert(series_view(out@) =~= series_view(old_out).push(sv[i as int]));
                assert(series_view(out@) + dedup_keep_last(sv.skip(i as int + 1))
                    =~= series_view(old_out) + (seq![sv[i as int]] + dedup_keep_last(
                    sv.skip(i as int + 1),
                )));
            }
        }
        i = i + 1;
    }
    proof {
        assert(sv.skip(sv.len() as int).len() == 0);
        assert(series_view(out@) + dedup_keep_last(sv.skip(sv.len() as int)) =~= series_view(
            out@,
        ));
    }
    out
}

/// Applies the significance filter to the combined series list.
fn keep_significant(all: Vec<Series>, config: Config) -> (r: Vec<Series>)
    ensures
        series_view(r@) == series_view(all@).filter(|s: SeriesV| is_significant(s, config)),
{
    let ghost pred = |s: SeriesV| is_significant(s, config);
    let mut r: Vec<Series> = Vec::new();
    let mut i: usize = 0;
    proof {
        assert(series_view(all@.take(0)) =~= Seq::<SeriesV>::empty());
        assert(Seq::<SeriesV>::empty().filter(pred) =~= Seq::<SeriesV>::empty()) by {
            reveal(Seq::filter);
        }
        assert(series_view(r@) =~= Seq::<SeriesV>::empty());
    }
    while i < all.len()
        invariant
            i <= all.len(),
            pred == (|s: SeriesV| is_significant(s, config)),
            series_view(r@) == series_view(all@.take(i as int)).filter(pred),
        decreases all.len() - i,
    {
        let ghost prefix = series_view(all@.take(i as int));
        let s = &all[i];
        let keep: bool = match config.min_country_total_threshold {
            None => true,
            Some(t) => {
                let last: u64 = if s.points.len() == 0 {
                    0
                } else {
                    s.points[s.points.len() - 1]
                };
                s.region.state.as_str().unicode_len() == 0 && last >= t
            },
        };
        proof {
            assert(keep == is_significant(s@, config));
        }
        if keep {
            r.push(s.clone());
        }
        proof {
            assert(series_view(all@.take(i + 1)) =~= prefix.push(all@[i as int]@));
            lemma_filter_push(prefix, pred, all@[i as int]@);
        }
        i = i + 1;
    }
    proof {
        assert(all@.take(all@.len() as int) =~= all@);
    }
    r
}

impl DataSet {
    /// Consolidates raw per-locality series into a data set: optionally
    /// drops minor localities, synthesizes one zero-state aggregate per
    /// country with sub-national series by summing their points date-wise,
    /// deduplicates by (region, case type) — keeping each key's last
    /// occurrence, so an aggregate supersedes a country-level input row —
    /// optionally keeps only significant country-level series, and builds
    /// the sorted region index. No two series of the result answer for the
    /// same data. Rejects input in which a series does not have one point
    /// per date, or in which an aggregate sum cannot be held in a machine
    /// word.
    pub fn new(dates: Vec<Date>, raw_series: Vec<Series>, config: Config) -> (result: Result<
        DataSet,
        ConsolidationError,
    >)
        ensures
            ({
                let raw = series_view(raw_series@);
                let n = dates@.len();
                match result {
                    Ok(ds) => {
                        &&& lengths_match(raw, n)
                        &&& sums_fit(kept_series(raw, config), n)
                        &&& ds@.dates == dates@
                        &&& ds@.series == consolidated_series(raw, config, n)
                        &&& forall|a: int, b: int|
                            0 <= a < b < ds@.series.len() ==> !same_series_key(
                                #[trigger] ds@.series[a],
                                #[trigger] ds@.series[b],
                            )
                        &&& region_index_ok(ds@.regions, ds@.series)
                    },
                    Err(ConsolidationError::PointCountMismatch) => !lengths_match(raw, n),
                    Err(ConsolidationError::CaseCountOverflow) => lengths_match(raw, n)
                        && !sums_fit(kept_series(raw, config), n),
                }
            }),
    {
        let ghost raw = series_view(raw_series@);
        let n = dates.len();
        let mut k: usize = 0;
        while k < raw_series.len()
            invariant
                k <= raw_series.len(),
                raw == series_view(raw_series@),
                n == dates@.len(),
                forall|m: int| 0 <= m < k ==> (#[trigger] raw[m].points).len() == n,
            decreases raw_series.len() - k,
        {
            if raw_series[k].points.len() != n {
                proof {
                    assert(raw[k as int].points.len() != n);
                }
                return Err(ConsolidationError::PointCountMismatch);
            }
            k = k + 1;
        }
        assert(lengths_match(raw, n as nat));
        let kept: Vec<Series> = if config.drop_minor_localities {
            drop_minor(raw_series)
        } else {
            raw_series
        };
        let ghost keptv = kept_series(raw, config);
        proof {
            assert(series_view(kept@) == keptv);
            let pred = |s: SeriesV| !is_minor_locality_spec(s.region);
            assert forall|m: int| 0 <= m < keptv.len() implies (#[trigger] keptv[m]).points.len()
                == n by {
                if config.drop_minor_localities {
                    lemma_filter_elements(raw, pred);
                    assert(raw.contains(keptv[m]));
                    let j = choose|j: int| 0 <= j < raw.len() && raw[j] == keptv[m];
                    assert(raw[j].points.len() == n);
                }
            }
            assert forall|m: int| 0 <= m < kept@.len() implies (#[trigger] kept@[m])@.points.len()
                == n by {
                assert(kept@[m]@ == keptv[m]);
            }
        }
        let aggs = match build_aggregates(&kept, n) {
            Ok(a) => a,
            Err(e) => {
                return Err(e);
            },
        };
        let mut all = kept;
        let mut aggs_in = aggs;
        all.append(&mut aggs_in);
        proof {
            assert(series_view(all@) =~= keptv + aggregates(keptv, n as nat));
        }
        let deduped = dedup_series(all);
        let final_series = keep_significant(deduped, config);
        proof {
            assert(series_view(final_series@) == consolidated_series(raw, config, n as nat));
            lemma_dedup_distinct_keys(keptv + aggregates(keptv, n as nat));
            lemma_filter_distinct_keys(
                dedup_keep_last(keptv + aggregates(keptv, n as nat)),
                |s: SeriesV| is_significant(s, config),
            );
        }
        let regions = build_region_index(&final_series);
        let ds = DataSet { dates, series: final_series, regions };
        proof {
            assert(ds@.series == consolidated_series(raw, config, n as nat));
            assert(ds@.regions == groups_view(ds.regions@));
        }
        Ok(ds)
    }
}

/// The countries listed by the region index, in index order.
pub open spec fn index_countries(regions: Seq<(Seq<char>, Seq<RegionV>)>) -> Seq<Seq<char>> {
    regions.map_values(|p: (Seq<char>, Seq<RegionV>)| p.0)
}

pub open spec fn region_index_ok(
    regions: Seq<(Seq<char>, Seq<RegionV>)>,
    series: Seq<SeriesV>,
) -> bool {
    &&& forall|i: int, j: int|
        0 <= i < j < regions.len() ==> lex_lt((#[trigger] regions[i]).0, (#[trigger] regions[j]).0)
    &&& forall|k: int|
        0 <= k < regions.len() ==> series_countries(series).contains((#[trigger] regions[k]).0)
    &&& forall|j: int|
        0 <= j < series.len() ==> index_countries(regions).contains(
            (#[trigger] series[j]).region.country,
        )
    &&& forall|k: int|
        0 <= k < regions.len() ==> sorted_by_state((#[trigger] regions[k]).1) && regions[k].1.to_multiset()
            == regions_of_country(series, regions[k].0).to_multiset()
}

} // verus!
