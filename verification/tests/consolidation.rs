use covid_chart::data::{
    Config, ConsolidationError, DataSet, DataType, Date, Region, Series, SeriesType,
};

fn date(y: i32, m: u8, d: u8) -> Date {
    Date::new(y, m, d).expect("valid date")
}

fn three_dates() -> Vec<Date> {
    vec![date(2020, 3, 1), date(2020, 3, 2), date(2020, 3, 3)]
}

fn series(country: &str, state: &str, points: Vec<u64>) -> Series {
    Series {
        region: Region::new(country, state),
        data_type: DataType::Confirmed,
        series_type: SeriesType::Total,
        points,
    }
}

fn open_config() -> Config {
    Config { drop_minor_localities: false, min_country_total_threshold: None }
}

#[test]
fn aggregates_two_states_into_country_series() {
    let raw = vec![series("A", "X", vec![1, 2, 3]), series("A", "Y", vec![4, 5, 6])];
    let ds = DataSet::new(three_dates(), raw, open_config()).expect("consolidation succeeds");

    assert!(ds.series.len() == 3);
    assert!(ds.series[0].region == Region::new("A", "X"));
    assert!(ds.series[0].points == vec![1, 2, 3]);
    assert!(ds.series[1].region == Region::new("A", "Y"));
    assert!(ds.series[1].points == vec![4, 5, 6]);
    // the synthesized aggregate is appended, carries an empty state, and
    // sums the sub-national series date-wise
    assert!(ds.series[2].region == Region::new("A", ""));
    assert!(ds.series[2].points == vec![5, 7, 9]);

    // region index: one country, its regions sorted by state with the
    // empty (country-level) state first
    assert!(ds.regions.len() == 1);
    assert!(ds.regions[0].0 == "A");
    let states: Vec<&str> = ds.regions[0].1.iter().map(|r| r.state.as_str()).collect();
    assert!(states == vec!["", "X", "Y"]);
    assert!(ds.regions[0].1[1] == Region::new("A", "X"));
    assert!(ds.regions[0].1[2] == Region::new("A", "Y"));
}

#[test]
fn select_returns_exactly_the_synthesized_aggregate() {
    let raw = vec![series("A", "X", vec![1, 2, 3]), series("A", "Y", vec![4, 5, 6])];
    let ds = DataSet::new(three_dates(), raw, open_config()).expect("consolidation succeeds");
    let picked = ds.select(&[Region::new("A", "")]);
    assert!(picked.len() == 1);
    assert!(picked[0].region == Region::new("A", ""));
    assert!(picked[0].points == vec![5, 7, 9]);
}

#[test]
fn select_without_match_is_empty() {
    let raw = vec![series("A", "X", vec![1, 2, 3])];
    let ds = DataSet::new(three_dates(), raw, open_config()).expect("consolidation succeeds");
    let picked = ds.select(&[Region::new("B", "")]);
    assert!(picked.is_empty());
}

#[test]
fn select_keeps_series_order() {
    let raw = vec![
        series("B", "", vec![1, 1, 1]),
        series("A", "X", vec![1, 2, 3]),
        series("C", "", vec![2, 2, 2]),
    ];
    let ds = DataSet::new(three_dates(), raw, open_config()).expect("consolidation succeeds");
    let picked = ds.select(&[Region::new("C", ""), Region::new("B", "")]);
    assert!(picked.len() == 2);
    assert!(picked[0].region == Region::new("B", ""));
    assert!(picked[1].region == Region::new("C", ""));
}

#[test]
fn minor_localities_are_dropped_and_do_not_contribute() {
    let config = Config { drop_minor_localities: true, min_country_total_threshold: None };
    let raw = vec![
        series("A", "X", vec![1, 2, 3]),
        series("A", "County, X", vec![100, 100, 100]),
        series("A", "Y", vec![4, 5, 6]),
    ];
    let ds = DataSet::new(three_dates(), raw, config).expect("consolidation succeeds");
    // the minor locality is gone entirely
    for s in &ds.series {
        assert!(!s.region.is_minor_locality());
        assert!(!s.region.state.contains(','));
    }
    // and its values never reached the aggregate
    let picked = ds.select(&[Region::new("A", "")]);
    assert!(picked.len() == 1);
    assert!(picked[0].points == vec![5, 7, 9]);
}

#[test]
fn minor_localities_kept_when_policy_off() {
    let raw = vec![
        series("A", "X", vec![1, 2, 3]),
        series("A", "County, X", vec![100, 100, 100]),
    ];
    let ds = DataSet::new(three_dates(), raw, open_config()).expect("consolidation succeeds");
    assert!(ds.series.len() == 3);
    let picked = ds.select(&[Region::new("A", "")]);
    assert!(picked[0].points == vec![101, 102, 103]);
}

#[test]
fn significance_filter_keeps_only_large_country_series() {
    let config = Config { drop_minor_localities: false, min_country_total_threshold: Some(100) };
    let raw = vec![
        series("A", "X", vec![10, 40, 60]),
        series("A", "Y", vec![10, 30, 40]),
        series("B", "P", vec![1, 2, 3]),
        series("C", "", vec![90, 95, 99]),
        series("D", "", vec![90, 95, 100]),
    ];
    let ds = DataSet::new(three_dates(), raw, config).expect("consolidation succeeds");
    // sub-national series are gone; country-level series stay only when
    // their most recent value reaches the threshold
    assert!(ds.series.len() == 2);
    assert!(ds.series[0].region == Region::new("D", ""));
    assert!(ds.series[0].points == vec![90, 95, 100]);
    assert!(ds.series[1].region == Region::new("A", ""));
    assert!(ds.series[1].points == vec![20, 70, 100]);
    // the index lists exactly the surviving countries, sorted
    assert!(ds.regions.len() == 2);
    assert!(ds.regions[0].0 == "A");
    assert!(ds.regions[1].0 == "D");
}

#[test]
fn aggregate_takes_tags_from_first_subnational_series() {
    let raw = vec![Series {
        region: Region::new("A", "X"),
        data_type: DataType::Deaths,
        series_type: SeriesType::Change,
        points: vec![1, 2, 3],
    }];
    let ds = DataSet::new(three_dates(), raw, open_config()).expect("consolidation succeeds");
    let picked = ds.select(&[Region::new("A", "")]);
    assert!(picked.len() == 1);
    assert!(matches!(picked[0].data_type, DataType::Deaths));
    assert!(matches!(picked[0].series_type, SeriesType::Change));
}

#[test]
fn countries_and_states_are_sorted() {
    let raw = vec![
        series("B", "Q", vec![1, 1, 1]),
        series("B", "P", vec![1, 1, 1]),
        series("A", "Z", vec![1, 1, 1]),
        series("A", "", vec![7, 7, 7]),
    ];
    let ds = DataSet::new(three_dates(), raw, open_config()).expect("consolidation succeeds");
    let countries: Vec<&str> = ds.regions.iter().map(|p| p.0.as_str()).collect();
    assert!(countries == vec!["A", "B"]);
    let a_states: Vec<&str> = ds.regions[0].1.iter().map(|r| r.state.as_str()).collect();
    // one country-level entry per country (the synthesized aggregate
    // superseded the country-level input row), sorted before any state
    assert!(a_states == vec!["", "Z"]);
    let b_states: Vec<&str> = ds.regions[1].1.iter().map(|r| r.state.as_str()).collect();
    assert!(b_states == vec!["", "P", "Q"]);
    // the surviving country-level series for A is the aggregate
    let picked = ds.select(&[Region::new("A", "")]);
    assert!(picked.len() == 1);
    assert!(picked[0].points == vec![1, 1, 1]);
}

#[test]
fn aggregate_supersedes_country_level_input_row() {
    let dates = vec![date(2020, 3, 1)];
    let raw = vec![series("A", "", vec![200]), series("A", "X", vec![150])];
    let ds = DataSet::new(dates, raw, open_config()).expect("consolidation succeeds");
    // the country-level input row is replaced by the synthesized
    // aggregate; no two series share a (region, case type) pair
    assert!(ds.series.len() == 2);
    assert!(ds.series[0].region == Region::new("A", "X"));
    assert!(ds.series[0].points == vec![150]);
    assert!(ds.series[1].region == Region::new("A", ""));
    assert!(ds.series[1].points == vec![150]);
    for a in 0..ds.series.len() {
        for b in (a + 1)..ds.series.len() {
            let dup = ds.series[a].region == ds.series[b].region && ds.series[a].data_type
                == ds.series[b].data_type;
            assert!(!dup);
        }
    }
}

#[test]
fn same_region_different_case_types_both_stay() {
    let dates = vec![date(2020, 3, 1)];
    let raw = vec![
        Series {
            region: Region::new("A", ""),
            data_type: DataType::Confirmed,
            series_type: SeriesType::Total,
            points: vec![5],
        },
        Series {
            region: Region::new("A", ""),
            data_type: DataType::Deaths,
            series_type: SeriesType::Total,
            points: vec![3],
        },
    ];
    let ds = DataSet::new(dates, raw, open_config()).expect("consolidation succeeds");
    assert!(ds.series.len() == 2);
    assert!(ds.series[0].points == vec![5]);
    assert!(ds.series[1].points == vec![3]);
}

#[test]
fn duplicate_input_rows_keep_the_last() {
    let dates = vec![date(2020, 3, 1)];
    let raw = vec![series("A", "", vec![5]), series("A", "", vec![9])];
    let ds = DataSet::new(dates, raw, open_config()).expect("consolidation succeeds");
    assert!(ds.series.len() == 1);
    assert!(ds.series[0].region == Region::new("A", ""));
    assert!(ds.series[0].points == vec![9]);
    assert!(ds.regions.len() == 1);
    assert!(ds.regions[0].1.len() == 1);
}

#[test]
fn point_count_mismatch_is_fatal() {
    let raw = vec![series("A", "X", vec![1, 2])];
    let result = DataSet::new(three_dates(), raw, open_config());
    assert!(result.err() == Some(ConsolidationError::PointCountMismatch));
}

#[test]
fn aggregate_overflow_is_fatal() {
    let dates = vec![date(2020, 3, 1)];
    let raw = vec![
        series("A", "X", vec![u64::MAX]),
        series("A", "Y", vec![1]),
    ];
    let result = DataSet::new(dates, raw, open_config());
    assert!(result.err() == Some(ConsolidationError::CaseCountOverflow));
}

#[test]
fn empty_input_gives_empty_dataset() {
    let ds = DataSet::new(three_dates(), vec![], open_config()).expect("consolidation succeeds");
    assert!(ds.series.is_empty());
    assert!(ds.regions.is_empty());
    assert!(ds.dates.len() == 3);
}

#[test]
fn threshold_compares_the_most_recent_value_only() {
    let config = Config { drop_minor_localities: false, min_country_total_threshold: Some(100) };
    let raw = vec![
        series("A", "", vec![500, 500, 99]),
        series("B", "", vec![0, 0, 100]),
    ];
    let ds = DataSet::new(three_dates(), raw, config).expect("consolidation succeeds");
    assert!(ds.series.len() == 1);
    assert!(ds.series[0].region == Region::new("B", ""));
}
