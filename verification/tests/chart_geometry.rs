use covid_chart::chart::{chart_geometry, max_value, x_tick_label, y_axis_upper_bound, y_tick_label};
use covid_chart::data::{Config, DataSet, DataType, Date, Region, Series, SeriesType};

fn date(y: i32, m: u8, d: u8) -> Date {
    Date::new(y, m, d).expect("valid date")
}

fn series(country: &str, state: &str, points: Vec<u64>) -> Series {
    Series {
        region: Region::new(country, state),
        data_type: DataType::Confirmed,
        series_type: SeriesType::Total,
        points,
    }
}

#[test]
fn max_value_spans_all_series() {
    let ss = vec![series("A", "", vec![3, 9, 4]), series("B", "", vec![8, 2])];
    assert!(max_value(&ss) == 9);
    assert!(max_value(&vec![]) == 0);
    assert!(max_value(&vec![series("A", "", vec![])]) == 0);
    assert!(max_value(&vec![series("A", "", vec![0, 0])]) == 0);
}

#[test]
fn axis_headroom_is_exactly_five_percent() {
    // 1.05 x 40 = 42: the bound is the exact fraction 840 / 20
    let b = y_axis_upper_bound(40);
    assert!(b.num == 840 && b.den == 20);
    assert!(b.num % b.den == 0 && b.num / b.den == 42);

    // 1.05 x 10 = 10.5 = 210 / 20, exact even where no integer would do
    let b = y_axis_upper_bound(10);
    assert!(b.num == 210 && b.den == 20);

    let b = y_axis_upper_bound(u64::MAX);
    assert!(b.num == 21 * (u64::MAX as u128) && b.den == 20);
}

#[test]
fn axis_bound_never_collapses_to_zero() {
    let b = y_axis_upper_bound(0);
    assert!(b.num == 1 && b.den == 1);
}

#[test]
fn geometry_mirrors_the_selection() {
    let dates = vec![date(2020, 3, 1), date(2020, 3, 2), date(2020, 3, 3)];
    let raw = vec![series("A", "X", vec![1, 2, 3]), series("A", "Y", vec![4, 5, 6])];
    let config = Config { drop_minor_localities: false, min_country_total_threshold: None };
    let ds = DataSet::new(dates, raw, config).expect("consolidation succeeds");
    let selected = ds.select(&[Region::new("A", "")]);
    let g = chart_geometry(&ds, &selected);
    assert!(g.days == 3);
    assert!(g.y_max == 9);
    assert!(g.y_upper.num == 189 && g.y_upper.den == 20);
    assert!(g.lines.len() == 1);
    assert!(g.lines[0].label == "A");
    assert!(g.lines[0].points == vec![5, 7, 9]);
    assert!(g.lines[0].color == Region::new("A", "").color());
}

#[test]
fn geometry_of_an_empty_selection() {
    let dates = vec![date(2020, 3, 1)];
    let config = Config { drop_minor_localities: false, min_country_total_threshold: None };
    let ds = DataSet::new(dates, vec![], config).expect("consolidation succeeds");
    let g = chart_geometry(&ds, &vec![]);
    assert!(g.days == 1);
    assert!(g.y_max == 0);
    assert!(g.y_upper.num == 1 && g.y_upper.den == 1);
    assert!(g.lines.is_empty());
}

#[test]
fn y_labels_group_thousands() {
    assert!(y_tick_label(0) == "0");
    assert!(y_tick_label(7) == "7");
    assert!(y_tick_label(100) == "100");
    assert!(y_tick_label(1000) == "1,000");
    assert!(y_tick_label(999999) == "999,999");
    assert!(y_tick_label(1234567) == "1,234,567");
    assert!(y_tick_label(u64::MAX) == "18,446,744,073,709,551,615");
}

#[test]
fn x_labels_show_short_month_and_padded_day() {
    assert!(x_tick_label(&date(2020, 3, 5)) == "Mar 05");
    assert!(x_tick_label(&date(2020, 1, 22)) == "Jan 22");
    assert!(x_tick_label(&date(2020, 12, 31)) == "Dec 31");
    assert!(x_tick_label(&date(2021, 10, 1)) == "Oct 01");
}
