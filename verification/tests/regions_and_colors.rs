use covid_chart::color::Hsl;
use covid_chart::data::{toggle_region, DataType, Date, Region, SeriesType};

#[test]
fn region_equality_is_structural() {
    assert!(Region::new("A", "X") == Region::new("A", "X"));
    assert!(Region::new("A", "X") != Region::new("A", "Y"));
    assert!(Region::new("A", "") != Region::new("B", ""));
}

#[test]
fn minor_locality_means_comma_in_state() {
    assert!(Region::new("A", "King County, WA").is_minor_locality());
    assert!(!Region::new("A", "Washington").is_minor_locality());
    assert!(!Region::new("A,B", "").is_minor_locality());
}

#[test]
fn display_name_prefers_the_state() {
    assert!(Region::new("France", "").display_name() == "France");
    assert!(Region::new("France", "Reunion").display_name() == "Reunion");
}

#[test]
fn type_names() {
    assert!(DataType::Confirmed.name() == "Confirmed");
    assert!(DataType::Recovered.name() == "Recovered");
    assert!(DataType::Deaths.name() == "Deaths");
    assert!(SeriesType::Change.name() == "Change");
    assert!(SeriesType::Total.name() == "Total");
}

#[test]
fn color_is_identical_across_calls_and_equal_regions() {
    let a = Region::new("Mongolia", "");
    let b = Region::new("Mongolia", "");
    assert!(a.color() == a.color());
    assert!(a.color() == b.color());
}

#[test]
fn pinned_countries_keep_their_colors() {
    let us = Region::new("US", "").color();
    assert!(us.hue.num == 60277 && us.hue.den == 100000);
    assert!(us.saturation.num == 1 && us.saturation.den == 1);
    assert!(us.lightness.num == 59 && us.lightness.den == 100);

    let china = Region::new("China", "").color();
    assert!(china.hue.num == 1944 && china.hue.den == 100000);
    assert!(china.saturation.num == 87 && china.saturation.den == 100);
    assert!(china.lightness.num == 47 && china.lightness.den == 100);

    let italy = Region::new("Italy", "").color();
    assert!(italy.hue.num == 4166 && italy.hue.den == 10000);
    let spain = Region::new("Spain", "").color();
    assert!(spain.hue.num == 116 && spain.hue.den == 1000);
    assert!(spain.saturation.num == 99 && spain.lightness.num == 58);
}

#[test]
fn pinned_color_needs_the_country_level_region() {
    // a state within a pinned country is hashed like any other region
    let state = Region::new("US", "Washington").color();
    assert!(state.saturation.den == 452);
    assert!(state.lightness.den == 69260);
}

fn in_unit_range(c: &Hsl) -> bool {
    c.hue.den > 0 && c.hue.num <= c.hue.den && c.saturation.den > 0 && c.saturation.num
        <= c.saturation.den && c.lightness.den > 0 && c.lightness.num <= c.lightness.den
}

#[test]
fn hashed_colors_stay_in_the_legible_envelope() {
    for name in ["Mongolia", "Iceland", "Peru", "Fiji", "Laos"] {
        let c = Region::new(name, "").color();
        assert!(in_unit_range(&c));
        // saturation in [0.25, 0.75): 113/452 is a quarter
        assert!(c.saturation.num >= 113 && c.saturation.num < 339);
        assert!(c.saturation.den == 452);
        // lightness in [0.4, 0.65): 27704/69260 is two fifths
        assert!(c.lightness.num >= 27704 && c.lightness.num < 45019);
        assert!(c.lightness.den == 69260);
    }
}

#[test]
fn hashed_colors_differ_in_aggregate() {
    let a = Region::new("Mongolia", "").color();
    let b = Region::new("Iceland", "").color();
    let c = Region::new("Peru", "").color();
    assert!(!(a == b && b == c));
}

#[test]
fn toggle_adds_a_new_region() {
    let mut selected = vec![Region::new("US", "")];
    toggle_region(&mut selected, &Region::new("Italy", ""));
    assert!(selected.len() == 2);
    assert!(selected[1] == Region::new("Italy", ""));
}

#[test]
fn toggle_removes_a_selected_region() {
    let mut selected = vec![Region::new("US", ""), Region::new("Italy", "")];
    toggle_region(&mut selected, &Region::new("US", ""));
    assert!(selected.len() == 1);
    assert!(selected[0] == Region::new("Italy", ""));
}

#[test]
fn toggle_never_removes_the_last_region() {
    let mut selected = vec![Region::new("US", "")];
    toggle_region(&mut selected, &Region::new("US", ""));
    assert!(selected.len() == 1);
    assert!(selected[0] == Region::new("US", ""));
}

#[test]
fn dates_reject_impossible_days() {
    assert!(Date::new(2020, 2, 29).is_some());
    assert!(Date::new(2021, 2, 29).is_none());
    assert!(Date::new(2020, 4, 31).is_none());
    assert!(Date::new(2020, 13, 1).is_none());
    assert!(Date::new(2020, 0, 1).is_none());
    assert!(Date::new(2020, 1, 0).is_none());
    assert!(Date::new(1900, 2, 29).is_none());
    assert!(Date::new(2000, 2, 29).is_some());
}
