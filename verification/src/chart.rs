//! Chart geometry: the exact axis ranges, labels, colors and polylines
//! that a drawing surface renders for a selected set of series.

use crate::color::{color_spec, Hsl};
use crate::data::{DataSet, Date, Series};
use num_format::Locale;
use num_format::ToFormattedString;
use vstd::prelude::*;

verus! {

/// The digit character of a value below ten.
pub open spec fn digit_char(d: int) -> char {
    if d == 0 {
        '0'
    } else if d == 1 {
        '1'
    } else if d == 2 {
        '2'
    } else if d == 3 {
        '3'
    } else if d == 4 {
        '4'
    } else if d == 5 {
        '5'
    } else if d == 6 {
        '6'
    } else if d == 7 {
        '7'
    } else if d == 8 {
        '8'
    } else {
        '9'
    }
}

/// The decimal digits of `v`, most significant first.
pub open spec fn dec_digits(v: nat) -> Seq<char>
    decreases v,
{
    if v < 10 {
        seq![digit_char(v as int)]
    } else {
        dec_digits(v / 10).push(digit_char((v % 10) as int))
    }
}

/// Digits regrouped with a comma before every block of three, counted
/// from the right.
pub open spec fn group_digits(s: Seq<char>) -> Seq<char>
    decreases s.len(),
{
    if s.len() <= 3 {
        s
    } else {
        group_digits(s.take(s.len() - 3)) + seq![','] + s.skip(s.len() - 3)
    }
}

/// The text of `v` with thousands separators.
pub open spec fn formatted_number(v: nat) -> Seq<char> {
    group_digits(dec_digits(v))
}

/// Relies on num-format's `ToFormattedString` for `u64` with the "en"
/// locale, whose grouping is `Standard` with separator ",": the decimal
/// digits with a comma before every group of three.
#[verifier::external_body]
fn format_grouped(v: u64) -> (r: String)
    ensures
        r@ == formatted_number(v as nat),
{
    v.to_formatted_string(&Locale::en)
}

/// The Y-axis tick label for value `v`: its decimal digits with
/// thousands separators.
pub fn y_tick_label(v: u64) -> (r: String)
    ensures
        r@ == formatted_number(v as nat),
{
    format_grouped(v)
}

/// The English three-letter abbreviation of month `m`.
pub open spec fn month_abbrev(m: int) -> Seq<char> {
    if m == 1 {
        "Jan"@
    } else if m == 2 {
        "Feb"@
    } else if m == 3 {
        "Mar"@
    } else if m == 4 {
        "Apr"@
    } else if m == 5 {
        "May"@
    } else if m == 6 {
        "Jun"@
    } else if m == 7 {
        "Jul"@
    } else if m == 8 {
        "Aug"@
    } else if m == 9 {
        "Sep"@
    } else if m == 10 {
        "Oct"@
    } else if m == 11 {
        "Nov"@
    } else {
        "Dec"@
    }
}

/// The X-axis label of a date: short month name, a space, and the
/// zero-padded two-digit day.
pub open spec fn date_label_spec(d: Date) -> Seq<char> {
    month_abbrev(d.month as int) + seq![' '] + seq![
        digit_char(d.day as int / 10),
        digit_char(d.day as int % 10),
    ]
}

/// Relies on chrono's `NaiveDate` formatting with "%b %d": the English
/// month abbreviation, a space, and the day zero-padded to two digits.
/// `from_ymd_opt` accepts every valid calendar date in this year range.
#[verifier::external_body]
fn format_month_day(year: i32, month: u8, day: u8) -> (r: String)
    requires
        (Date { year, month, day }).valid(),
    ensures
        r@ == date_label_spec(Date { year, month, day }),
{
    match chrono::NaiveDate::from_ymd_opt(year, month as u32, day as u32) {
        Some(d) => d.format("%b %d").to_string(),
        None => String::new(),
    }
}

/// The X-axis tick label for a date.
pub fn x_tick_label(d: &Date) -> (r: String)
    requires
        d.valid(),
    ensures
        r@ == date_label_spec(*d),
{
    format_month_day(d.year, d.month, d.day)
}

/// The largest value observed across all points of the given series, or
/// zero when there is none.
pub fn max_value(series: &Vec<Series>) -> (m: u64)
    ensures
        forall|k: int, i: int|
            0 <= k < series@.len() && 0 <= i < series@[k]@.points.len() ==> (
            #[trigger] series@[k]@.points[i]) <= m,
        m != 0 ==> exists|k: int, i: int|
            0 <= k < series@.len() && 0 <= i < series@[k]@.points.len() && (
            #[trigger] series@[k]@.points[i]) == m,
{
    let mut m: u64 = 0;
    let mut k: usize = 0;
    while k < series.len()
        invariant
            k <= series.len(),
            forall|k2: int, i: int|
                0 <= k2 < k && 0 <= i < series@[k2]@.points.len() ==> (
                #[trigger] series@[k2]@.points[i]) <= m,
            m != 0 ==> exists|k2: int, i: int|
                0 <= k2 < series@.len() && 0 <= i < series@[k2]@.points.len() && (
                #[trigger] series@[k2]@.points[i]) == m,
        decreases series.len() - k,
    {
        let s = &series[k];
        let mut i: usize = 0;
        while i < s.points.len()
            invariant
                i <= s.points@.len(),
                k < series@.len(),
                s@ == series@[k as int]@,
                forall|k2: int, i2: int|
                    0 <= k2 < k && 0 <= i2 < series@[k2]@.points.len() ==> (
                    #[trigger] series@[k2]@.points[i2]) <= m,
                forall|i2: int| 0 <= i2 < i ==> (#[trigger] s@.points[i2]) <= m,
                m != 0 ==> exists|k2: int, i2: int|
                    0 <= k2 < series@.len() && 0 <= i2 < series@[k2]@.points.len() && (
                    #[trigger] series@[k2]@.points[i2]) == m,
            decreases s.points@.len() - i,
        {
            if s.points[i] > m {
                m = s.points[i];
                proof {
                    assert(series@[k as int]@.points[i as int] == m);
                }
            }
            i = i + 1;
        }
        k = k + 1;
    }
    m
}

/// The upper end of the Y axis, as an exact fraction.
#[derive(Clone, Copy, PartialEq, Eq, Structural, Debug)]
pub struct AxisBound {
    pub num: u128,
    pub den: u128,
}

/// The Y-axis upper bound for an observed maximum `m`: exactly 1.05
/// times `m` (as the fraction 21 m / 20), so the topmost line keeps 5%
/// headroom off the frame edge; for an empty or all-zero selection the
/// bound is clamped to one so the axis range never collapses.
pub fn y_axis_upper_bound(m: u64) -> (b: AxisBound)
    ensures
        m > 0 ==> b.num == 21 * (m as u128) && b.den == 20,
        m == 0 ==> b.num == 1 && b.den == 1,
{
    if m == 0 {
        AxisBound { num: 1, den: 1 }
    } else {
        AxisBound { num: 21 * (m as u128), den: 20 }
    }
}

/// One chart line: its stroke color, its legend label (the country
/// name), and one Y value per day index.
pub struct ChartLine {
    pub color: Hsl,
    pub label: String,
    pub points: Vec<u64>,
}

/// Everything a drawing surface needs to render the chart: the day count
/// spanning the X axis, the observed maximum and the Y-axis upper bound
/// derived from it, and one line per selected series.
pub struct ChartGeometry {
    pub days: usize,
    pub y_max: u64,
    pub y_upper: AxisBound,
    pub lines: Vec<ChartLine>,
}

/// Computes the chart geometry for a selection of series out of a data
/// set: X spans the date axis, Y spans zero to the headroomed maximum,
/// and each selected series becomes one line in its region's color,
/// labeled with its country.
pub fn chart_geometry(data: &DataSet, selected: &Vec<Series>) -> (g: ChartGeometry)
    ensures
        g.days == data.dates@.len(),
        forall|k: int, i: int|
            0 <= k < selected@.len() && 0 <= i < selected@[k]@.points.len() ==> (
            #[trigger] selected@[k]@.points[i]) <= g.y_max,
        g.y_max != 0 ==> exists|k: int, i: int|
            0 <= k < selected@.len() && 0 <= i < selected@[k]@.points.len() && (
            #[trigger] selected@[k]@.points[i]) == g.y_max,
        g.y_max > 0 ==> g.y_upper.num == 21 * (g.y_max as u128) && g.y_upper.den == 20,
        g.y_max == 0 ==> g.y_upper.num == 1 && g.y_upper.den == 1,
        g.lines@.len() == selected@.len(),
        forall|k: int|
            0 <= k < selected@.len() ==> {
                &&& (#[trigger] g.lines@[k]).color == color_spec(selected@[k]@.region)
                &&& g.lines@[k].label@ == selected@[k]@.region.country
                &&& g.lines@[k].points@ == selected@[k]@.points
            },
{
    let days = data.dates.len();
    let y_max = max_value(selected);
    let y_upper = y_axis_upper_bound(y_max);
    let mut lines: Vec<ChartLine> = Vec::new();
    let mut k: usize = 0;
    while k < selected.len()
        invariant
            k <= selected@.len(),
            lines@.len() == k,
            forall|k2: int|
                0 <= k2 < k ==> {
                    &&& (#[trigger] lines@[k2]).color == color_spec(selected@[k2]@.region)
                    &&& lines@[k2].label@ == selected@[k2]@.region.country
                    &&& lines@[k2].points@ == selected@[k2]@.points
                },
        decreases selected.len() - k,
    {
        let s = &selected[k];
        let color = s.region.color();
        let label = s.region.country.clone();
        let points = s.points.clone();
        proof {
            assert(points@ =~= s.points@);
        }
        lines.push(ChartLine { color, label, points });
        k = k + 1;
    }
    ChartGeometry { days, y_max, y_upper, lines }
}

} // verus!
