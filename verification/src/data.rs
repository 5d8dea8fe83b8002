//! The data model: regions, series, dates, and the consolidated data set.

use crate::order::str_eq;
use vstd::prelude::*;

verus! {

/// The kind of case count a series carries.
#[derive(Clone, Copy, PartialEq, Eq, Structural, Debug)]
pub enum DataType {
    Confirmed,
    Recovered,
    Deaths,
}

impl DataType {
    /// The display name of this case type.
    pub fn name(&self) -> (r: String)
        ensures
            *self == DataType::Confirmed ==> r@ == "Confirmed"@,
            *self == DataType::Recovered ==> r@ == "Recovered"@,
            *self == DataType::Deaths ==> r@ == "Deaths"@,
    {
        match *self {
            DataType::Confirmed => String::from_str("Confirmed"),
            DataType::Recovered => String::from_str("Recovered"),
            DataType::Deaths => String::from_str("Deaths"),
        }
    }
}

/// Whether a series reports day-over-day changes or running totals.
/// Informational only: consolidation treats every series as totals.
#[derive(Clone, Copy, PartialEq, Eq, Structural, Debug)]
pub enum SeriesType {
    Change,
    Total,
}

impl SeriesType {
    /// The display name of this series type.
    pub fn name(&self) -> (r: String)
        ensures
            *self == SeriesType::Change ==> r@ == "Change"@,
            *self == SeriesType::Total ==> r@ == "Total"@,
    {
        match *self {
            SeriesType::Change => String::from_str("Change"),
            SeriesType::Total => String::from_str("Total"),
        }
    }
}

/// A geographic unit: a country, or a state/province within a country.
/// An empty `state` means the country itself.
pub struct Region {
    pub country: String,
    pub state: String,
}

/// The mathematical value of a [`Region`].
pub struct RegionV {
    pub country: Seq<char>,
    pub state: Seq<char>,
}

impl View for Region {
    type V = RegionV;

    open spec fn view(&self) -> RegionV {
        RegionV { country: self.country@, state: self.state@ }
    }
}

impl Clone for Region {
    fn clone(&self) -> (r: Region)
        ensures
            r == *self,
    {
        Region { country: self.country.clone(), state: self.state.clone() }
    }
}

impl PartialEq for Region {
    fn eq(&self, other: &Region) -> (r: bool) {
        str_eq(self.country.as_str(), other.country.as_str()) && str_eq(
            self.state.as_str(),
            other.state.as_str(),
        )
    }
}

impl Eq for Region {

}

impl vstd::std_specs::cmp::PartialEqSpecImpl for Region {
    open spec fn obeys_eq_spec() -> bool {
        true
    }

    open spec fn eq_spec(&self, other: &Region) -> bool {
        self@ == other@
    }
}

/// A region whose `state` holds a comma was produced by a city/county
/// breakdown finer than the rest of the data.
pub open spec fn is_minor_locality_spec(r: RegionV) -> bool {
    exists|i: int| 0 <= i < r.state.len() && r.state[i] == ','
}

impl Region {
    pub fn new(country: &str, state: &str) -> (r: Region)
        ensures
            r@.country == country@,
            r@.state == state@,
    {
        Region { country: String::from_str(country), state: String::from_str(state) }
    }

    /// Whether this region is a minor locality (its state field names a
    /// city or county, separated from the state by a comma).
    pub fn is_minor_locality(&self) -> (r: bool)
        ensures
            r == is_minor_locality_spec(self@),
    {
        let n = self.state.as_str().unicode_len();
        let mut i: usize = 0;
        while i < n
            invariant
                i <= n,
                n == self.state@.len(),
                forall|j: int| 0 <= j < i ==> self.state@[j] != ',',
            decreases n - i,
        {
            if self.state.as_str().get_char(i) == ',' {
                proof {
                    let ghost rv = self@;
                    assert(0 <= i < rv.state.len() && rv.state[i as int] == ',');
                    assert(is_minor_locality_spec(rv));
                }
                return true;
            }
            i = i + 1;
        }
        false
    }

    /// The name shown for this region: the state if there is one, else the
    /// country.
    pub fn display_name(&self) -> (r: String)
        ensures
            self@.state.len() == 0 ==> r@ == self@.country,
            self@.state.len() > 0 ==> r@ == self@.state,
    {
        if self.state.as_str().unicode_len() == 0 {
            self.country.clone()
        } else {
            self.state.clone()
        }
    }
}

/// One time series: a region, a case type, and one cumulative count per
/// date of the owning data set.
pub struct Series {
    pub region: Region,
    pub data_type: DataType,
    pub series_type: SeriesType,
    pub points: Vec<u64>,
}

/// The mathematical value of a [`Series`].
pub struct SeriesV {
    pub region: RegionV,
    pub data_type: DataType,
    pub series_type: SeriesType,
    pub points: Seq<u64>,
}

impl View for Series {
    type V = SeriesV;

    open spec fn view(&self) -> SeriesV {
        SeriesV {
            region: self.region@,
            data_type: self.data_type,
            series_type: self.series_type,
            points: self.points@,
        }
    }
}

impl Clone for Series {
    fn clone(&self) -> (r: Series)
        ensures
            r@ == self@,
    {
        let points = self.points.clone();
        proof {
            assert(points@ =~= self.points@);
        }
        Series {
            region: self.region.clone(),
            data_type: self.data_type,
            series_type: self.series_type,
            points,
        }
    }
}

/// A calendar date, kept as plain year, month and day numbers.
#[derive(Clone, Copy, PartialEq, Eq, Structural, Debug)]
pub struct Date {
    pub year: i32,
    pub month: u8,
    pub day: u8,
}

pub open spec fn is_leap_year(y: int) -> bool {
    (y % 4 == 0 && y % 100 != 0) || y % 400 == 0
}

pub open spec fn days_in_month(y: int, m: int) -> int {
    if m == 2 {
        if is_leap_year(y) {
            29
        } else {
            28
        }
    } else if m == 4 || m == 6 || m == 9 || m == 11 {
        30
    } else {
        31
    }
}

impl Date {
    /// A date the library accepts: a real calendar day in years 1 to 9999.
    pub open spec fn valid(self) -> bool {
        &&& 1 <= self.year <= 9999
        &&& 1 <= self.month <= 12
        &&& 1 <= self.day <= days_in_month(self.year as int, self.month as int)
    }

    /// Builds a date, rejecting anything that is not a real calendar day.
    pub fn new(year: i32, month: u8, day: u8) -> (r: Option<Date>)
        ensures
            r is Some <==> (Date { year, month, day }).valid(),
            r is Some ==> r->Some_0 == (Date { year, month, day }),
    {
        let d = Date { year, month, day };
        if year < 1 || year > 9999 || month < 1 || month > 12 || day < 1 {
            return None;
        }
        let max_day: u8 = if month == 2 {
            let leap = (year % 4 == 0 && year % 100 != 0) || year % 400 == 0;
            if leap {
                29
            } else {
                28
            }
        } else if month == 4 || month == 6 || month == 9 || month == 11 {
            30
        } else {
            31
        };
        if day > max_day {
            return None;
        }
        Some(d)
    }
}

/// The consolidation policies, passed in explicitly so both states of each
/// switch can be exercised.
#[derive(Clone, Copy)]
pub struct Config {
    /// Drop raw series whose state field holds a comma (city/county rows
    /// finer than the rest of the data) before aggregating.
    pub drop_minor_localities: bool,
    /// When set, keep only country-level series whose most recent value
    /// reaches this threshold.
    pub min_country_total_threshold: Option<u64>,
}

/// Why a consolidation call was rejected.
#[derive(Clone, Copy, PartialEq, Eq, Structural, Debug)]
pub enum ConsolidationError {
    /// A raw series does not have exactly one point per date.
    PointCountMismatch,
    /// A date-wise country sum does not fit in a machine word.
    CaseCountOverflow,
}

/// The consolidated, immutable result of one load: the shared date axis,
/// the aggregated, deduplicated and filtered series — no two of which
/// share a (region, case type) pair — and the sorted region index.
pub struct DataSet {
    pub dates: Vec<Date>,
    pub series: Vec<Series>,
    pub regions: Vec<(String, Vec<Region>)>,
}

/// The mathematical value of a [`DataSet`].
pub struct DataSetV {
    pub dates: Seq<Date>,
    pub series: Seq<SeriesV>,
    pub regions: Seq<(Seq<char>, Seq<RegionV>)>,
}

/// The mathematical values of a list of series.
pub open spec fn series_view(ss: Seq<Series>) -> Seq<SeriesV> {
    ss.map_values(|s: Series| s@)
}

/// The mathematical values of a list of regions.
pub open spec fn regions_view(rs: Seq<Region>) -> Seq<RegionV> {
    rs.map_values(|r: Region| r@)
}

/// The mathematical value of one region-index entry.
pub open spec fn pair_view(p: (String, Vec<Region>)) -> (Seq<char>, Seq<RegionV>) {
    (p.0@, regions_view(p.1@))
}

/// The mathematical value of the region index.
pub open spec fn groups_view(gs: Seq<(String, Vec<Region>)>) -> Seq<(Seq<char>, Seq<RegionV>)> {
    gs.map_values(|p: (String, Vec<Region>)| pair_view(p))
}

impl View for DataSet {
    type V = DataSetV;

    open spec fn view(&self) -> DataSetV {
        DataSetV {
            dates: self.dates@,
            series: series_view(self.series@),
            regions: groups_view(self.regions@),
        }
    }
}

/// Whether `s` belongs to one of the requested regions.
pub open spec fn region_selected(requested: Seq<RegionV>, s: SeriesV) -> bool {
    requested.contains(s.region)
}

impl DataSet {
    /// Returns, in series order, every series whose region is structurally
    /// equal to one of the requested regions. No match is no error: the
    /// result is then empty.
    pub fn select(&self, regions: &[Region]) -> (r: Vec<Series>)
        ensures
            r@.map_values(|s: Series| s@) == self@.series.filter(
                |s: SeriesV| region_selected(regions@.map_values(|rg: Region| rg@), s),
            ),
    {
        let ghost requested = regions@.map_values(|rg: Region| rg@);
        let ghost pred = |s: SeriesV| region_selected(requested, s);
        let mut r: Vec<Series> = Vec::new();
        let mut i: usize = 0;
        proof {
            assert(self.series@.subrange(0, 0).map_values(|s: Series| s@) =~= Seq::<
                SeriesV,
            >::empty());
            assert(Seq::<SeriesV>::empty().filter(pred) =~= Seq::<SeriesV>::empty()) by {
                reveal(Seq::filter);
            }
        }
        while i < self.series.len()
            invariant
                i <= self.series.len(),
                requested == regions@.map_values(|rg: Region| rg@),
                pred == (|s: SeriesV| region_selected(requested, s)),
                r@.map_values(|s: Series| s@) == self.series@.subrange(0, i as int).map_values(
                    |s: Series| s@,
                ).filter(pred),
            decreases self.series.len() - i,
        {
            let ghost prefix = self.series@.subrange(0, i as int).map_values(|s: Series| s@);
            if contains_region(regions, &self.series[i].region) {
                r.push(self.series[i].clone());
            }
            proof {
                let longer = self.series@.subrange(0, i + 1).map_values(|s: Series| s@);
                assert(longer =~= prefix.push(self.series@[i as int]@));
                crate::consolidate::lemma_filter_push(prefix, pred, self.series@[i as int]@);
            }
            i = i + 1;
        }
        proof {
            assert(self.series@.subrange(0, self.series@.len() as int) =~= self.series@);
            assert(self@.series == self.series@.map_values(|s: Series| s@));
        }
        r
    }
}

/// Whether any region in the slice equals `region`.
fn contains_region(regions: &[Region], region: &Region) -> (r: bool)
    ensures
        r == regions@.map_values(|rg: Region| rg@).contains(region@),
{
    let ghost requested = regions@.map_values(|rg: Region| rg@);
    let mut i: usize = 0;
    while i < regions.len()
        invariant
            i <= regions.len(),
            requested == regions@.map_values(|rg: Region| rg@),
            forall|j: int| 0 <= j < i ==> requested[j] != region@,
        decreases regions.len() - i,
    {
        let candidate = &regions[i];
        if str_eq(candidate.country.as_str(), region.country.as_str()) && str_eq(
            candidate.state.as_str(),
            region.state.as_str(),
        ) {
            proof {
                assert(requested[i as int] == region@);
            }
            return true;
        }
        i = i + 1;
    }
    false
}

/// The selection-toggle rule of the viewer: a region not yet selected is
/// added; a selected one is removed, unless it is the only selection left,
/// which cannot be removed.
pub fn toggle_region(selected: &mut Vec<Region>, region: &Region)
    ensures
        ({
            let before = old(selected)@.map_values(|r: Region| r@);
            let after = final(selected)@.map_values(|r: Region| r@);
            if before.contains(region@) {
                if before.len() > 1 {
                    after == before.filter(|r: RegionV| r != region@)
                } else {
                    after == before
                }
            } else {
                after == before.push(region@)
            }
        }),
{
    let ghost before = old(selected)@.map_values(|r: Region| r@);
    let present = contains_region(selected.as_slice(), region);
    if !present {
        selected.push(region.clone());
        proof {
            assert(final(selected)@.map_values(|r: Region| r@) =~= before.push(region@));
        }
        return ;
    }
    if selected.len() <= 1 {
        return ;
    }
    let ghost pred = |r: RegionV| r != region@;
    let mut out: Vec<Region> = Vec::new();
    let mut i: usize = 0;
    proof {
        assert(before.subrange(0, 0) =~= Seq::<RegionV>::empty());
        assert(Seq::<RegionV>::empty().filter(pred) =~= Seq::<RegionV>::empty()) by {
            reveal(Seq::filter);
        }
        assert(out@.map_values(|r: Region| r@) =~= Seq::<RegionV>::empty());
    }
    while i < selected.len()
        invariant
            i <= selected.len(),
            before == selected@.map_values(|r: Region| r@),
            pred == (|r: RegionV| r != region@),
            out@.map_values(|r: Region| r@) == before.subrange(0, i as int).filter(pred),
        decreases selected.len() - i,
    {
        let ghost prefix = before.subrange(0, i as int);
        let candidate = &selected[i];
        if !(str_eq(candidate.country.as_str(), region.country.as_str()) && str_eq(
            candidate.state.as_str(),
            region.state.as_str(),
        )) {
            out.push(candidate.clone());
        }
        proof {
            assert(before.subrange(0, i + 1) =~= prefix.push(before[i as int]));
            crate::consolidate::lemma_filter_push(prefix, pred, before[i as int]);
        }
        i = i + 1;
    }
    proof {
        assert(before.subrange(0, selected@.len() as int) =~= before);
    }
    *selected = out;
}

} // verus!
