//! The persisted record type, its mathematical model, and the diff between
//! two versions of a location's record.

use vstd::prelude::*;

verus! {

/// Mathematical model of one stored record version.
pub ghost struct RecordV {
    pub id: int,
    pub loc: Seq<char>,
    pub loc_kind: int,
    pub total_cases: int,
    pub total_deaths: int,
    pub total_recovered: int,
    pub active_cases: int,
    pub critical_cases: int,
    pub cases_to_pop_ppm: int,
    pub meta: Seq<Seq<char>>,
    pub last_updated: int,
    pub latest: bool,
}

/// One persisted statistic snapshot for a location.
///
/// Records are append-only: after insertion only the `latest` flag ever
/// changes, when a newer version for the same location demotes this one.
pub struct Record {
    /// System-assigned unique sequential identifier.
    pub id: i64,
    /// Name or code of the geographic unit.
    pub loc: String,
    /// Small classification code (country, region, city, ...).
    pub loc_kind: i16,
    pub total_cases: i32,
    pub total_deaths: i32,
    pub total_recovered: i32,
    pub active_cases: i32,
    pub critical_cases: i32,
    /// Cases per population unit, fixed point in millionths.
    pub cases_to_pop_ppm: i64,
    /// Ordered free-text tags.
    pub meta: Vec<String>,
    /// Logical timestamp of when this version became authoritative;
    /// assigned by the store, strictly increasing across insertions.
    pub last_updated: i64,
    /// True for at most one record per location.
    pub latest: bool,
}

impl View for Record {
    type V = RecordV;

    open spec fn view(&self) -> RecordV {
        RecordV {
            id: self.id as int,
            loc: self.loc@,
            loc_kind: self.loc_kind as int,
            total_cases: self.total_cases as int,
            total_deaths: self.total_deaths as int,
            total_recovered: self.total_recovered as int,
            active_cases: self.active_cases as int,
            critical_cases: self.critical_cases as int,
            cases_to_pop_ppm: self.cases_to_pop_ppm as int,
            meta: self.meta.deep_view(),
            last_updated: self.last_updated as int,
            latest: self.latest,
        }
    }
}

/// Signed per-counter deltas between two versions of a location's record.
/// Derived, never persisted.
pub struct Diff {
    pub new_cases: i64,
    pub new_deaths: i64,
    pub new_recovered: i64,
    pub new_critical: i64,
}

pub(crate) fn clone_strings(v: &Vec<String>) -> (r: Vec<String>)
    ensures
        r@ == v@,
{
    let mut r: Vec<String> = Vec::new();
    let mut i: usize = 0;
    while i < v.len()
        invariant
            0 <= i <= v.len(),
            r@ =~= v@.subrange(0, i as int),
        decreases v.len() - i,
    {
        r.push(v[i].clone());
        i = i + 1;
    }
    proof {
        assert(r@ =~= v@);
    }
    r
}

impl Clone for Record {
    fn clone(&self) -> (r: Record)
        ensures
            r@ == self@,
    {
        Record {
            id: self.id,
            loc: self.loc.clone(),
            loc_kind: self.loc_kind,
            total_cases: self.total_cases,
            total_deaths: self.total_deaths,
            total_recovered: self.total_recovered,
            active_cases: self.active_cases,
            critical_cases: self.critical_cases,
            cases_to_pop_ppm: self.cases_to_pop_ppm,
            meta: clone_strings(&self.meta),
            last_updated: self.last_updated,
            latest: self.latest,
        }
    }
}

impl Record {
    /// Signed deltas of the four tracked counters, `self` being the newer
    /// version and `old` its predecessor for the same location.
    ///
    /// Both records must belong to the same location; calling this on
    /// records of two different locations is a caller bug.
    pub fn diff(&self, old: &Record) -> (d: Diff)
        requires
            self.loc@ == old.loc@,
        ensures
            d.new_cases == self@.total_cases - old@.total_cases,
            d.new_deaths == self@.total_deaths - old@.total_deaths,
            d.new_recovered == self@.total_recovered - old@.total_recovered,
            d.new_critical == self@.critical_cases - old@.critical_cases,
    {
        Diff {
            new_cases: self.total_cases as i64 - old.total_cases as i64,
            new_deaths: self.total_deaths as i64 - old.total_deaths as i64,
            new_recovered: self.total_recovered as i64 - old.total_recovered as i64,
            new_critical: self.critical_cases as i64 - old.critical_cases as i64,
        }
    }
}

} // verus!
