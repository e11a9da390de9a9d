//! The record store: an append-only table of record versions with the
//! "one latest record per location" discipline, lookup, history, search
//! with a pagination-independent count, and deletion by identifier.

use vstd::prelude::*;

use crate::error::Error;
use crate::models::{clone_strings, Record, RecordV};
use crate::strutil::{ci_contains_sub, contains_sub, str_contains, str_contains_ci, str_eq};

verus! {

/// Mathematical model of the store: the table in insertion order, the
/// two counters the store assigns from, and the search configuration.
pub ghost struct DaoV {
    pub table: Seq<RecordV>,
    pub next_id: int,
    pub clock: int,
    pub case_insensitive: bool,
}

/// The caller-supplied fields of a new record version, as the store
/// receives them; identifier, timestamp and latest flag are the store's.
pub ghost struct NewRecordV {
    pub loc: Seq<char>,
    pub loc_kind: int,
    pub total_cases: int,
    pub total_deaths: int,
    pub total_recovered: int,
    pub active_cases: int,
    pub critical_cases: int,
    pub cases_to_pop_ppm: int,
    pub meta: Seq<Seq<char>>,
}

pub open spec fn new_record_input(
    loc: Seq<char>,
    loc_kind: int,
    total_cases: int,
    total_deaths: int,
    total_recovered: int,
    active_cases: int,
    critical_cases: int,
    cases_to_pop_ppm: int,
    meta: Seq<Seq<char>>,
) -> NewRecordV {
    NewRecordV {
        loc: loc,
        loc_kind: loc_kind,
        total_cases: total_cases,
        total_deaths: total_deaths,
        total_recovered: total_recovered,
        active_cases: active_cases,
        critical_cases: critical_cases,
        cases_to_pop_ppm: cases_to_pop_ppm,
        meta: meta,
    }
}

/// The models of a sequence of stored records.
pub open spec fn recs_view(s: Seq<Record>) -> Seq<RecordV> {
    s.map_values(|r: Record| r@)
}

/// `r` after a new version for `loc` arrived: a latest record of that
/// location loses its flag, every other record is unchanged.
pub open spec fn demoted_rec(r: RecordV, loc: Seq<char>) -> RecordV {
    if r.loc == loc && r.latest {
        RecordV { latest: false, ..r }
    } else {
        r
    }
}

pub open spec fn demote(t: Seq<RecordV>, loc: Seq<char>) -> Seq<RecordV> {
    t.map_values(|r: RecordV| demoted_rec(r, loc))
}

/// The record that `create` inserts for input `n` in state `d`.
pub open spec fn fresh_record(d: DaoV, n: NewRecordV) -> RecordV {
    RecordV {
        id: d.next_id,
        loc: n.loc,
        loc_kind: n.loc_kind,
        total_cases: n.total_cases,
        total_deaths: n.total_deaths,
        total_recovered: n.total_recovered,
        active_cases: n.active_cases,
        critical_cases: n.critical_cases,
        cases_to_pop_ppm: n.cases_to_pop_ppm,
        meta: n.meta,
        last_updated: d.clock,
        latest: true,
    }
}

/// The atomic demote-then-insert transition of `create`.
pub open spec fn create_step(d: DaoV, n: NewRecordV) -> DaoV {
    DaoV {
        table: demote(d.table, n.loc).push(fresh_record(d, n)),
        next_id: d.next_id + 1,
        clock: d.clock + 1,
        case_insensitive: d.case_insensitive,
    }
}

/// Whether `loc` is selected by a requested location list; an empty list
/// selects every location.
pub open spec fn loc_selected(locs: Seq<Seq<char>>, loc: Seq<char>) -> bool {
    locs.len() == 0 || locs.contains(loc)
}

/// The latest records of the selected locations, newest first.
pub open spec fn latest_matches(t: Seq<RecordV>, locs: Seq<Seq<char>>) -> Seq<RecordV>
    decreases t.len(),
{
    if t.len() == 0 {
        Seq::empty()
    } else if t[0].latest && loc_selected(locs, t[0].loc) {
        latest_matches(t.drop_first(), locs) + seq![t[0]]
    } else {
        latest_matches(t.drop_first(), locs)
    }
}

/// All versions for location `loc`, newest first.
pub open spec fn history_matches(t: Seq<RecordV>, loc: Seq<char>) -> Seq<RecordV>
    decreases t.len(),
{
    if t.len() == 0 {
        Seq::empty()
    } else if t[0].loc == loc {
        history_matches(t.drop_first(), loc) + seq![t[0]]
    } else {
        history_matches(t.drop_first(), loc)
    }
}

/// The latest records whose location contains `q` (case-sensitive),
/// newest first.
pub open spec fn search_matches(t: Seq<RecordV>, q: Seq<char>) -> Seq<RecordV>
    decreases t.len(),
{
    if t.len() == 0 {
        Seq::empty()
    } else if t[0].latest && contains_sub(t[0].loc, q) {
        search_matches(t.drop_first(), q) + seq![t[0]]
    } else {
        search_matches(t.drop_first(), q)
    }
}

/// The latest records whose location contains `q` up to ASCII case,
/// newest first.
pub open spec fn search_matches_ci(t: Seq<RecordV>, q: Seq<char>) -> Seq<RecordV>
    decreases t.len(),
{
    if t.len() == 0 {
        Seq::empty()
    } else if t[0].latest && ci_contains_sub(t[0].loc, q) {
        search_matches_ci(t.drop_first(), q) + seq![t[0]]
    } else {
        search_matches_ci(t.drop_first(), q)
    }
}

/// What a search of `q` matches under the store's configured case
/// sensitivity; matching case-sensitively is the default.
pub open spec fn config_matches(d: DaoV, q: Seq<char>) -> Seq<RecordV> {
    if d.case_insensitive {
        search_matches_ci(d.table, q)
    } else {
        search_matches(d.table, q)
    }
}

/// The pagination window `offset`/`limit` over an ordered result set.
pub open spec fn page_of(s: Seq<RecordV>, offset: int, limit: int) -> Seq<RecordV> {
    let lo = if offset <= s.len() {
        offset
    } else {
        s.len() as int
    };
    let hi = if offset + limit <= s.len() {
        offset + limit
    } else {
        s.len() as int
    };
    s.subrange(lo, hi)
}

impl DaoV {
    /// Well-formedness of the store: identifiers and timestamps are
    /// store-assigned (unique, increasing along the table, below the
    /// counters), and per location the latest record, if any, is unique
    /// and stands after every other version of that location.
    pub open spec fn wf(self) -> bool {
        &&& 1 <= self.next_id
        &&& 1 <= self.clock
        &&& (forall|i: int|
            0 <= i < self.table.len() ==> {
                &&& 1 <= (#[trigger] self.table[i]).id < self.next_id
                &&& i + 1 <= self.table[i].last_updated < self.clock
            })
        &&& (forall|i: int, j: int|
            0 <= i < j < self.table.len() ==> (#[trigger] self.table[i]).id < (
            #[trigger] self.table[j]).id && self.table[i].last_updated
                < self.table[j].last_updated)
        &&& (forall|i: int, j: int|
            0 <= i < self.table.len() && 0 <= j < self.table.len() && i != j && (
            #[trigger] self.table[i]).loc == (#[trigger] self.table[j]).loc
                && self.table[i].latest ==> j < i)
    }
}

/// Data access object for records, owning the backing table. Setting
/// `case_insensitive` switches search to ASCII case-folded matching; the
/// flag changes no stored data and no other operation.
pub struct RecordDao {
    pub records: Vec<Record>,
    pub next_id: i64,
    pub clock: i64,
    pub case_insensitive: bool,
}

impl View for RecordDao {
    type V = DaoV;

    open spec fn view(&self) -> DaoV {
        DaoV {
            table: recs_view(self.records@),
            next_id: self.next_id as int,
            clock: self.clock as int,
            case_insensitive: self.case_insensitive,
        }
    }
}

impl RecordDao {
    /// An empty store, searching case-sensitively.
    pub fn new() -> (d: RecordDao)
        ensures
            d@.wf(),
            d@.table.len() == 0,
            d@.next_id == 1,
            d@.clock == 1,
            !d@.case_insensitive,
    {
        let d = RecordDao { records: Vec::new(), next_id: 1, clock: 1, case_insensitive: false };
        proof {
            assert(d@.table =~= Seq::<RecordV>::empty());
        }
        d
    }

    /// Atomically demote the current latest record of `loc`, if any, and
    /// insert the new version as the one latest record of `loc`.
    ///
    /// The in-memory table always commits, so the operation always
    /// succeeds; the third ensures clause is the per-location invariant:
    /// after the call exactly one record of `loc` is latest, namely the
    /// newly inserted one, which stands last in the table.
    pub fn create(
        &mut self,
        loc: &str,
        loc_kind: i16,
        total_cases: i32,
        total_deaths: i32,
        total_recovered: i32,
        active_cases: i32,
        critical_cases: i32,
        cases_to_pop_ppm: i64,
        meta: &Vec<String>,
    ) -> (r: Result<Record, Error>)
        requires
            old(self)@.wf(),
            old(self)@.next_id < i64::MAX,
            old(self)@.clock < i64::MAX,
        ensures
            final(self)@.wf(),
            final(self)@ == create_step(
                old(self)@,
                new_record_input(
                    loc@,
                    loc_kind as int,
                    total_cases as int,
                    total_deaths as int,
                    total_recovered as int,
                    active_cases as int,
                    critical_cases as int,
                    cases_to_pop_ppm as int,
                    meta.deep_view(),
                ),
            ),
            r matches Ok(rec) && rec@ == fresh_record(
                old(self)@,
                new_record_input(
                    loc@,
                    loc_kind as int,
                    total_cases as int,
                    total_deaths as int,
                    total_recovered as int,
                    active_cases as int,
                    critical_cases as int,
                    cases_to_pop_ppm as int,
                    meta.deep_view(),
                ),
            ),
            forall|i: int|
                0 <= i < final(self)@.table.len() ==> (((#[trigger] final(self)@.table[i]).latest
                    && final(self)@.table[i].loc == loc@) <==> i == final(self)@.table.len() - 1),
    {
        let ghost old_d = self@;
        let ghost n = new_record_input(
            loc@,
            loc_kind as int,
            total_cases as int,
            total_deaths as int,
            total_recovered as int,
            active_cases as int,
            critical_cases as int,
            cases_to_pop_ppm as int,
            meta.deep_view(),
        );
        let len = self.records.len();
        let mut table: Vec<Record> = Vec::new();
        let mut i: usize = 0;
        while i < len
            invariant
                0 <= i <= len,
                len == self.records.len(),
                self@ == old_d,
                table@.len() == i,
                forall|k: int|
                    0 <= k < i ==> (#[trigger] table@[k])@ == demoted_rec(old_d.table[k], loc@),
            decreases len - i,
        {
            let mut c = self.records[i].clone();
            if c.latest && str_eq(c.loc.as_str(), loc) {
                c.latest = false;
            }
            proof {
                assert(old_d.table[i as int] == self.records@[i as int]@);
            }
            table.push(c);
            i = i + 1;
        }
        let new_rec = Record {
            id: self.next_id,
            loc: loc.to_owned(),
            loc_kind: loc_kind,
            total_cases: total_cases,
            total_deaths: total_deaths,
            total_recovered: total_recovered,
            active_cases: active_cases,
            critical_cases: critical_cases,
            cases_to_pop_ppm: cases_to_pop_ppm,
            meta: clone_strings(meta),
            last_updated: self.clock,
            latest: true,
        };
        let rec_out = new_rec.clone();
        table.push(new_rec);
        self.records = table;
        self.next_id = self.next_id + 1;
        self.clock = self.clock + 1;
        proof {
            let ft = self@.table;
            let ot = old_d.table;
            assert(ft =~= demote(ot, loc@).push(fresh_record(old_d, n)));
            assert(self@ == create_step(old_d, n));
            assert(forall|k: int| 0 <= k < ot.len() ==> ft[k] == demoted_rec(ot[k], loc@));
            assert(ft[ot.len() as int] == fresh_record(old_d, n));
            assert(forall|k: int|
                0 <= k < ot.len() ==> (#[trigger] ft[k]).id == ot[k].id && ft[k].last_updated
                    == ot[k].last_updated && ft[k].loc == ot[k].loc && (ft[k].latest
                    ==> ot[k].latest));
            if ot.len() > 0 {
                assert(ot[ot.len() - 1].last_updated >= ot.len());
            }
            assert(ft[ot.len() as int].last_updated >= ot.len() + 1);
            assert forall|a: int, b: int| 0 <= a < b < ft.len() implies (#[trigger] ft[a]).id < (
            #[trigger] ft[b]).id && ft[a].last_updated < ft[b].last_updated by {
                if b == ot.len() {
                    assert(ft[a].id == ot[a].id && ft[a].last_updated == ot[a].last_updated);
                }
            }
            assert forall|a: int, b: int|
                0 <= a < ft.len() && 0 <= b < ft.len() && a != b && (#[trigger] ft[a]).loc == (
                #[trigger] ft[b]).loc && ft[a].latest implies b < a by {
                if a < ot.len() {
                    assert(ot[a].latest && ot[a].loc != loc@);
                    if b < ot.len() {
                        assert(ot[b].loc == ot[a].loc);
                    } else {
                        assert(ft[b].loc == loc@);
                    }
                }
            }
            assert(self@.wf());
        }
        Ok(rec_out)
    }

    /// The latest records of the requested locations (all locations when
    /// `locs` is empty), newest first, through the pagination window.
    pub fn get_latest_records(&self, locs: &Vec<String>, offset: i64, limit: i64) -> (r: Result<
        Vec<Record>,
        Error,
    >)
        requires
            self@.wf(),
            0 <= offset,
            0 <= limit < 1000000,
        ensures
            r matches Ok(v) && recs_view(v@) == page_of(
                latest_matches(self@.table, locs.deep_view()),
                offset as int,
                limit as int,
            ),
    {
        let mut all: Vec<Record> = Vec::new();
        let len = self.records.len();
        let ghost t = self@.table;
        let ghost lv = locs.deep_view();
        let mut i: usize = len;
        proof {
            assert(t.subrange(len as int, len as int) =~= Seq::<RecordV>::empty());
            assert(recs_view(all@) =~= latest_matches(t.subrange(len as int, len as int), lv));
        }
        while i > 0
            invariant
                0 <= i <= len,
                len == self.records.len(),
                t == self@.table,
                lv == locs.deep_view(),
                recs_view(all@) == latest_matches(t.subrange(i as int, len as int), lv),
            decreases i,
        {
            let rec = &self.records[i - 1];
            proof {
                assert(t[i - 1] == self.records@[i - 1]@);
                assert(t.subrange(i - 1, len as int).drop_first() =~= t.subrange(
                    i as int,
                    len as int,
                ));
                assert(t.subrange(i - 1, len as int)[0] == t[i - 1]);
            }
            if rec.latest && loc_in(locs, rec.loc.as_str()) {
                all.push(rec.clone());
                proof {
                    assert(recs_view(all@) =~= latest_matches(t.subrange(i - 1, len as int), lv));
                }
            } else {
                proof {
                    assert(recs_view(all@) =~= latest_matches(t.subrange(i - 1, len as int), lv));
                }
            }
            i = i - 1;
        }
        proof {
            assert(t.subrange(0, len as int) =~= t);
        }
        Ok(page_records(&all, offset, limit))
    }

    /// All stored versions for `loc`, newest first, through the
    /// pagination window.
    pub fn get_record_history(&self, loc: &str, offset: i64, limit: i64) -> (r: Result<
        Vec<Record>,
        Error,
    >)
        requires
            self@.wf(),
            0 <= offset,
            0 <= limit < 1000000,
        ensures
            r matches Ok(v) && recs_view(v@) == page_of(
                history_matches(self@.table, loc@),
                offset as int,
                limit as int,
            ),
    {
        let mut all: Vec<Record> = Vec::new();
        let len = self.records.len();
        let ghost t = self@.table;
        let mut i: usize = len;
        proof {
            assert(t.subrange(len as int, len as int) =~= Seq::<RecordV>::empty());
            assert(recs_view(all@) =~= history_matches(t.subrange(len as int, len as int), loc@));
        }
        while i > 0
            invariant
                0 <= i <= len,
                len == self.records.len(),
                t == self@.table,
                recs_view(all@) == history_matches(t.subrange(i as int, len as int), loc@),
            decreases i,
        {
            let rec = &self.records[i - 1];
            proof {
                assert(t[i - 1] == self.records@[i - 1]@);
                assert(t.subrange(i - 1, len as int).drop_first() =~= t.subrange(
                    i as int,
                    len as int,
                ));
                assert(t.subrange(i - 1, len as int)[0] == t[i - 1]);
            }
            if str_eq(rec.loc.as_str(), loc) {
                all.push(rec.clone());
                proof {
                    assert(recs_view(all@) =~= history_matches(t.subrange(i - 1, len as int), loc@));
                }
            } else {
                proof {
                    assert(recs_view(all@) =~= history_matches(t.subrange(i - 1, len as int), loc@));
                }
            }
            i = i - 1;
        }
        proof {
            assert(t.subrange(0, len as int) =~= t);
        }
        Ok(page_records(&all, offset, limit))
    }

    /// Search the latest records whose location contains `query` — by
    /// exact characters by default, up to ASCII case when the store is
    /// configured case-insensitively; the empty query matches every
    /// latest record.
    ///
    /// `count` is the total number of matches and never depends on the
    /// pagination window; `entries` is the requested page of the same
    /// match set, newest first.
    pub fn search(&self, query: &str, offset: i64, limit: i64) -> (r: Result<EntriesResult, Error>)
        requires
            self@.wf(),
            0 <= offset,
            0 <= limit < 1000000,
        ensures
            r matches Ok(er) && er.count == config_matches(self@, query@).len() && recs_view(
                er.entries@,
            ) == page_of(config_matches(self@, query@), offset as int, limit as int),
    {
        let ci = self.case_insensitive;
        let mut all: Vec<Record> = Vec::new();
        let len = self.records.len();
        let ghost t = self@.table;
        let mut i: usize = len;
        proof {
            assert(t.subrange(len as int, len as int) =~= Seq::<RecordV>::empty());
            assert(recs_view(all@) =~= Seq::<RecordV>::empty());
        }
        while i > 0
            invariant
                0 <= i <= len,
                len == self.records.len(),
                t == self@.table,
                ci == self@.case_insensitive,
                recs_view(all@) == (if ci {
                    search_matches_ci(t.subrange(i as int, len as int), query@)
                } else {
                    search_matches(t.subrange(i as int, len as int), query@)
                }),
            decreases i,
        {
            let rec = &self.records[i - 1];
            proof {
                assert(t[i - 1] == self.records@[i - 1]@);
                assert(t.subrange(i - 1, len as int).drop_first() =~= t.subrange(
                    i as int,
                    len as int,
                ));
                assert(t.subrange(i - 1, len as int)[0] == t[i - 1]);
            }
            let hit = if ci {
                str_contains_ci(rec.loc.as_str(), query)
            } else {
                str_contains(rec.loc.as_str(), query)
            };
            if rec.latest && hit {
                all.push(rec.clone());
            }
            proof {
                if ci {
                    assert(recs_view(all@) =~= search_matches_ci(
                        t.subrange(i - 1, len as int),
                        query@,
                    ));
                } else {
                    assert(recs_view(all@) =~= search_matches(
                        t.subrange(i - 1, len as int),
                        query@,
                    ));
                }
            }
            i = i - 1;
        }
        proof {
            assert(t.subrange(0, len as int) =~= t);
            lemma_wf_table_len(self@);
            lemma_search_matches_len(t, query@);
            lemma_search_matches_ci_len(t, query@);
            assert(recs_view(all@).len() == all@.len());
            assert(all@.len() < i64::MAX);
        }
        let count = all.len() as i64;
        let entries = page_records(&all, offset, limit);
        Ok(EntriesResult { count: count, entries: entries })
    }

    /// The record with identifier `id`; `NotFound` exactly when no stored
    /// record carries that identifier.
    pub fn get_by_id(&self, id: i64) -> (r: Result<Record, Error>)
        requires
            self@.wf(),
        ensures
            match r {
                Ok(rec) => exists|i: int|
                    0 <= i < self@.table.len() && (#[trigger] self@.table[i]).id == id && rec@
                        == self@.table[i],
                Err(e) => e == Error::NotFound && forall|i: int|
                    0 <= i < self@.table.len() ==> (#[trigger] self@.table[i]).id != id,
            },
    {
        let len = self.records.len();
        let mut i: usize = 0;
        while i < len
            invariant
                0 <= i <= len,
                len == self.records.len(),
                forall|k: int| 0 <= k < i ==> (#[trigger] self@.table[k]).id != id,
            decreases len - i,
        {
            proof {
                assert(self@.table[i as int] == self.records@[i as int]@);
            }
            if self.records[i].id == id {
                return Ok(self.records[i].clone());
            }
            i = i + 1;
        }
        Err(Error::NotFound)
    }

    /// Remove exactly the record with identifier `id`, without promoting
    /// any other version of its location; `NotFound`, and no change,
    /// exactly when no stored record carries that identifier.
    pub fn delete_by_id(&mut self, id: i64) -> (r: Result<(), Error>)
        requires
            old(self)@.wf(),
        ensures
            final(self)@.wf(),
            final(self)@.next_id == old(self)@.next_id,
            final(self)@.clock == old(self)@.clock,
            final(self)@.case_insensitive == old(self)@.case_insensitive,
            match r {
                Ok(u) => exists|i: int|
                    0 <= i < old(self)@.table.len() && (#[trigger] old(self)@.table[i]).id == id
                        && final(self)@.table == old(self)@.table.remove(i),
                Err(e) => e == Error::NotFound && final(self)@ == old(self)@ && forall|i: int|
                    0 <= i < old(self)@.table.len() ==> (#[trigger] old(self)@.table[i]).id != id,
            },
    {
        let ghost ot = old(self)@.table;
        let len = self.records.len();
        let mut i: usize = 0;
        while i < len
            invariant
                0 <= i <= len,
                len == self.records.len(),
                self@ == old(self)@,
                ot == self@.table,
                old(self)@.wf(),
                forall|k: int| 0 <= k < i ==> (#[trigger] ot[k]).id != id,
            decreases len - i,
        {
            proof {
                assert(ot[i as int] == self.records@[i as int]@);
            }
            if self.records[i].id == id {
                self.records.remove(i);
                proof {
                    let ft = self@.table;
                    assert(ft =~= ot.remove(i as int));
                    assert(forall|k: int| 0 <= k < i ==> #[trigger] ft[k] == ot[k]);
                    assert(forall|k: int| i <= k < ft.len() ==> #[trigger] ft[k] == ot[k + 1]);
                    assert forall|a: int, b: int|
                        0 <= a < ft.len() && 0 <= b < ft.len() && a != b && (#[trigger] ft[a]).loc
                            == (#[trigger] ft[b]).loc && ft[a].latest implies b < a by {
                        let oa: int = if a < i { a } else { a + 1 };
                        let ob: int = if b < i { b } else { b + 1 };
                        assert(ot[oa].latest && ot[ob].loc == ot[oa].loc && oa != ob);
                    }
                    assert(self@.wf());
                    assert((i as int) < ot.len() && ot[i as int].id == id && self@.table == ot
                        .remove(i as int));
                }
                return Ok(());
            }
            i = i + 1;
        }
        Err(Error::NotFound)
    }
}

/// A search result page together with the pagination-independent total
/// number of matches.
pub struct EntriesResult {
    pub count: i64,
    pub entries: Vec<Record>,
}

/// A well-formed table is shorter than the clock bound, so a count of any
/// part of it fits the count field.
pub proof fn lemma_wf_table_len(d: DaoV)
    requires
        d.wf(),
    ensures
        d.table.len() < d.clock,
{
    if d.table.len() > 0 {
        assert(d.table[d.table.len() - 1].last_updated >= d.table.len());
    }
}

/// For every location, a well-formed store holds at most one latest
/// record, and the latest record, where one exists, is the most recently
/// created version of its location: every other version of the same
/// location carries a strictly smaller timestamp. Since `create` ensures
/// the record it inserts is the one latest record of its location and
/// every operation preserves well-formedness, this holds after any
/// sequence of creates.
pub proof fn lemma_latest_unique(d: DaoV, i: int, j: int)
    requires
        d.wf(),
        0 <= i < d.table.len(),
        0 <= j < d.table.len(),
        i != j,
        d.table[i].loc == d.table[j].loc,
        d.table[i].latest,
    ensures
        !d.table[j].latest,
        d.table[j].last_updated < d.table[i].last_updated,
{
    assert(j < i);
    if d.table[j].latest {
        assert(i < j);
    }
}

/// The predicate search uses, both for the page and for the count: the
/// record is latest and its location contains the query.
pub open spec fn search_pred(q: Seq<char>) -> spec_fn(RecordV) -> bool {
    |r: RecordV| r.latest && contains_sub(r.loc, q)
}

/// The total count that `search` reports tallies exactly the records
/// that its own match predicate selects from the table — the same
/// predicate that fills the page — and does not depend on the pagination
/// window. With the latest-per-location invariant the tally is the
/// number of distinct locations whose latest record matches the query.
pub proof fn lemma_search_count_consistent(t: Seq<RecordV>, q: Seq<char>)
    ensures
        search_matches(t, q).len() == t.filter(search_pred(q)).len(),
    decreases t.len(),
{
    reveal(Seq::filter);
    let pred = search_pred(q);
    if t.len() == 0 {
        assert(t.filter(pred).len() == 0);
    } else {
        lemma_search_count_consistent(t.drop_first(), q);
        assert(t =~= seq![t[0]] + t.drop_first());
        Seq::<RecordV>::filter_distributes_over_add(seq![t[0]], t.drop_first(), pred);
        assert(seq![t[0]].drop_last() =~= Seq::<RecordV>::empty());
        assert(Seq::<RecordV>::empty().filter(pred) =~= Seq::<RecordV>::empty());
        assert(seq![t[0]].last() == t[0]);
        assert(seq![t[0]].filter(pred) == if pred(t[0]) {
            Seq::<RecordV>::empty().push(t[0])
        } else {
            Seq::<RecordV>::empty()
        });
        assert(seq![t[0]].filter(pred).len() == if pred(t[0]) {
            1int
        } else {
            0int
        });
        assert(t.filter(pred) == (seq![t[0]] + t.drop_first()).filter(pred));
    }
}

/// Every entry of a search is a latest record whose location contains
/// the query.
pub proof fn lemma_search_matches_props(t: Seq<RecordV>, q: Seq<char>)
    ensures
        forall|k: int|
            0 <= k < search_matches(t, q).len() ==> (#[trigger] search_matches(t, q)[k]).latest
                && contains_sub(search_matches(t, q)[k].loc, q),
    decreases t.len(),
{
    if t.len() > 0 {
        lemma_search_matches_props(t.drop_first(), q);
        let sub = search_matches(t.drop_first(), q);
        if t[0].latest && contains_sub(t[0].loc, q) {
            assert(search_matches(t, q) == sub + seq![t[0]]);
            assert(forall|k: int|
                0 <= k < sub.len() ==> search_matches(t, q)[k] == #[trigger] sub[k]);
            assert(search_matches(t, q)[sub.len() as int] == t[0]);
        } else {
            assert(search_matches(t, q) == sub);
        }
    }
}

/// On a table whose timestamps increase along insertion order, a search
/// returns stored records in strictly descending timestamp order.
proof fn lemma_search_matches_desc(t: Seq<RecordV>, q: Seq<char>)
    requires
        forall|i: int, j: int|
            0 <= i < j < t.len() ==> (#[trigger] t[i]).last_updated < (
            #[trigger] t[j]).last_updated,
    ensures
        forall|k: int| 0 <= k < search_matches(t, q).len() ==> t.contains(
            #[trigger] search_matches(t, q)[k],
        ),
        forall|k1: int, k2: int|
            0 <= k1 < k2 < search_matches(t, q).len() ==> (
            #[trigger] search_matches(t, q)[k1]).last_updated > (
            #[trigger] search_matches(t, q)[k2]).last_updated,
    decreases t.len(),
{
    if t.len() > 0 {
        let rest = t.drop_first();
        assert(forall|i: int, j: int|
            0 <= i < j < rest.len() ==> (#[trigger] rest[i]).last_updated < (
            #[trigger] rest[j]).last_updated);
        lemma_search_matches_desc(rest, q);
        let sub = search_matches(rest, q);
        let whole = search_matches(t, q);
        assert forall|k: int| 0 <= k < sub.len() implies t.contains(#[trigger] sub[k])
            && sub[k].last_updated > t[0].last_updated by {
            let i0 = choose|i: int| 0 <= i < rest.len() && rest[i] == sub[k];
            assert(t[i0 + 1] == sub[k]);
        }
        if t[0].latest && contains_sub(t[0].loc, q) {
            assert(whole == sub + seq![t[0]]);
            assert(forall|k: int| 0 <= k < sub.len() ==> whole[k] == #[trigger] sub[k]);
            assert(whole[sub.len() as int] == t[0]);
            assert(t.contains(t[0]));
        } else {
            assert(whole == sub);
        }
    }
}

/// No two entries of a search share a location: with the
/// latest-per-location invariant, the reported count is the number of
/// distinct locations whose latest record matches the query.
pub proof fn lemma_search_locations_distinct(d: DaoV, q: Seq<char>, k1: int, k2: int)
    requires
        d.wf(),
        0 <= k1 < k2 < search_matches(d.table, q).len(),
    ensures
        search_matches(d.table, q)[k1].loc != search_matches(d.table, q)[k2].loc,
{
    let t = d.table;
    lemma_search_matches_props(t, q);
    lemma_search_matches_desc(t, q);
    let r1 = search_matches(t, q)[k1];
    let r2 = search_matches(t, q)[k2];
    if r1.loc == r2.loc {
        let i1 = choose|i: int| 0 <= i < t.len() && t[i] == r1;
        let i2 = choose|i: int| 0 <= i < t.len() && t[i] == r2;
        assert(r1.last_updated > r2.last_updated);
        assert(i1 != i2);
        lemma_latest_unique(d, i1, i2);
    }
}

/// On a table whose timestamps increase along insertion order, a
/// latest-record query returns stored records in strictly descending
/// timestamp order — newest first, as the pagination window expects.
pub proof fn lemma_latest_matches_desc(t: Seq<RecordV>, locs: Seq<Seq<char>>)
    requires
        forall|i: int, j: int|
            0 <= i < j < t.len() ==> (#[trigger] t[i]).last_updated < (
            #[trigger] t[j]).last_updated,
    ensures
        forall|k: int| 0 <= k < latest_matches(t, locs).len() ==> t.contains(
            #[trigger] latest_matches(t, locs)[k],
        ),
        forall|k1: int, k2: int|
            0 <= k1 < k2 < latest_matches(t, locs).len() ==> (
            #[trigger] latest_matches(t, locs)[k1]).last_updated > (
            #[trigger] latest_matches(t, locs)[k2]).last_updated,
    decreases t.len(),
{
    if t.len() > 0 {
        let rest = t.drop_first();
        assert(forall|i: int, j: int|
            0 <= i < j < rest.len() ==> (#[trigger] rest[i]).last_updated < (
            #[trigger] rest[j]).last_updated);
        lemma_latest_matches_desc(rest, locs);
        let sub = latest_matches(rest, locs);
        let whole = latest_matches(t, locs);
        assert forall|k: int| 0 <= k < sub.len() implies t.contains(#[trigger] sub[k])
            && sub[k].last_updated > t[0].last_updated by {
            let i0 = choose|i: int| 0 <= i < rest.len() && rest[i] == sub[k];
            assert(t[i0 + 1] == sub[k]);
        }
        if t[0].latest && loc_selected(locs, t[0].loc) {
            assert(whole == sub + seq![t[0]]);
            assert(forall|k: int| 0 <= k < sub.len() ==> whole[k] == #[trigger] sub[k]);
            assert(whole[sub.len() as int] == t[0]);
            assert(t.contains(t[0]));
        } else {
            assert(whole == sub);
        }
    }
}

/// Every entry a latest-record query returns is a latest record of a
/// selected location.
pub proof fn lemma_latest_matches_props(t: Seq<RecordV>, locs: Seq<Seq<char>>)
    ensures
        forall|k: int|
            0 <= k < latest_matches(t, locs).len() ==> (#[trigger] latest_matches(t, locs)[k]).latest
                && loc_selected(locs, latest_matches(t, locs)[k].loc),
    decreases t.len(),
{
    if t.len() > 0 {
        lemma_latest_matches_props(t.drop_first(), locs);
        let sub = latest_matches(t.drop_first(), locs);
        if t[0].latest && loc_selected(locs, t[0].loc) {
            assert(latest_matches(t, locs) == sub + seq![t[0]]);
            assert(forall|k: int|
                0 <= k < sub.len() ==> latest_matches(t, locs)[k] == #[trigger] sub[k]);
            assert(latest_matches(t, locs)[sub.len() as int] == t[0]);
        } else {
            assert(latest_matches(t, locs) == sub);
        }
    }
}

/// A search never reports more matches than there are stored records.
pub proof fn lemma_search_matches_len(t: Seq<RecordV>, q: Seq<char>)
    ensures
        search_matches(t, q).len() <= t.len(),
    decreases t.len(),
{
    if t.len() > 0 {
        lemma_search_matches_len(t.drop_first(), q);
    }
}

/// A case-folded search never reports more matches than there are
/// stored records.
pub proof fn lemma_search_matches_ci_len(t: Seq<RecordV>, q: Seq<char>)
    ensures
        search_matches_ci(t, q).len() <= t.len(),
    decreases t.len(),
{
    if t.len() > 0 {
        lemma_search_matches_ci_len(t.drop_first(), q);
    }
}

fn loc_in(locs: &Vec<String>, loc: &str) -> (r: bool)
    ensures
        r == loc_selected(locs.deep_view(), loc@),
{
    if locs.len() == 0 {
        return true;
    }
    let n = locs.len();
    let mut k: usize = 0;
    while k < n
        invariant
            0 <= k <= n,
            n == locs.len(),
            n > 0,
            forall|j: int| 0 <= j < k ==> locs.deep_view()[j] != loc@,
        decreases n - k,
    {
        proof {
            assert(locs.deep_view()[k as int] == locs@[k as int]@);
        }
        if str_eq(locs[k].as_str(), loc) {
            proof {
                assert(locs.deep_view()[k as int] == loc@);
            }
            return true;
        }
        k = k + 1;
    }
    proof {
        assert(!locs.deep_view().contains(loc@));
    }
    false
}

/// Copy the pagination window out of the full, ordered match list.
fn page_records(all: &Vec<Record>, offset: i64, limit: i64) -> (out: Vec<Record>)
    requires
        0 <= offset,
        0 <= limit < 1000000,
    ensures
        recs_view(out@) == page_of(recs_view(all@), offset as int, limit as int),
{
    let total = all.len();
    let lo: usize = if (offset as u64) <= (total as u64) {
        offset as usize
    } else {
        total
    };
    let hi: usize = if (limit as u64) <= ((total - lo) as u64) {
        lo + limit as usize
    } else {
        total
    };
    proof {
        assert(lo as int == if offset as int <= total as int {
            offset as int
        } else {
            total as int
        });
        assert(hi as int == if offset as int + limit as int <= total as int {
            offset as int + limit as int
        } else {
            total as int
        });
    }
    let mut out: Vec<Record> = Vec::new();
    let mut j: usize = lo;
    while j < hi
        invariant
            lo <= j <= hi <= all.len(),
            out@.len() == j - lo,
            forall|k: int| 0 <= k < out@.len() ==> (#[trigger] out@[k])@ == all@[lo + k]@,
        decreases hi - j,
    {
        out.push(all[j].clone());
        j = j + 1;
    }
    proof {
        assert(recs_view(all@).len() == all@.len());
        let pg = page_of(recs_view(all@), offset as int, limit as int);
        assert(pg.len() == hi - lo);
        assert(forall|k: int|
            0 <= k < out@.len() ==> recs_view(out@)[k] == #[trigger] pg[k]);
        assert(recs_view(out@) =~= pg);
    }
    out
}

} // verus!
