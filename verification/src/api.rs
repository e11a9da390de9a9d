//! The operations a boundary layer (HTTP, auth, serialization) calls:
//! adding and deleting records, location queries, search, and the batch
//! update orchestrator that gates change notifications.

use vstd::prelude::*;

use crate::error::Error;
use crate::eventstream::{Event, EventStream, EventV};
use crate::models::{Record, RecordV};
use crate::record_dao::{
    create_step, fresh_record, history_matches, latest_matches, lemma_latest_matches_props,
    config_matches, new_record_input, page_of, recs_view, DaoV, EntriesResult, NewRecordV,
    RecordDao,
};
use crate::strutil::{split_commas, split_commas_spec};

verus! {

/// Model of one incoming update request.
pub ghost struct RecordUpdateV {
    pub id: int,
    pub loc: Seq<char>,
    pub loc_kind: int,
    pub total_cases: int,
    pub total_deaths: int,
    pub total_recovered: int,
    pub active_cases: int,
    pub critical_cases: int,
    pub cases_to_pop_ppm: int,
    pub meta: Seq<Seq<char>>,
    pub last_updated: int,
}

/// One incoming update for a location, as the boundary layer hands it in.
pub struct RecordUpdate {
    pub id: i64,
    pub loc: String,
    pub loc_kind: i16,
    pub total_cases: i32,
    pub total_deaths: i32,
    pub total_recovered: i32,
    pub active_cases: i32,
    pub critical_cases: i32,
    /// Cases per population unit, fixed point in millionths.
    pub cases_to_pop_ppm: i64,
    pub meta: Vec<String>,
    pub last_updated: i64,
}

impl View for RecordUpdate {
    type V = RecordUpdateV;

    open spec fn view(&self) -> RecordUpdateV {
        RecordUpdateV {
            id: self.id as int,
            loc: self.loc@,
            loc_kind: self.loc_kind as int,
            total_cases: self.total_cases as int,
            total_deaths: self.total_deaths as int,
            total_recovered: self.total_recovered as int,
            active_cases: self.active_cases as int,
            critical_cases: self.critical_cases as int,
            cases_to_pop_ppm: self.cases_to_pop_ppm as int,
            meta: self.meta.deep_view(),
            last_updated: self.last_updated as int,
        }
    }
}

/// A batch of updates applied as one atomic unit, in order.
pub struct UpdateRecords {
    pub records: Vec<RecordUpdate>,
}

/// Model of one request to add a record.
pub ghost struct AddRecordV {
    pub loc: Seq<char>,
    pub loc_kind: int,
    pub total_cases: int,
    pub total_deaths: int,
    pub total_recovered: int,
    pub active_cases: int,
    pub critical_cases: int,
}

/// A request to add one record for a location.
pub struct AddRecord {
    pub loc: String,
    pub loc_kind: i16,
    pub total_cases: i32,
    pub total_deaths: i32,
    pub total_recovered: i32,
    pub active_cases: i32,
    pub critical_cases: i32,
}

impl View for AddRecord {
    type V = AddRecordV;

    open spec fn view(&self) -> AddRecordV {
        AddRecordV {
            loc: self.loc@,
            loc_kind: self.loc_kind as int,
            total_cases: self.total_cases as int,
            total_deaths: self.total_deaths as int,
            total_recovered: self.total_recovered as int,
            active_cases: self.active_cases as int,
            critical_cases: self.critical_cases as int,
        }
    }
}

/// Model of one entry of a multi-location query result.
pub ghost struct InfoLocationV {
    pub name: Seq<char>,
    pub latest_record: RecordV,
    pub history: Seq<RecordV>,
}

/// One location's answer in a multi-location query: its latest record and,
/// when requested, its history.
pub struct InfoLocation {
    pub name: String,
    pub latest_record: Record,
    pub history: Vec<Record>,
}

impl View for InfoLocation {
    type V = InfoLocationV;

    open spec fn view(&self) -> InfoLocationV {
        InfoLocationV {
            name: self.name@,
            latest_record: self.latest_record@,
            history: recs_view(self.history@),
        }
    }
}

/// A single- or multi-location query.
pub struct LocationQuery {
    pub loc: String,
    pub with_history: Option<bool>,
}

/// A paginated search query.
pub struct QueryEntries {
    pub query: Option<String>,
    pub offset: i64,
    pub limit: i64,
}

/// A lookup or deletion by record identifier.
pub struct IdQuery {
    pub id: i64,
}

/// The caller-supplied fields of an add request as the store receives
/// them: the ratio starts at zero and no tags are attached.
pub open spec fn add_input(a: AddRecordV) -> NewRecordV {
    new_record_input(
        a.loc,
        a.loc_kind,
        a.total_cases,
        a.total_deaths,
        a.total_recovered,
        a.active_cases,
        a.critical_cases,
        0,
        Seq::empty(),
    )
}

/// The caller-supplied fields of one batch update.
pub open spec fn update_input(u: RecordUpdateV) -> NewRecordV {
    new_record_input(
        u.loc,
        u.loc_kind,
        u.total_cases,
        u.total_deaths,
        u.total_recovered,
        u.active_cases,
        u.critical_cases,
        u.cases_to_pop_ppm,
        u.meta,
    )
}

/// The documented ranges of an update request: a positive bounded
/// identifier and a location name of 2 to 1000 characters.
pub open spec fn update_valid(u: RecordUpdateV) -> bool {
    &&& 1 <= u.id <= 9999999999
    &&& 2 <= u.loc.len() <= 1000
}

/// The models of a batch of update requests.
pub open spec fn updates_view(s: Seq<RecordUpdate>) -> Seq<RecordUpdateV> {
    s.map_values(|u: RecordUpdate| u@)
}

/// One entry of a multi-location answer: the latest record under its
/// location's name, with its history attached when it was asked for.
pub open spec fn info_for(t: Seq<RecordV>, rec: RecordV, with_history: bool) -> InfoLocationV {
    InfoLocationV {
        name: rec.loc,
        latest_record: rec,
        history: if with_history {
            page_of(history_matches(t, rec.loc), 0, 30)
        } else {
            Seq::empty()
        },
    }
}

/// Every update of a batch is inside its documented ranges.
pub open spec fn batch_valid(us: Seq<RecordUpdateV>) -> bool {
    forall|i: int| 0 <= i < us.len() ==> update_valid(#[trigger] us[i])
}

/// The previous latest record of `loc`, as the orchestrator reads it
/// before writing the new version.
pub open spec fn prior_latest(d: DaoV, loc: Seq<char>) -> Option<RecordV> {
    let m = latest_matches(d.table, seq![loc]);
    if m.len() > 0 {
        Some(m[0])
    } else {
        None
    }
}

/// Whether applying `u` in state `d` is a newsworthy change: a previous
/// latest record exists and at least one tracked counter strictly
/// increases over it.
pub open spec fn notify_step(d: DaoV, u: RecordUpdateV) -> bool {
    match prior_latest(d, u.loc) {
        Some(o) => u.total_cases > o.total_cases || u.total_deaths > o.total_deaths
            || u.total_recovered > o.total_recovered || u.critical_cases > o.critical_cases,
        None => false,
    }
}

/// The store transition of one batch update.
pub open spec fn apply_step(d: DaoV, u: RecordUpdateV) -> DaoV {
    create_step(d, update_input(u))
}

/// The notifications one batch update emits: exactly one when the change
/// is newsworthy, none otherwise.
pub open spec fn step_events(d: DaoV, u: RecordUpdateV) -> Seq<EventV> {
    if notify_step(d, u) {
        seq![
            (EventV {
                previous: prior_latest(d, u.loc),
                current: fresh_record(d, update_input(u)),
            }),
        ]
    } else {
        Seq::empty()
    }
}

/// The store state after a whole batch, applied in order.
pub open spec fn apply_batch(d: DaoV, us: Seq<RecordUpdateV>) -> DaoV
    decreases us.len(),
{
    if us.len() == 0 {
        d
    } else {
        apply_batch(apply_step(d, us[0]), us.drop_first())
    }
}

/// The notifications a whole batch emits, in order.
pub open spec fn batch_events(d: DaoV, us: Seq<RecordUpdateV>) -> Seq<EventV>
    decreases us.len(),
{
    if us.len() == 0 {
        Seq::empty()
    } else {
        step_events(d, us[0]) + batch_events(apply_step(d, us[0]), us.drop_first())
    }
}

proof fn lemma_batch_snoc(d: DaoV, us: Seq<RecordUpdateV>, u: RecordUpdateV)
    ensures
        apply_batch(d, us.push(u)) == apply_step(apply_batch(d, us), u),
        batch_events(d, us.push(u)) == batch_events(d, us) + step_events(apply_batch(d, us), u),
    decreases us.len(),
{
    let p = us.push(u);
    if us.len() == 0 {
        assert(p[0] == u);
        assert(p.drop_first() =~= us);
        assert(apply_batch(d, p) == apply_batch(apply_step(d, u), us));
        assert(apply_batch(apply_step(d, u), us) == apply_step(d, u));
        assert(apply_batch(d, us) == d);
        assert(batch_events(d, p) == step_events(d, u) + batch_events(apply_step(d, u), us));
        assert(batch_events(apply_step(d, u), us) =~= Seq::<EventV>::empty());
        assert(batch_events(d, us) =~= Seq::<EventV>::empty());
        assert(batch_events(d, p) =~= batch_events(d, us) + step_events(apply_batch(d, us), u));
    } else {
        assert(p[0] == us[0]);
        assert(p.drop_first() =~= us.drop_first().push(u));
        let d1 = apply_step(d, us[0]);
        lemma_batch_snoc(d1, us.drop_first(), u);
        assert(apply_batch(d, p) == apply_batch(d1, p.drop_first()));
        assert(apply_batch(d1, us.drop_first().push(u)) == apply_step(
            apply_batch(d1, us.drop_first()),
            u,
        ));
        assert(apply_batch(d, us) == apply_batch(d1, us.drop_first()));
        assert(batch_events(d, p) == step_events(d, us[0]) + batch_events(d1, p.drop_first()));
        assert(batch_events(d1, us.drop_first().push(u)) == batch_events(d1, us.drop_first())
            + step_events(apply_batch(d1, us.drop_first()), u));
        assert(batch_events(d, us) == step_events(d, us[0]) + batch_events(d1, us.drop_first()));
        assert(batch_events(d, p) =~= batch_events(d, us) + step_events(apply_batch(d, us), u));
    }
}

/// An update fires a notification exactly when at least one of the four
/// tracked counters strictly increases over the location's previous
/// latest record: an update of a location without prior record, or one
/// that leaves every counter unchanged or decreased, passes silently.
/// When it fires, the event carries the previous latest record and the
/// newly created version, whose counters give the diff.
pub proof fn lemma_notification_gating(d: DaoV, u: RecordUpdateV)
    ensures
        step_events(d, u).len() <= 1,
        prior_latest(d, u.loc) is None ==> step_events(d, u).len() == 0,
        (prior_latest(d, u.loc) matches Some(o) ==> (step_events(d, u).len() == 1 <==> (
        u.total_cases > o.total_cases || u.total_deaths > o.total_deaths || u.total_recovered
            > o.total_recovered || u.critical_cases > o.critical_cases))),
        step_events(d, u).len() == 1 ==> step_events(d, u)[0] == (EventV {
            previous: prior_latest(d, u.loc),
            current: fresh_record(d, update_input(u)),
        }),
{
}

/// Holder of the public API endpoints, owning the store and the
/// notification stream.
pub struct PublicApi {
    pub dao: RecordDao,
    pub events: EventStream,
}

/// Holder of the private API endpoints; none are defined.
pub struct PrivateApi {}

fn check_update(u: &RecordUpdate) -> (b: bool)
    ensures
        b == update_valid(u@),
{
    if u.id < 1 || u.id > 9999999999 {
        return false;
    }
    let n = u.loc.as_str().unicode_len();
    2 <= n && n <= 1000
}

impl PublicApi {
    /// An API over an empty store with no emitted notifications.
    pub fn new() -> (api: PublicApi)
        ensures
            api.dao@.wf(),
            api.dao@.table.len() == 0,
            !api.dao@.case_insensitive,
            api.events@.len() == 0,
    {
        PublicApi { dao: RecordDao::new(), events: EventStream::new() }
    }

    /// Add one record: create the new latest version for the location
    /// (ratio zero, no tags) and always announce it, without a previous
    /// version attached.
    pub fn add_record(&mut self, query: &AddRecord) -> (r: Result<Record, Error>)
        requires
            old(self).dao@.wf(),
            old(self).dao@.next_id < i64::MAX,
            old(self).dao@.clock < i64::MAX,
        ensures
            final(self).dao@.wf(),
            final(self).dao@ == create_step(old(self).dao@, add_input(query@)),
            r matches Ok(rec) && rec@ == fresh_record(old(self).dao@, add_input(query@)),
            final(self).events@ == old(self).events@.push(
                (EventV {
                    previous: None,
                    current: fresh_record(old(self).dao@, add_input(query@)),
                }),
            ),
    {
        let empty_meta: Vec<String> = Vec::new();
        proof {
            assert(empty_meta.deep_view() =~= Seq::<Seq<char>>::empty());
        }
        let rec = match self.dao.create(
            query.loc.as_str(),
            query.loc_kind,
            query.total_cases,
            query.total_deaths,
            query.total_recovered,
            query.active_cases,
            query.critical_cases,
            0,
            &empty_meta,
        ) {
            Ok(rec) => rec,
            Err(e) => {
                return Err(e);
            },
        };
        let out = rec.clone();
        self.events.emit(Event::NewRecordUpdate(None, rec));
        Ok(out)
    }

    /// The latest record of one location, or nothing when the location
    /// has none.
    pub fn get_info_location(&self, query: &LocationQuery) -> (r: Result<Option<Record>, Error>)
        requires
            self.dao@.wf(),
        ensures
            r matches Ok(o) && (match o {
                Some(rec) => latest_matches(self.dao@.table, seq![query.loc@]).len() > 0 && rec@
                    == latest_matches(self.dao@.table, seq![query.loc@])[0],
                None => latest_matches(self.dao@.table, seq![query.loc@]).len() == 0,
            }),
    {
        let mut locs: Vec<String> = Vec::new();
        locs.push(query.loc.clone());
        proof {
            assert(locs.deep_view() =~= seq![query.loc@]);
        }
        let mut recs = match self.dao.get_latest_records(&locs, 0, 3) {
            Ok(v) => v,
            Err(e) => {
                return Err(e);
            },
        };
        let ghost m = latest_matches(self.dao@.table, seq![query.loc@]);
        let ghost pre = recs@;
        if recs.len() > 0 {
            let rec = recs.remove(0);
            proof {
                assert(rec == pre[0]);
                assert(recs_view(pre)[0] == pre[0]@);
                assert(recs_view(pre).len() == pre.len());
                assert(page_of(m, 0, 3).len() > 0);
                assert(m.len() > 0);
                assert(page_of(m, 0, 3)[0] == m[0]);
            }
            Ok(Some(rec))
        } else {
            proof {
                assert(recs_view(recs@).len() == 0);
                assert(page_of(m, 0, 3).len() == 0);
            }
            Ok(None)
        }
    }

    /// Search the latest records by location substring; the count is
    /// always the full number of matches, the entries the requested page.
    pub fn search_records(&self, query: &QueryEntries) -> (r: Result<EntriesResult, Error>)
        requires
            self.dao@.wf(),
            0 <= query.offset,
            0 <= query.limit < 1000000,
        ensures
            ({
                let q = match query.query {
                    Some(s) => s@,
                    None => Seq::<char>::empty(),
                };
                r matches Ok(er) && er.count == config_matches(self.dao@, q).len()
                    && recs_view(er.entries@) == page_of(
                    config_matches(self.dao@, q),
                    query.offset as int,
                    query.limit as int,
                )
            }),
    {
        match &query.query {
            Some(s) => self.dao.search(s.as_str(), query.offset, query.limit),
            None => {
                proof {
                    reveal_strlit("");
                    assert(""@ =~= Seq::<char>::empty());
                }
                self.dao.search("", query.offset, query.limit)
            },
        }
    }

    /// The latest records of the comma-separated locations of the query
    /// (the first ten), each under its name and, when history was asked
    /// for, with up to thirty of its versions, newest first.
    pub fn get_info_locations(&self, query: &LocationQuery) -> (r: Result<Vec<InfoLocation>, Error>)
        requires
            self.dao@.wf(),
        ensures
            ({
                let sel = page_of(
                    latest_matches(self.dao@.table, split_commas_spec(query.loc@)),
                    0,
                    10,
                );
                let wh = query.with_history == Some(true);
                r matches Ok(v) && v@.len() == sel.len() && (forall|k: int|
                    0 <= k < sel.len() ==> (#[trigger] v@[k])@ == info_for(
                        self.dao@.table,
                        sel[k],
                        wh,
                    ))
            }),
    {
        let locs = split_commas(query.loc.as_str());
        let records = match self.dao.get_latest_records(&locs, 0, 10) {
            Ok(v) => v,
            Err(e) => {
                return Err(e);
            },
        };
        let with_history = match query.with_history {
            Some(b) => b,
            None => false,
        };
        let ghost t = self.dao@.table;
        let ghost sel = page_of(latest_matches(t, split_commas_spec(query.loc@)), 0, 10);
        proof {
            assert(recs_view(records@) == sel);
        }
        let mut result: Vec<InfoLocation> = Vec::new();
        let n = records.len();
        let mut i: usize = 0;
        while i < n
            invariant
                0 <= i <= n,
                n == records.len(),
                self.dao@.wf(),
                t == self.dao@.table,
                recs_view(records@) == sel,
                with_history == (query.with_history == Some(true)),
                result@.len() == i,
                forall|k: int|
                    0 <= k < i ==> (#[trigger] result@[k])@ == info_for(t, sel[k], with_history),
            decreases n - i,
        {
            let rec = &records[i];
            proof {
                assert(rec@ == recs_view(records@)[i as int]);
            }
            let history: Vec<Record> = if with_history {
                match self.dao.get_record_history(rec.loc.as_str(), 0, 30) {
                    Ok(h) => h,
                    Err(e) => {
                        return Err(e);
                    },
                }
            } else {
                let none: Vec<Record> = Vec::new();
                proof {
                    assert(recs_view(none@) =~= Seq::<RecordV>::empty());
                }
                none
            };
            result.push(
                InfoLocation { name: rec.loc.clone(), latest_record: rec.clone(), history },
            );
            proof {
                assert(result@[i as int]@ == info_for(t, sel[i as int], with_history));
            }
            i = i + 1;
        }
        Ok(result)
    }

    /// Apply a batch of updates as one all-or-nothing unit, in order: for
    /// each update, read the location's previous latest record, write the
    /// new version through the store, and, exactly when one of the four
    /// tracked counters strictly increased, announce the change with the
    /// previous and the new record. A batch with any update outside its
    /// documented ranges is rejected whole, changing nothing.
    pub fn update_records(&mut self, query: UpdateRecords) -> (r: Result<(), Error>)
        requires
            old(self).dao@.wf(),
            old(self).dao@.next_id + query.records@.len() <= i64::MAX,
            old(self).dao@.clock + query.records@.len() <= i64::MAX,
        ensures
            final(self).dao@.wf(),
            ({
                let us = updates_view(query.records@);
                if batch_valid(us) {
                    &&& r is Ok
                    &&& final(self).dao@ == apply_batch(old(self).dao@, us)
                    &&& final(self).events@ == old(self).events@ + batch_events(
                        old(self).dao@,
                        us,
                    )
                } else {
                    &&& r == Err::<(), Error>(Error::InvalidParameter)
                    &&& final(self).dao@ == old(self).dao@
                    &&& final(self).events@ == old(self).events@
                }
            }),
    {
        let ghost us = updates_view(query.records@);
        let n = query.records.len();
        let mut i: usize = 0;
        while i < n
            invariant
                0 <= i <= n,
                n == query.records@.len(),
                us == updates_view(query.records@),
                self.dao@ == old(self).dao@,
                self.events@ == old(self).events@,
                old(self).dao@.wf(),
                forall|k: int| 0 <= k < i ==> update_valid(#[trigger] us[k]),
            decreases n - i,
        {
            proof {
                assert(us[i as int] == query.records@[i as int]@);
            }
            if !check_update(&query.records[i]) {
                proof {
                    assert(!update_valid(us[i as int]));
                    assert(!batch_valid(us));
                }
                return Err(Error::InvalidParameter);
            }
            i = i + 1;
        }
        assert(batch_valid(us));
        let ghost d0 = self.dao@;
        let ghost e0 = self.events@;
        let mut i: usize = 0;
        proof {
            assert(us.subrange(0, 0) =~= Seq::<RecordUpdateV>::empty());
            assert(e0 + batch_events(d0, us.subrange(0, 0)) =~= e0);
        }
        while i < n
            invariant
                0 <= i <= n,
                n == query.records@.len(),
                us == updates_view(query.records@),
                batch_valid(us),
                d0 == old(self).dao@,
                e0 == old(self).events@,
                d0.next_id + n <= i64::MAX,
                d0.clock + n <= i64::MAX,
                self.dao@.wf(),
                self.dao@ == apply_batch(d0, us.subrange(0, i as int)),
                self.events@ == e0 + batch_events(d0, us.subrange(0, i as int)),
                self.dao@.next_id == d0.next_id + i,
                self.dao@.clock == d0.clock + i,
            decreases n - i,
        {
            let ghost dcur = self.dao@;
            let ghost ecur = self.events@;
            let u = &query.records[i];
            proof {
                assert(u@ == us[i as int]);
            }
            let mut locs: Vec<String> = Vec::new();
            locs.push(u.loc.clone());
            proof {
                assert(locs.deep_view() =~= seq![u.loc@]);
            }
            let mut found = match self.dao.get_latest_records(&locs, 0, 1) {
                Ok(v) => v,
                Err(e) => {
                    return Err(e);
                },
            };
            let ghost m = latest_matches(dcur.table, seq![u.loc@]);
            let ghost found_pre = found@;
            let old_record = found.pop();
            proof {
                lemma_latest_matches_props(dcur.table, seq![u.loc@]);
                assert(recs_view(found_pre).len() == found_pre.len());
                if m.len() > 0 {
                    assert(page_of(m, 0, 1).len() == 1);
                    assert(page_of(m, 0, 1)[0] == m[0]);
                    assert(found_pre[0]@ == m[0]);
                    assert(old_record matches Some(p) && p@ == m[0]);
                    assert(seq![u.loc@][0] == u.loc@);
                    assert(m[0].loc == u.loc@);
                } else {
                    assert(page_of(m, 0, 1).len() == 0);
                    assert(old_record is None);
                }
            }
            let created = match self.dao.create(
                u.loc.as_str(),
                u.loc_kind,
                u.total_cases,
                u.total_deaths,
                u.total_recovered,
                u.active_cases,
                u.critical_cases,
                u.cases_to_pop_ppm,
                &u.meta,
            ) {
                Ok(c) => c,
                Err(e) => {
                    return Err(e);
                },
            };
            proof {
                assert(new_record_input(
                    u.loc@,
                    u.loc_kind as int,
                    u.total_cases as int,
                    u.total_deaths as int,
                    u.total_recovered as int,
                    u.active_cases as int,
                    u.critical_cases as int,
                    u.cases_to_pop_ppm as int,
                    u.meta.deep_view(),
                ) == update_input(us[i as int]));
                assert(self.dao@ == apply_step(dcur, us[i as int]));
                assert(created@ == fresh_record(dcur, update_input(us[i as int])));
            }
            if let Some(old_rec) = old_record {
                let df = created.diff(&old_rec);
                if df.new_cases > 0 || df.new_deaths > 0 || df.new_recovered > 0 || df.new_critical
                    > 0 {
                    proof {
                        assert(notify_step(dcur, us[i as int]));
                    }
                    let ghost ev = EventV {
                        previous: prior_latest(dcur, us[i as int].loc),
                        current: fresh_record(dcur, update_input(us[i as int])),
                    };
                    self.events.emit(Event::NewRecordUpdate(Some(old_rec), created));
                    proof {
                        assert(step_events(dcur, us[i as int]) =~= seq![ev]);
                        assert(self.events@ =~= ecur + step_events(dcur, us[i as int]));
                    }
                } else {
                    proof {
                        assert(!notify_step(dcur, us[i as int]));
                        assert(self.events@ =~= ecur + step_events(dcur, us[i as int]));
                    }
                }
            } else {
                proof {
                    assert(prior_latest(dcur, us[i as int].loc) is None);
                    assert(!notify_step(dcur, us[i as int]));
                    assert(self.events@ =~= ecur + step_events(dcur, us[i as int]));
                }
            }
            proof {
                assert(us.subrange(0, i as int).push(us[i as int]) =~= us.subrange(0, i + 1));
                lemma_batch_snoc(d0, us.subrange(0, i as int), us[i as int]);
                assert(self.dao@ == apply_batch(d0, us.subrange(0, i + 1)));
                assert(self.events@ =~= e0 + batch_events(d0, us.subrange(0, i + 1)));
            }
            i = i + 1;
        }
        proof {
            assert(us.subrange(0, n as int) =~= us);
        }
        Ok(())
    }

    /// Delete the record with the requested identifier, leaving every
    /// other record (and the notification stream) untouched; `NotFound`
    /// exactly when no record carries it.
    pub fn delete_record(&mut self, query: &IdQuery) -> (r: Result<(), Error>)
        requires
            old(self).dao@.wf(),
        ensures
            final(self).dao@.wf(),
            final(self).events@ == old(self).events@,
            final(self).dao@.next_id == old(self).dao@.next_id,
            final(self).dao@.clock == old(self).dao@.clock,
            match r {
                Ok(u) => exists|i: int|
                    0 <= i < old(self).dao@.table.len() && (#[trigger] old(
                        self,
                    ).dao@.table[i]).id == query.id && final(self).dao@.table == old(
                        self,
                    ).dao@.table.remove(i),
                Err(e) => e == Error::NotFound && final(self).dao@ == old(self).dao@ && forall|
                    i: int,
                |
                    0 <= i < old(self).dao@.table.len() ==> (#[trigger] old(
                        self,
                    ).dao@.table[i]).id != query.id,
            },
    {
        let rec = match self.dao.get_by_id(query.id) {
            Ok(rec) => rec,
            Err(e) => {
                return Err(e);
            },
        };
        self.dao.delete_by_id(rec.id)
    }
}

} // verus!
