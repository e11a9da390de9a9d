use pandemia::api::{
    AddRecord, IdQuery, LocationQuery, PublicApi, QueryEntries, RecordUpdate, UpdateRecords,
};
use pandemia::error::Error;
use pandemia::eventstream::Event;
use pandemia::models::Record;

fn add(api: &mut PublicApi, loc: &str, total_cases: i32) -> Record {
    let query = AddRecord {
        loc: loc.to_string(),
        loc_kind: 1,
        total_cases,
        total_deaths: 0,
        total_recovered: 0,
        active_cases: 0,
        critical_cases: 0,
    };
    api.add_record(&query).unwrap()
}

fn update_for(loc: &str, total_cases: i32, total_deaths: i32, total_recovered: i32, critical_cases: i32) -> RecordUpdate {
    RecordUpdate {
        id: 1,
        loc: loc.to_string(),
        loc_kind: 1,
        total_cases,
        total_deaths,
        total_recovered,
        active_cases: 0,
        critical_cases,
        cases_to_pop_ppm: 0,
        meta: vec![],
        last_updated: 0,
    }
}

fn search(api: &PublicApi, q: &str, offset: i64, limit: i64) -> (i64, Vec<Record>) {
    let res = api
        .search_records(&QueryEntries { query: Some(q.to_string()), offset, limit })
        .unwrap();
    (res.count, res.entries)
}

#[test]
fn scenario_two_jakarta_creates_keep_one_latest() {
    let mut api = PublicApi::new();
    add(&mut api, "Jakarta", 10);
    add(&mut api, "Jakarta", 15);

    let latest = api
        .get_info_location(&LocationQuery { loc: "Jakarta".to_string(), with_history: None })
        .unwrap()
        .expect("a latest record must exist");
    assert_eq!(latest.total_cases, 15);
    assert!(latest.latest);

    let history = api.dao.get_record_history("Jakarta", 0, 10).unwrap();
    assert_eq!(history.len(), 2);
    assert_eq!(history[0].total_cases, 15);
    assert_eq!(history[1].total_cases, 10);
    assert!(history[0].last_updated > history[1].last_updated);
}

#[test]
fn scenario_search_substring_finds_latest_jakarta() {
    let mut api = PublicApi::new();
    add(&mut api, "Jakarta", 10);
    add(&mut api, "Jakarta", 15);

    let (count, entries) = search(&api, "Jak", 0, 10);
    assert_eq!(count, 1);
    assert_eq!(entries.len(), 1);
    assert_eq!(entries[0].total_cases, 15);
}

#[test]
fn search_is_case_sensitive() {
    let mut api = PublicApi::new();
    add(&mut api, "Jakarta", 15);

    let (count, entries) = search(&api, "jak", 0, 10);
    assert_eq!(count, 0);
    assert!(entries.is_empty());
}

#[test]
fn scenario_decreasing_batch_commits_without_notification() {
    let mut api = PublicApi::new();
    add(&mut api, "Bandung", 100);
    let events_before = api.events.events.len();

    let batch = UpdateRecords { records: vec![update_for("Bandung", 90, 0, 0, 0)] };
    api.update_records(batch).unwrap();

    assert_eq!(api.events.events.len(), events_before);
    let latest = api
        .get_info_location(&LocationQuery { loc: "Bandung".to_string(), with_history: None })
        .unwrap()
        .unwrap();
    assert_eq!(latest.total_cases, 90);
}

#[test]
fn scenario_two_surabaya_creates_never_leave_two_latest() {
    let mut api = PublicApi::new();
    add(&mut api, "Surabaya", 3);
    add(&mut api, "Surabaya", 4);

    let (count, entries) = search(&api, "Surabaya", 0, 10);
    assert_eq!(count, 1);
    assert_eq!(entries.len(), 1);

    let history = api.dao.get_record_history("Surabaya", 0, 10).unwrap();
    assert_eq!(history.len(), 2);
    let latest_flags = history.iter().filter(|r| r.latest).count();
    assert_eq!(latest_flags, 1);
    assert!(history[0].latest);
}

#[test]
fn diff_reports_signed_deltas_per_counter() {
    let mut api = PublicApi::new();
    let batch = UpdateRecords { records: vec![update_for("Medan", 100, 5, 4, 2)] };
    api.update_records(batch).unwrap();
    let old = api
        .get_info_location(&LocationQuery { loc: "Medan".to_string(), with_history: None })
        .unwrap()
        .unwrap();
    let batch = UpdateRecords { records: vec![update_for("Medan", 105, 7, 3, 2)] };
    api.update_records(batch).unwrap();
    let new = api
        .get_info_location(&LocationQuery { loc: "Medan".to_string(), with_history: None })
        .unwrap()
        .unwrap();

    let d = new.diff(&old);
    assert_eq!(d.new_cases, 5);
    assert_eq!(d.new_deaths, 2);
    assert_eq!(d.new_recovered, -1);
    assert_eq!(d.new_critical, 0);
}

#[test]
fn notification_fires_on_increase_with_correct_delta() {
    let mut api = PublicApi::new();
    let batch = UpdateRecords { records: vec![update_for("Bogor", 100, 0, 0, 0)] };
    api.update_records(batch).unwrap();
    let events_before = api.events.events.len();

    let batch = UpdateRecords { records: vec![update_for("Bogor", 105, 0, 0, 0)] };
    api.update_records(batch).unwrap();

    assert_eq!(api.events.events.len(), events_before + 1);
    let Event::NewRecordUpdate(prev, cur) = &api.events.events[events_before];
    let prev = prev.as_ref().expect("the event must carry the previous record");
    assert_eq!(prev.total_cases, 100);
    assert_eq!(cur.total_cases, 105);
    assert_eq!(cur.diff(prev).new_cases, 5);
}

#[test]
fn notification_skipped_when_no_counter_increases() {
    let mut api = PublicApi::new();
    let batch = UpdateRecords { records: vec![update_for("Depok", 100, 0, 0, 0)] };
    api.update_records(batch).unwrap();
    let events_before = api.events.events.len();

    let batch = UpdateRecords { records: vec![update_for("Depok", 100, 0, 0, 0)] };
    api.update_records(batch).unwrap();

    assert_eq!(api.events.events.len(), events_before);
}

#[test]
fn first_record_of_location_updates_without_notification() {
    let mut api = PublicApi::new();
    let batch = UpdateRecords { records: vec![update_for("Semarang", 50, 0, 0, 0)] };
    api.update_records(batch).unwrap();
    assert!(api.events.events.is_empty());
}

#[test]
fn invalid_update_rejects_whole_batch() {
    let mut api = PublicApi::new();
    add(&mut api, "Malang", 10);
    let events_before = api.events.events.len();

    // the second update's location is one character, below the minimum
    let batch = UpdateRecords {
        records: vec![update_for("Malang", 20, 0, 0, 0), update_for("X", 1, 0, 0, 0)],
    };
    let res = api.update_records(batch);
    assert_eq!(res, Err(Error::InvalidParameter));

    let latest = api
        .get_info_location(&LocationQuery { loc: "Malang".to_string(), with_history: None })
        .unwrap()
        .unwrap();
    assert_eq!(latest.total_cases, 10);
    assert_eq!(api.events.events.len(), events_before);
}

#[test]
fn invalid_update_id_rejects_batch() {
    let mut api = PublicApi::new();
    let mut bad = update_for("Makassar", 5, 0, 0, 0);
    bad.id = 0;
    let res = api.update_records(UpdateRecords { records: vec![bad] });
    assert_eq!(res, Err(Error::InvalidParameter));
}

#[test]
fn delete_missing_record_reports_not_found() {
    let mut api = PublicApi::new();
    let res = api.delete_record(&IdQuery { id: 1 });
    assert_eq!(res, Err(Error::NotFound));
}

#[test]
fn delete_removes_exactly_that_record() {
    let mut api = PublicApi::new();
    let rec = add(&mut api, "Palembang", 9);
    add(&mut api, "Pontianak", 4);

    api.delete_record(&IdQuery { id: rec.id }).unwrap();

    let gone = api
        .get_info_location(&LocationQuery { loc: "Palembang".to_string(), with_history: None })
        .unwrap();
    assert!(gone.is_none());
    let kept = api
        .get_info_location(&LocationQuery { loc: "Pontianak".to_string(), with_history: None })
        .unwrap();
    assert_eq!(kept.unwrap().total_cases, 4);

    let res = api.delete_record(&IdQuery { id: rec.id });
    assert_eq!(res, Err(Error::NotFound));
}

#[test]
fn deleting_the_latest_does_not_promote_history() {
    let mut api = PublicApi::new();
    add(&mut api, "Batam", 1);
    let newer = add(&mut api, "Batam", 2);

    api.delete_record(&IdQuery { id: newer.id }).unwrap();

    // the older version stays, but nothing is promoted to latest
    let history = api.dao.get_record_history("Batam", 0, 10).unwrap();
    assert_eq!(history.len(), 1);
    assert!(!history[0].latest);
    let latest = api
        .get_info_location(&LocationQuery { loc: "Batam".to_string(), with_history: None })
        .unwrap();
    assert!(latest.is_none());
}

#[test]
fn search_count_is_independent_of_pagination() {
    let mut api = PublicApi::new();
    add(&mut api, "Bali", 1);
    add(&mut api, "Bandung", 2);
    add(&mut api, "Aceh", 3);

    let (count_small, entries_small) = search(&api, "Ba", 0, 1);
    let (count_large, entries_large) = search(&api, "Ba", 0, 10);
    assert_eq!(count_small, 2);
    assert_eq!(count_large, 2);
    assert_eq!(entries_small.len(), 1);
    assert_eq!(entries_large.len(), 2);

    // newest first: Bandung was created after Bali
    assert_eq!(entries_large[0].loc, "Bandung");
    assert_eq!(entries_large[1].loc, "Bali");

    let (count_offset, entries_offset) = search(&api, "Ba", 1, 10);
    assert_eq!(count_offset, 2);
    assert_eq!(entries_offset.len(), 1);
    assert_eq!(entries_offset[0].loc, "Bali");
}

#[test]
fn empty_query_matches_every_latest_record() {
    let mut api = PublicApi::new();
    add(&mut api, "Bali", 1);
    add(&mut api, "Bali", 2);
    add(&mut api, "Aceh", 3);

    let res = api
        .search_records(&QueryEntries { query: None, offset: 0, limit: 10 })
        .unwrap();
    assert_eq!(res.count, 2);
    assert_eq!(res.entries.len(), 2);
}

#[test]
fn search_offset_beyond_matches_gives_empty_page() {
    let mut api = PublicApi::new();
    add(&mut api, "Bali", 1);

    let (count, entries) = search(&api, "Bali", 100, 10);
    assert_eq!(count, 1);
    assert!(entries.is_empty());
}

#[test]
fn info_locations_splits_on_commas_and_attaches_history() {
    let mut api = PublicApi::new();
    add(&mut api, "Aceh", 1);
    add(&mut api, "Aceh", 2);
    add(&mut api, "Bali", 3);

    let infos = api
        .get_info_locations(
            &LocationQuery { loc: "Aceh,Bali".to_string(), with_history: Some(true) },
        )
        .unwrap();
    assert_eq!(infos.len(), 2);
    // newest first: Bali's latest record was created last
    assert_eq!(infos[0].name, "Bali");
    assert_eq!(infos[0].latest_record.total_cases, 3);
    assert_eq!(infos[0].history.len(), 1);
    assert_eq!(infos[1].name, "Aceh");
    assert_eq!(infos[1].latest_record.total_cases, 2);
    assert_eq!(infos[1].history.len(), 2);
    assert_eq!(infos[1].history[0].total_cases, 2);
    assert_eq!(infos[1].history[1].total_cases, 1);
}

#[test]
fn info_locations_without_history_leaves_it_empty() {
    let mut api = PublicApi::new();
    add(&mut api, "Aceh", 1);

    let infos = api
        .get_info_locations(&LocationQuery { loc: "Aceh".to_string(), with_history: None })
        .unwrap();
    assert_eq!(infos.len(), 1);
    assert!(infos[0].history.is_empty());
}

#[test]
fn add_record_announces_with_no_previous_version() {
    let mut api = PublicApi::new();
    let rec = add(&mut api, "Kupang", 8);

    assert_eq!(api.events.events.len(), 1);
    let Event::NewRecordUpdate(prev, cur) = &api.events.events[0];
    assert!(prev.is_none());
    assert_eq!(cur.id, rec.id);
    assert_eq!(cur.total_cases, 8);
}

#[test]
fn identifiers_are_assigned_sequentially() {
    let mut api = PublicApi::new();
    let first = add(&mut api, "Aceh", 1);
    let second = add(&mut api, "Bali", 2);
    assert_eq!(first.id, 1);
    assert_eq!(second.id, 2);

    let fetched = api.dao.get_by_id(2).unwrap();
    assert_eq!(fetched.loc, "Bali");
    assert!(matches!(api.dao.get_by_id(99), Err(Error::NotFound)));
}

#[test]
fn batch_applies_updates_in_order_atomically() {
    let mut api = PublicApi::new();
    let batch = UpdateRecords {
        records: vec![
            update_for("Aceh", 1, 0, 0, 0),
            update_for("Aceh", 2, 0, 0, 0),
            update_for("Bali", 7, 0, 0, 0),
        ],
    };
    api.update_records(batch).unwrap();

    let history = api.dao.get_record_history("Aceh", 0, 10).unwrap();
    assert_eq!(history.len(), 2);
    assert_eq!(history[0].total_cases, 2);
    assert!(history[0].latest);
    assert!(!history[1].latest);
    // one notification: Aceh 1 -> 2; the first Aceh and Bali updates had no predecessor
    assert_eq!(api.events.events.len(), 1);
}

#[test]
fn case_insensitive_option_folds_ascii_case() {
    let mut api = PublicApi::new();
    assert!(!api.dao.case_insensitive);
    add(&mut api, "Jakarta", 10);
    add(&mut api, "Jakarta", 15);

    api.dao.case_insensitive = true;
    let (count, entries) = search(&api, "jak", 0, 10);
    assert_eq!(count, 1);
    assert_eq!(entries.len(), 1);
    assert_eq!(entries[0].total_cases, 15);

    let (count_upper, _) = search(&api, "JAKARTA", 0, 10);
    assert_eq!(count_upper, 1);
    let (count_miss, _) = search(&api, "bandung", 0, 10);
    assert_eq!(count_miss, 0);
}
