use strength::activities::Activity;
use strength::activity_events::ActivityEvent;
use strength::import::{DayGroup, DbImport, ParsedCsv};
use strength::store::Store;

const TEST_SHEET: &str = "Date\tExercise\tReps\tSets\n2020-04-01\tBicep Curl\t6\t25, 30, 35, 37.5 (cheat at 5)\n    2020-04-02\tMeow\t7\t30, 40, 45\u{1F44D}, 22 (woot)\n    2020-04-01\tMiliatary Press\t7\t30, 35, 37.5, 40, 45\u{1F44D}\n    ";

fn group_for<'a>(days: &'a [DayGroup], y: u32, m: u8, d: u8) -> &'a DayGroup {
    days.iter()
        .find(|g| g.date.year == y && g.date.month == m && g.date.day == d)
        .expect("no group for that date")
}

#[test]
fn test_record() {
    let import = ParsedCsv::from(TEST_SHEET);
    let days = import.days();
    assert_eq!(2, days.len());
    let apr_1 = group_for(&days, 2020, 4, 1);
    let apr_2 = group_for(&days, 2020, 4, 2);

    assert_eq!(2, apr_1.records.len());
    assert_eq!(1, apr_2.records.len());
}

#[test]
fn rows_are_trimmed_and_ordered() {
    let rows = ParsedCsv::from(TEST_SHEET).rows();
    assert_eq!(3, rows.len());
    assert_eq!("Bicep Curl", rows[0].exercise);
    assert_eq!("6", rows[0].reps);
    assert_eq!("25, 30, 35, 37.5 (cheat at 5)", rows[0].sets);
    assert_eq!("Meow", rows[1].exercise);
    assert_eq!("Miliatary Press", rows[2].exercise);
}

#[test]
fn header_order_does_not_matter() {
    let sheet = "Sets\tDate\tExercise\tReps\n10,12\t2021-01-02\tRow\t5\n";
    let rows = ParsedCsv::from(sheet).rows();
    assert_eq!(1, rows.len());
    assert_eq!("Row", rows[0].exercise);
    assert_eq!("10,12", rows[0].sets);
    assert_eq!(2021, rows[0].date.year);
}

#[test]
fn missing_header_yields_no_rows() {
    let sheet = "Date\tMovement\tReps\tSets\n2021-01-02\tRow\t5\t10,12\n";
    assert_eq!(0, ParsedCsv::from(sheet).rows().len());
}

#[test]
fn invalid_or_empty_dates_are_excluded_from_every_group() {
    let sheet = "Date\tExercise\tReps\tSets\n2020-04-01\tCurl\t6\t25\n\tPress\t7\t30\nnot-a-date\tSquat\t5\t60\n2020-02-30\tDip\t8\t0\n";
    let days = ParsedCsv::from(sheet).days();
    assert_eq!(1, days.len());
    assert_eq!(1, days[0].records.len());
    assert_eq!("Curl", days[0].records[0].exercise);
}

#[test]
fn empty_source_yields_nothing() {
    assert_eq!(0, ParsedCsv::from("").rows().len());
    assert_eq!(0, ParsedCsv::from("Date\tExercise\tReps\tSets\n").days().len());
}

#[test]
fn short_rows_are_skipped() {
    let sheet = "Date\tExercise\tReps\tSets\n2020-04-01\tCurl\n2020-04-02\tPress\t7\t30\n";
    let rows = ParsedCsv::from(sheet).rows();
    assert_eq!(1, rows.len());
    assert_eq!("Press", rows[0].exercise);
}

fn activity_named<'a>(activities: &'a [Activity], name: &str) -> &'a Activity {
    activities
        .iter()
        .find(|a| a.name == name)
        .expect("no activity with that name")
}

#[test]
fn end_to_end_import() {
    let source = "Date\tExercise\tReps\tSets\n2020-04-01\tBicep Curl\t6\t25,30\n2020-04-01\tPress\t7\t30,35\n";
    let mut store = Store::new();
    let user = store.reset();

    DbImport::from(source)
        .run(&user, &mut store.activities, &mut store.activity_events)
        .unwrap();

    let activities = store.activities.fetch_for(&user);
    assert_eq!(3, activities.len());
    let workout = activity_named(&activities, "Workout");
    assert_eq!(None, workout.parent_id);
    let curl = activity_named(&activities, "Bicep Curl");
    let press = activity_named(&activities, "Press");
    assert_eq!(Some(workout.id), curl.parent_id);
    assert_eq!(Some(workout.id), press.parent_id);

    let events = store.activity_events.fetch();
    assert_eq!(3, events.len());
    let anchor: &ActivityEvent = events
        .iter()
        .find(|e| e.parent_id.is_none())
        .expect("no anchor event");
    assert_eq!("Workout 2020-04-01", anchor.notes);
    assert_eq!(workout.id, anchor.activity_id);
    let curl_event = events
        .iter()
        .find(|e| e.activity_id == curl.id)
        .expect("no event for the first exercise");
    assert_eq!("25,30", curl_event.notes);
    assert_eq!(Some(anchor.id), curl_event.parent_id);
    let press_event = events
        .iter()
        .find(|e| e.activity_id == press.id)
        .expect("no event for the second exercise");
    assert_eq!("30,35", press_event.notes);
    assert_eq!(Some(anchor.id), press_event.parent_id);
}

#[test]
fn import_twice_duplicates_events_but_not_activities() {
    let source = "Date\tExercise\tReps\tSets\n2020-04-01\tBicep Curl\t6\t25,30\n2020-04-01\tPress\t7\t30,35\n2020-04-02\tRow\t5\t40\n";
    let mut store = Store::new();
    let user = store.reset();

    DbImport::from(source)
        .run(&user, &mut store.activities, &mut store.activity_events)
        .unwrap();
    let activities_once = store.activities.fetch_for(&user);
    let events_once = store.activity_events.fetch();

    DbImport::from(source)
        .run(&user, &mut store.activities, &mut store.activity_events)
        .unwrap();
    let activities_twice = store.activities.fetch_for(&user);
    let events_twice = store.activity_events.fetch();

    assert_eq!(activities_once.len(), activities_twice.len());
    assert_eq!(1, activities_twice.iter().filter(|a| a.name == "Workout").count());
    assert_eq!(1, activities_twice.iter().filter(|a| a.name == "Bicep Curl").count());
    assert_eq!(2 * events_once.len(), events_twice.len());
    let notes_once: Vec<&str> = events_once.iter().map(|e| e.notes.as_str()).collect();
    let notes_again: Vec<&str> =
        events_twice[events_once.len()..].iter().map(|e| e.notes.as_str()).collect();
    assert_eq!(notes_once, notes_again);
}

#[test]
fn import_for_second_user_is_separate() {
    let source = "Date\tExercise\tReps\tSets\n2020-04-01\tCurl\t6\t25\n";
    let mut store = Store::new();
    let first = store.reset();
    let second = store.users.create().unwrap();

    DbImport::from(source)
        .run(&first, &mut store.activities, &mut store.activity_events)
        .unwrap();
    DbImport::from(source)
        .run(&second, &mut store.activities, &mut store.activity_events)
        .unwrap();

    let first_rows = store.activities.fetch_for(&first);
    let second_rows = store.activities.fetch_for(&second);
    assert_eq!(2, first_rows.len());
    assert_eq!(2, second_rows.len());
    for a in &first_rows {
        assert_eq!(first.id, a.user_id);
    }
    for a in &second_rows {
        assert_eq!(second.id, a.user_id);
    }
}
