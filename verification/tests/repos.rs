use strength::activities::{ActivitiesRepo, NewActivity};
use strength::activity_events::ActivityEventsRepo;
use strength::store::{Store, StoreError};
use strength::users::UsersRepo;

#[test]
fn test_find_or_create() {
    let mut users = UsersRepo::new();
    let user = users.create().unwrap();
    let mut repo = ActivitiesRepo::new();

    repo.find_or_create("boom", None, &user).unwrap();
    repo.find_or_create("boom ", None, &user).unwrap();
    repo.find_or_create(" boom", None, &user).unwrap();
    repo.find_or_create("bOOm", None, &user).unwrap();

    let activities = repo.fetch_for(&user);
    assert_eq!(1, activities.len());
}

#[test]
fn test_activities() {
    let mut store = Store::new();
    let user = store.reset();

    store.activities.find_or_create("boom", None, &user).unwrap();
    store.activities.find_or_create("boom ", None, &user).unwrap();
    store.activities.find_or_create(" boom", None, &user).unwrap();
    store.activities.find_or_create("bOOm", None, &user).unwrap();

    let activities = store.activities.fetch_for(&user);
    assert_eq!(1, activities.len());
}

#[test]
fn find_or_create_returns_the_same_row() {
    let mut users = UsersRepo::new();
    let user = users.create().unwrap();
    let mut repo = ActivitiesRepo::new();

    let first = repo.find_or_create("Bench Press", None, &user).unwrap();
    let again = repo.find_or_create("  bench press ", None, &user).unwrap();
    assert_eq!(first.id, again.id);
    assert_eq!("Bench Press", again.name);
}

#[test]
fn distinct_parents_do_not_collide() {
    let mut users = UsersRepo::new();
    let user = users.create().unwrap();
    let mut repo = ActivitiesRepo::new();

    let parent_a = repo.find_or_create("Monday", None, &user).unwrap();
    let parent_b = repo.find_or_create("Tuesday", None, &user).unwrap();
    let squat_a = repo.find_or_create("Squat", Some(&parent_a), &user).unwrap();
    let squat_b = repo.find_or_create("Squat", Some(&parent_b), &user).unwrap();

    assert_ne!(squat_a.id, squat_b.id);
    assert_eq!(Some(parent_a.id), squat_a.parent_id);
    assert_eq!(Some(parent_b.id), squat_b.parent_id);
    assert_eq!(4, repo.fetch_for(&user).len());
}

#[test]
fn same_name_for_two_users_makes_two_rows() {
    let mut users = UsersRepo::new();
    let first = users.create().unwrap();
    let second = users.create().unwrap();
    let mut repo = ActivitiesRepo::new();

    let a = repo.find_or_create("Squat", None, &first).unwrap();
    let b = repo.find_or_create("Squat", None, &second).unwrap();
    assert_ne!(a.id, b.id);

    let first_rows = repo.fetch_for(&first);
    assert_eq!(1, first_rows.len());
    assert_eq!(first.id, first_rows[0].user_id);
    let second_rows = repo.fetch_for(&second);
    assert_eq!(1, second_rows.len());
    assert_eq!(second.id, second_rows[0].user_id);
}

#[test]
fn create_trims_nothing_and_rejects_duplicates() {
    let mut repo = ActivitiesRepo::new();
    let a = repo.create(NewActivity::with(1, "Deadlift"), None).unwrap();
    assert_eq!(1, a.id);
    assert_eq!(1, a.user_id);
    assert_eq!("Deadlift", a.name);
    assert_eq!(None, a.parent_id);

    let dup = repo.create(NewActivity::with(1, " deadlift "), None);
    assert_eq!(Err(StoreError::Conflict), dup.map(|x| x.id));
}

#[test]
fn create_rejects_unknown_parent() {
    let mut repo = ActivitiesRepo::new();
    let a = repo.create(NewActivity::with(1, "Deadlift"), None).unwrap();
    let mut phantom = a;
    phantom.id = 99;
    let r = repo.create(NewActivity::with(1, "Romanian"), Some(&phantom));
    assert_eq!(Err(StoreError::Conflict), r.map(|x| x.id));
}

#[test]
fn new_activity_with_keeps_its_fields() {
    let n = NewActivity::with(7, "  Press ");
    assert_eq!(7, n.user_id);
    assert_eq!("  Press ", n.name);
}

#[test]
fn users_create_and_find() {
    let mut users = UsersRepo::new();
    let first = users.create().unwrap();
    let second = users.create().unwrap();
    assert_eq!(1, first.id);
    assert_eq!(2, second.id);

    assert_eq!(1, users.find(1).unwrap().id);
    assert_eq!(2, users.find(2).unwrap().id);
    assert_eq!(Err(StoreError::NotFound), users.find(3).map(|u| u.id));
    assert_eq!(Err(StoreError::NotFound), users.find(0).map(|u| u.id));
    assert_eq!(Err(StoreError::NotFound), users.find(-1).map(|u| u.id));
}

#[test]
fn events_append_and_never_merge() {
    let mut users = UsersRepo::new();
    let user = users.create().unwrap();
    let mut activities = ActivitiesRepo::new();
    let activity = activities.find_or_create("Curl", None, &user).unwrap();
    let mut events = ActivityEventsRepo::new();

    let first = events.create(&activity, "10,10", None).unwrap();
    let second = events.create(&activity, "10,10", None).unwrap();
    assert_ne!(first.id, second.id);
    assert_eq!("10,10", first.notes);

    let nested = events.create(&activity, "8,8", Some(&first)).unwrap();
    assert_eq!(Some(first.id), nested.parent_id);

    let all = events.fetch();
    assert_eq!(3, all.len());
    assert_eq!(activity.id, all[0].activity_id);
}

#[test]
fn events_reject_unknown_parent() {
    let mut users = UsersRepo::new();
    let user = users.create().unwrap();
    let mut activities = ActivitiesRepo::new();
    let activity = activities.find_or_create("Curl", None, &user).unwrap();
    let mut events = ActivityEventsRepo::new();

    let real = events.create(&activity, "10", None).unwrap();
    let mut phantom = real;
    phantom.id = 42;
    let r = events.create(&activity, "12", Some(&phantom));
    assert_eq!(Err(StoreError::Conflict), r.map(|e| e.id));
}

#[test]
fn reset_truncates_and_leaves_one_user() {
    let mut store = Store::new();
    let user = store.reset();
    store.activities.find_or_create("Curl", None, &user).unwrap();
    let activity = store.activities.find_or_create("Press", None, &user).unwrap();
    store.activity_events.create(&activity, "10", None).unwrap();

    let fresh = store.reset();
    assert_eq!(1, fresh.id);
    assert_eq!(1, store.users.rows.len());
    assert_eq!(0, store.activities.fetch_for(&fresh).len());
    assert_eq!(0, store.activity_events.fetch().len());
}
