use habit_tracker::{Date, Db, Error, Habit, HabitOptional, User};

fn day(y: i32, m: u32, d: u32) -> Date {
    Date::from_ymd(y, m, d).unwrap()
}

fn no_change() -> HabitOptional {
    HabitOptional { name: None, description: None, goal: None, daily: None }
}

fn account(db: &mut Db, id: u128, name: &str) -> User {
    db.add_user(id, name, String::from("$argon2id$v=19$m=8,t=1,p=1$c2FsdHNhbHQ$aGFzaA"))
        .unwrap();
    db.get_user_by_name(name).unwrap()
}

fn fetch(db: &Db, user: &User, id: u128) -> Habit {
    db.get_habit(user, id).unwrap()
}

#[test]
fn date_from_ymd_counts_days_from_common_era() {
    assert_eq!(day(2024, 1, 1).days, 738886);
    assert_eq!(day(1, 1, 1).days, 1);
    assert_eq!(day(2024, 1, 2).days - day(2024, 1, 1).days, 1);
    assert_eq!(day(2024, 3, 1).days, 738946);
    assert_eq!(day(2024, 2, 29).days + 1, day(2024, 3, 1).days);
    assert!(Date::from_ymd(2023, 2, 29).is_none());
    assert!(Date::from_ymd(2024, 4, 31).is_none());
    assert!(Date::from_ymd(2024, 1, 0).is_none());
    assert!(Date::from_ymd(300000, 1, 1).is_none());
    assert!(Date::from_ymd(2024, 13, 1).is_none());
}

#[test]
fn new_habit_has_defaults() {
    let mut db = Db::new();
    let u1 = account(&mut db, 1, "alice");
    let h1 = db.new_habit(&u1, String::from("Drink water")).unwrap();
    let h = fetch(&db, &u1, h1);
    assert_eq!(h.id, h1);
    assert_eq!(h.name, "Drink water");
    assert_eq!(h.description, "");
    assert_eq!(h.goal, "");
    assert_eq!(h.daily, 1);
    assert!(h.dates.is_empty());
}

#[test]
fn new_habit_ids_are_distinct() {
    let mut db = Db::new();
    let u1 = account(&mut db, 1, "alice");
    let a = db.new_habit(&u1, String::from("a")).unwrap();
    let b = db.new_habit(&u1, String::from("b")).unwrap();
    assert_ne!(a, b);
}

#[test]
fn insert_habit_refuses_taken_id_and_unknown_owner() {
    let mut db = Db::new();
    let u1 = account(&mut db, 1, "alice");
    assert_eq!(db.insert_habit(&u1, 10, String::from("a")), Ok(10));
    assert_eq!(db.insert_habit(&u1, 10, String::from("b")), Err(Error::Internal));
    let ghost = User { id: 99, username: String::from("ghost"), hashed_password: String::new() };
    assert_eq!(db.insert_habit(&ghost, 11, String::from("c")), Err(Error::Internal));
    assert_eq!(fetch(&db, &u1, 10).name, "a");
}

#[test]
fn completing_twice_keeps_last_amount() {
    let mut db = Db::new();
    let u1 = account(&mut db, 1, "alice");
    let h1 = db.new_habit(&u1, String::from("Drink water")).unwrap();
    let d = day(2024, 1, 1);
    assert_eq!(db.complete_habit(&u1, h1, d, 3), Ok(()));
    assert_eq!(db.complete_habit(&u1, h1, d, 5), Ok(()));
    assert_eq!(fetch(&db, &u1, h1).dates, vec![(d, 5)]);
    assert_eq!(db.ledger_len(h1), 1);
}

#[test]
fn ledger_is_newest_first() {
    let mut db = Db::new();
    let u1 = account(&mut db, 1, "alice");
    let h1 = db.new_habit(&u1, String::from("Run")).unwrap();
    let h2 = db.new_habit(&u1, String::from("Read")).unwrap();
    db.complete_habit(&u1, h1, day(2024, 1, 2), 1).unwrap();
    db.complete_habit(&u1, h2, day(2024, 1, 2), 7).unwrap();
    db.complete_habit(&u1, h1, day(2024, 1, 5), 2).unwrap();
    db.complete_habit(&u1, h1, day(2023, 12, 31), 3).unwrap();
    assert_eq!(
        fetch(&db, &u1, h1).dates,
        vec![(day(2024, 1, 5), 2), (day(2024, 1, 2), 1), (day(2023, 12, 31), 3)]
    );
    assert_eq!(fetch(&db, &u1, h2).dates, vec![(day(2024, 1, 2), 7)]);
}

#[test]
fn uncomplete_removes_one_date_and_is_idempotent() {
    let mut db = Db::new();
    let u1 = account(&mut db, 1, "alice");
    let h1 = db.new_habit(&u1, String::from("Run")).unwrap();
    db.complete_habit(&u1, h1, day(2024, 1, 1), 1).unwrap();
    db.complete_habit(&u1, h1, day(2024, 1, 2), 2).unwrap();
    assert_eq!(db.uncomplete_habit(&u1, h1, day(2024, 1, 1)), Ok(()));
    assert_eq!(db.uncomplete_habit(&u1, h1, day(2024, 1, 1)), Ok(()));
    assert_eq!(fetch(&db, &u1, h1).dates, vec![(day(2024, 1, 2), 2)]);
}

#[test]
fn other_user_gets_not_found() {
    let mut db = Db::new();
    let u1 = account(&mut db, 1, "alice");
    let u2 = account(&mut db, 2, "bob");
    let h1 = db.new_habit(&u1, String::from("Drink water")).unwrap();
    let d = day(2024, 1, 1);
    db.complete_habit(&u1, h1, d, 3).unwrap();
    assert_eq!(db.get_habit(&u2, h1).unwrap_err(), Error::NotFound);
    let upd = HabitOptional { name: Some(String::from("X")), ..no_change() };
    assert_eq!(db.update_habit(&u2, h1, upd), Err(Error::NotFound));
    assert_eq!(db.complete_habit(&u2, h1, d, 9), Err(Error::NotFound));
    assert_eq!(db.uncomplete_habit(&u2, h1, d), Err(Error::NotFound));
    assert_eq!(db.delete_habit(&u2, h1), Err(Error::NotFound));
    assert_eq!(db.check_habit_owned_by(h1, &u2), Err(Error::NotFound));
    assert_eq!(db.check_habit_owned_by(12345, &u1), Err(Error::NotFound));
    let h = fetch(&db, &u1, h1);
    assert_eq!(h.name, "Drink water");
    assert_eq!(h.dates, vec![(d, 3)]);
}

#[test]
fn update_goal_keeps_name() {
    let mut db = Db::new();
    let u1 = account(&mut db, 1, "alice");
    let h1 = db.new_habit(&u1, String::from("Drink water")).unwrap();
    let upd = HabitOptional { goal: Some(String::from("2L")), ..no_change() };
    assert_eq!(db.update_habit(&u1, h1, upd), Ok(()));
    let h = fetch(&db, &u1, h1);
    assert_eq!(h.goal, "2L");
    assert_eq!(h.name, "Drink water");
}

#[test]
fn update_name_changes_only_name() {
    let mut db = Db::new();
    let u1 = account(&mut db, 1, "alice");
    let h1 = db.new_habit(&u1, String::from("Drink water")).unwrap();
    let h2 = db.new_habit(&u1, String::from("Run")).unwrap();
    let full = HabitOptional {
        name: None,
        description: Some(String::from("stay hydrated")),
        goal: Some(String::from("2L")),
        daily: Some(4),
    };
    db.update_habit(&u1, h1, full).unwrap();
    let upd = HabitOptional { name: Some(String::from("X")), ..no_change() };
    db.update_habit(&u1, h1, upd).unwrap();
    let h = fetch(&db, &u1, h1);
    assert_eq!(h.name, "X");
    assert_eq!(h.description, "stay hydrated");
    assert_eq!(h.goal, "2L");
    assert_eq!(h.daily, 4);
    assert_eq!(fetch(&db, &u1, h2).name, "Run");
    assert_eq!(db.update_habit(&u1, h1, no_change()), Ok(()));
    assert_eq!(fetch(&db, &u1, h1).name, "X");
}

#[test]
fn delete_removes_habit_and_ledger() {
    let mut db = Db::new();
    let u1 = account(&mut db, 1, "alice");
    let h1 = db.new_habit(&u1, String::from("Drink water")).unwrap();
    let h2 = db.new_habit(&u1, String::from("Run")).unwrap();
    db.complete_habit(&u1, h1, day(2024, 1, 1), 5).unwrap();
    db.complete_habit(&u1, h1, day(2024, 1, 3), 2).unwrap();
    db.complete_habit(&u1, h2, day(2024, 1, 1), 1).unwrap();
    assert_eq!(db.delete_habit(&u1, h1), Ok(()));
    assert_eq!(db.get_habit(&u1, h1).unwrap_err(), Error::NotFound);
    assert_eq!(db.ledger_len(h1), 0);
    assert_eq!(db.delete_habit(&u1, h1), Err(Error::NotFound));
    assert_eq!(fetch(&db, &u1, h2).dates, vec![(day(2024, 1, 1), 1)]);
}

#[test]
fn habits_lists_only_own_with_newest_window() {
    let mut db = Db::new();
    let u1 = account(&mut db, 1, "alice");
    let u2 = account(&mut db, 2, "bob");
    let h1 = db.new_habit(&u1, String::from("Run")).unwrap();
    let h2 = db.new_habit(&u2, String::from("Read")).unwrap();
    let h3 = db.new_habit(&u1, String::from("Sleep")).unwrap();
    let first = day(2024, 1, 1).days;
    for i in 0..70 {
        db.complete_habit(&u1, h1, Date { days: first + i }, (i % 200) as u8).unwrap();
    }
    let list = db.habits(&u1);
    assert_eq!(list.len(), 2);
    assert_eq!(list[0].id, h1);
    assert_eq!(list[1].id, h3);
    assert_eq!(list[0].dates.len(), 64);
    assert_eq!(list[0].dates[0], (Date { days: first + 69 }, 69));
    assert_eq!(list[0].dates[63], (Date { days: first + 6 }, 6));
    assert!(list[1].dates.is_empty());
    let other = db.habits(&u2);
    assert_eq!(other.len(), 1);
    assert_eq!(other[0].id, h2);
    assert_eq!(fetch(&db, &u1, h1).dates.len(), 70);
}

#[test]
fn add_user_refuses_taken_name_then_taken_id() {
    let mut db = Db::new();
    account(&mut db, 1, "alice");
    assert_eq!(db.add_user(2, "alice", String::from("h")), Err(Error::Conflict));
    assert_eq!(db.add_user(1, "alice", String::from("h")), Err(Error::Conflict));
    assert_eq!(db.add_user(1, "bob", String::from("h")), Err(Error::Internal));
    assert_eq!(db.add_user(2, "bob", String::from("h")), Ok(()));
    assert_eq!(db.get_user_by_name("Alice").unwrap_err(), Error::NotFound);
}

#[test]
fn users_resolve_by_id_then_name() {
    let mut db = Db::new();
    let id = ulid::Ulid::new();
    db.add_user(id.0, "alice", String::from("h")).unwrap();
    let by_id = db.get_user(&id.to_string()).unwrap();
    assert_eq!(by_id.username, "alice");
    assert_eq!(db.get_user("alice").unwrap().id, id.0);
    assert_eq!(db.get_user("bob").unwrap_err(), Error::NotFound);
    assert_eq!(db.get_user_by_id(id.0).unwrap().username, "alice");
    assert_eq!(db.get_user_by_id(7).unwrap_err(), Error::NotFound);
    assert_eq!(db.resolve_user(Some(id.0), "zed").unwrap().username, "alice");
    assert_eq!(db.resolve_user(Some(5), "alice").unwrap().id, id.0);
    assert_eq!(db.resolve_user(None, "zed").unwrap_err(), Error::NotFound);
    let lower = id.to_string().to_lowercase();
    assert_eq!(db.get_user(&lower).unwrap().id, id.0);
}

#[test]
fn identifier_lookup_needs_26_base32_digits() {
    let mut db = Db::new();
    db.add_user(1, "0000000000000000000000000U", String::from("h")).unwrap();
    db.add_user(2, "000000000000000000000000001", String::from("h")).unwrap();
    db.add_user(33, "name", String::from("h")).unwrap();
    assert_eq!(db.get_user("00000000000000000000000011").unwrap().id, 33);
    assert_eq!(db.get_user("0000000000000000000000000U").unwrap().id, 1);
    assert_eq!(db.get_user("000000000000000000000000001").unwrap().id, 2);
    assert_eq!(db.get_user("00000000000000000000000001").unwrap().id, 1);
    assert_eq!(db.get_user("0000000000000000000000000Z").unwrap_err(), Error::NotFound);
}
