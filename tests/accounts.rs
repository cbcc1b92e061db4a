use habit_tracker::{Db, Error, User};

#[test]
fn signup_stores_salted_hash() {
    let mut db = Db::new();
    let u1 = User::signup(&mut db, String::from("alice"), String::from("pw1")).unwrap();
    assert_eq!(u1.username, "alice");
    assert!(u1.hashed_password.starts_with("$argon2"));
    assert!(!u1.hashed_password.contains("pw1"));
    let stored = db.get_user_by_name("alice").unwrap();
    assert_eq!(stored.id, u1.id);
    assert_eq!(stored.hashed_password, u1.hashed_password);
}

#[test]
fn second_signup_conflicts_and_first_stays_valid() {
    let mut db = Db::new();
    let u1 = User::signup(&mut db, String::from("alice"), String::from("pw1")).unwrap();
    let again = User::signup(&mut db, String::from("alice"), String::from("other"));
    assert_eq!(again.unwrap_err(), Error::Conflict);
    let back = User::authenticate(&db, "alice", "pw1").unwrap();
    assert_eq!(back.id, u1.id);
}

#[test]
fn authenticate_accepts_right_password() {
    let mut db = Db::new();
    let u1 = User::signup(&mut db, String::from("alice"), String::from("pw1")).unwrap();
    let u2 = User::signup(&mut db, String::from("bob"), String::from("pw2")).unwrap();
    assert_ne!(u1.id, u2.id);
    assert_eq!(User::authenticate(&db, "bob", "pw2").unwrap().id, u2.id);
}

#[test]
fn wrong_password_and_unknown_user_are_unauthorized() {
    let mut db = Db::new();
    User::signup(&mut db, String::from("alice"), String::from("pw1")).unwrap();
    let wrong = User::authenticate(&db, "alice", "wrong").unwrap_err();
    let ghost = User::authenticate(&db, "ghost", "x").unwrap_err();
    assert_eq!(wrong, Error::Unauthorized);
    assert_eq!(ghost, Error::Unauthorized);
    assert_eq!(wrong, ghost);
}

#[test]
fn end_to_end_habit_life() {
    let mut db = Db::new();
    let u1 = User::signup(&mut db, String::from("alice"), String::from("pw1")).unwrap();
    let h1 = db.new_habit(&u1, String::from("Drink water")).unwrap();
    let d = habit_tracker::Date::from_ymd(2024, 1, 1).unwrap();
    db.complete_habit(&u1, h1, d, 3).unwrap();
    db.complete_habit(&u1, h1, d, 5).unwrap();
    assert_eq!(db.get_habit(&u1, h1).unwrap().dates, vec![(d, 5)]);
    let u2 = User::signup(&mut db, String::from("bob"), String::from("pw2")).unwrap();
    assert_eq!(db.get_habit(&u2, h1).unwrap_err(), Error::NotFound);
    db.delete_habit(&u1, h1).unwrap();
    assert_eq!(db.get_habit(&u1, h1).unwrap_err(), Error::NotFound);
    assert_eq!(db.ledger_len(h1), 0);
}
