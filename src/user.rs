use crate::common::Error;
use crate::crypto::{argon2_phc, fresh_salt, hash_password, phc_verifies, verify_password};
use crate::db::Db;
use crate::ids::fresh_ulid;
use vstd::prelude::*;

verus! {

/// An account: its identifier, its unique name and the PHC string of its
/// salted password hash.
#[derive(Debug)]
pub struct User {
    pub id: u128,
    pub username: String,
    pub hashed_password: String,
}

/// `password` is the password of the account named `name` in `db`.
pub open spec fn credentials_valid(db: Db, name: Seq<char>, password: Seq<char>) -> bool {
    exists|j: int|
        0 <= j < db.users().len() && #[trigger] db.users()[j].username@ == name && phc_verifies(
            db.users()[j].hashed_password@,
            password,
        )
}

/// `after` is `before` with the account `u` added, whose password hash is
/// that of `password` under some salt.
pub open spec fn signed_up(before: Db, after: Db, u: User, password: Seq<char>) -> bool {
    &&& !before.username_taken(u.username@)
    &&& !before.user_exists(u.id)
    &&& exists|salt: Seq<char>| argon2_phc(password, salt) == Some(u.hashed_password@)
    &&& phc_verifies(u.hashed_password@, password)
    &&& after.users().len() == before.users().len() + 1
    &&& after.users().take(before.users().len() as int) == before.users()
    &&& after.users().last().id == u.id
    &&& after.users().last().username@ == u.username@
    &&& after.users().last().hashed_password == u.hashed_password
    &&& after.habit_rows() == before.habit_rows()
    &&& after.completion_rows() == before.completion_rows()
}

impl User {
    /// An equal copy of this account.
    pub fn duplicate(&self) -> (r: User)
        ensures
            r == *self,
    {
        User {
            id: self.id,
            username: self.username.clone(),
            hashed_password: self.hashed_password.clone(),
        }
    }

    /// Creates the account `name` with a new identifier and the Argon2 hash
    /// of `password` under a new random salt. `Conflict` where the name is
    /// taken; `Internal` where hashing fails or the new identifier is taken.
    /// With a free name and a password of at most `0x3FFF_FFFF` characters,
    /// hashing cannot fail, so only an identifier collision can stop it, and
    /// that needs an account to exist already.
    pub fn signup(db: &mut Db, name: String, password: String) -> (r: Result<User, Error>)
        requires
            old(db).wf(),
        ensures
            final(db).wf(),
            old(db).username_taken(name@) <==> r == Err::<User, Error>(Error::Conflict),
            !old(db).username_taken(name@) && password@.len() <= 0x3FFF_FFFF ==> r is Ok || (r
                == Err::<User, Error>(Error::Internal) && old(db).users().len() > 0),
            r is Err ==> *final(db) == *old(db),
            r matches Err(e) ==> e == Error::Conflict || e == Error::Internal,
            r matches Ok(u) ==> u.username@ == name@ && signed_up(*old(db), *final(db), u, password@),
    {
        if db.get_user_by_name(name.as_str()).is_ok() {
            return Err(Error::Conflict);
        }
        let id = fresh_ulid();
        let salt = fresh_salt();
        let hashed = match hash_password(password.as_str(), salt.as_str()) {
            Some(h) => h,
            None => {
                return Err(Error::Internal);
            },
        };
        match db.add_user(id, name.as_str(), hashed.clone()) {
            Ok(()) => {
                let u = User { id, username: name, hashed_password: hashed };
                assert(argon2_phc(password@, salt@) == Some(u.hashed_password@));
                Ok(u)
            },
            Err(e) => Err(e),
        }
    }

    /// The account named `username`, where `password` matches its hash.
    /// Every failure is `Unauthorized`, whether the name is unknown or the
    /// password wrong; an unknown name still costs one hash verification.
    pub fn authenticate(db: &Db, username: &str, password: &str) -> (r: Result<User, Error>)
        requires
            db.wf(),
        ensures
            r is Ok <==> credentials_valid(*db, username@, password@),
            r is Err ==> r == Err::<User, Error>(Error::Unauthorized),
            r matches Ok(u) ==> u.username@ == username@ && db.users().contains(u),
    {
        match db.get_user_by_name(username) {
            Ok(u) => {
                let ghost j = choose|j: int| 0 <= j < db.users().len() && db.users()[j] == u;
                proof {
                    db.lemma_unique_user(j);
                }
                if verify_password(u.hashed_password.as_str(), password) {
                    assert(db.users()[j].username@ == username@);
                    Ok(u)
                } else {
                    Err(Error::Unauthorized)
                }
            },
            Err(_) => {
                let _ = verify_password(
                    "$argon2id$v=19$m=19456,t=2,p=1$ZGVjb3lzYWx0ZGVjb3lzYQ$AAECAwQFBgcICQoLDA0ODxAREhMUFRYXGBkaGxwdHh8",
                    password,
                );
                Err(Error::Unauthorized)
            },
        }
    }
}

} // verus!
