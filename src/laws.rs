use crate::common::{Date, HabitOptional};
use crate::crypto::phc_verifies;
use crate::db::{
    at_key, not_of_habit, of_habit, other_habit, patch_rows, upserted, CompletionRow, Db,
};
use crate::user::{credentials_valid, signed_up, User};
use vstd::prelude::*;

verus! {

/// A habit that one account owns is owned by no other account, so every
/// guarded operation of another account on it fails with `NotFound`.
pub proof fn law_ownership_isolation(db: Db, owner: u128, other: u128, habit: u128)
    requires
        db.wf(),
        db.owns(owner, habit),
        other != owner,
    ensures
        !db.owns(other, habit),
{
    let i = choose|i: int|
        0 <= i < db.habit_rows().len() && #[trigger] db.habit_rows()[i].id == habit
            && db.habit_rows()[i].owner == owner;
    assert forall|j: int|
        0 <= j < db.habit_rows().len() && #[trigger] db.habit_rows()[j].id == habit implies db.habit_rows()[j].owner
        != other by {
        if j != i {
            assert(db.habit_rows()[i].id != db.habit_rows()[j].id);
        }
    }
}

/// Recording a count for a date and then another count for the same date
/// leaves exactly one ledger entry for that date, holding the later count.
pub proof fn law_completion_last_wins(
    a: Db,
    b: Db,
    c: Db,
    habit: u128,
    date: Date,
    first: u8,
    second: u8,
)
    requires
        a.wf(),
        b.wf(),
        c.wf(),
        upserted(a.completion_rows(), b.completion_rows(), habit, date, first),
        upserted(b.completion_rows(), c.completion_rows(), habit, date, second),
    ensures
        c.completion_rows().contains(CompletionRow { habit_id: habit, date, count: second }),
        forall|x: CompletionRow|
            #[trigger] c.completion_rows().contains(x) && at_key(x, habit, date) ==> x.count
                == second,
        forall|i: int, j: int|
            0 <= i < c.completion_rows().len() && 0 <= j < c.completion_rows().len() && at_key(
                #[trigger] c.completion_rows()[i],
                habit,
                date,
            ) && at_key(#[trigger] c.completion_rows()[j], habit, date) ==> i == j,
{
    let rows = c.completion_rows();
    assert forall|i: int, j: int|
        0 <= i < rows.len() && 0 <= j < rows.len() && at_key(#[trigger] rows[i], habit, date)
            && at_key(#[trigger] rows[j], habit, date) implies i == j by {
        if i < j {
            assert(crate::db::precedes(rows[i], rows[j]));
        } else if j < i {
            assert(crate::db::precedes(rows[j], rows[i]));
        }
    }
}

/// Once a habit is deleted together with its ledger, no ledger entry of it
/// remains and no account owns it, so reading it fails with `NotFound`.
pub proof fn law_cascade_delete(before: Db, after: Db, habit: u128)
    requires
        before.wf(),
        after.habit_rows() == before.habit_rows().filter(other_habit(habit)),
        after.completion_rows() == before.completion_rows().filter(not_of_habit(habit)),
    ensures
        after.ledger(habit).len() == 0,
        !after.habit_exists(habit),
        forall|user: u128| !after.owns(user, habit),
{
    broadcast use Seq::lemma_filter_pred;

    let cs = after.completion_rows();
    assert forall|i: int| 0 <= i < cs.len() implies (|x: CompletionRow| !of_habit(habit)(x))(
        cs[i],
    ) by {
        assert(not_of_habit(habit)(before.completion_rows().filter(not_of_habit(habit))[i]));
    }
    cs.lemma_all_neg_filter_empty(of_habit(habit));
    assert forall|j: int| 0 <= j < after.habit_rows().len() implies #[trigger] after.habit_rows()[j].id
        != habit by {
        assert(other_habit(habit)(before.habit_rows().filter(other_habit(habit))[j]));
    }
}

/// An update that carries only a name changes the name of that habit and
/// nothing else: its description, goal and daily target stay, and so does
/// every other habit.
pub proof fn law_patch_name_only(before: Db, after: Db, habit: u128, update: HabitOptional)
    requires
        before.wf(),
        before.habit_exists(habit),
        update.name is Some,
        update.description is None,
        update.goal is None,
        update.daily is None,
        after.habit_rows() == patch_rows(before.habit_rows(), habit, update),
    ensures
        after.habit_exists(habit),
        after.row_of(habit).name == update.name->Some_0,
        after.row_of(habit).owner == before.row_of(habit).owner,
        after.row_of(habit).description == before.row_of(habit).description,
        after.row_of(habit).goal == before.row_of(habit).goal,
        after.row_of(habit).daily == before.row_of(habit).daily,
        forall|i: int|
            0 <= i < before.habit_rows().len() && before.habit_rows()[i].id != habit
                ==> #[trigger] after.habit_rows()[i] == before.habit_rows()[i],
{
    let i = choose|i: int|
        0 <= i < before.habit_rows().len() && #[trigger] before.habit_rows()[i].id == habit;
    before.lemma_row_of(i);
    assert(after.habit_rows()[i].id == habit);
    let j = choose|j: int|
        0 <= j < after.habit_rows().len() && #[trigger] after.habit_rows()[j].id == habit;
    assert(before.habit_rows()[j].id == after.habit_rows()[j].id);
    if j != i {
        assert(before.habit_rows()[i].id != before.habit_rows()[j].id);
    }
}

/// Once an account is created, its name is taken, so a second sign-up under
/// that name fails with `Conflict` and leaves the store as it is; the
/// password given at creation opens the account, and any password opens it
/// exactly when it verifies against the hash stored at creation.
pub proof fn law_username_unique(before: Db, after: Db, u: User, password: Seq<char>)
    requires
        after.wf(),
        signed_up(before, after, u, password),
    ensures
        after.username_taken(u.username@),
        credentials_valid(after, u.username@, password),
        forall|p: Seq<char>|
            credentials_valid(after, u.username@, p) == phc_verifies(
                #[trigger] u.hashed_password@,
                p,
            ),
{
    let last = after.users().len() - 1;
    assert(after.users()[last].username@ == u.username@);
    after.lemma_unique_user(last);
}

} // verus!
