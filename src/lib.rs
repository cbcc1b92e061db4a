//! A multi-user habit tracker: an ownership-isolated store of habits and
//! their per-date completion ledgers, plus password-based accounts.
mod common;
mod crypto;
mod db;
mod ids;
mod laws;
mod user;

pub use common::{Amount, Date, Error, Habit, HabitOptional, Id, Name};
pub use db::{
    at_key, descending, entries_of, entry_of, not_of_habit, of_habit, other_habit, owned_by,
    patch_rows, patched, precedes, removed, shows, upserted, CompletionRow, Db, HabitRow,
    SUMMARY_WINDOW,
};
pub use laws::{
    law_cascade_delete, law_completion_last_wins, law_ownership_isolation, law_patch_name_only,
    law_username_unique,
};
pub use user::{credentials_valid, signed_up, User};
