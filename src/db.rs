use crate::common::{Date, Error, Habit, HabitOptional};
use crate::ids::{decode_ulid, fresh_ulid, ulid_decoded};
use crate::user::User;
use vstd::prelude::*;

verus! {

/// A stored habit, with the account that owns it.
#[derive(Debug)]
pub struct HabitRow {
    pub id: u128,
    pub owner: u128,
    pub name: String,
    pub description: String,
    pub goal: String,
    pub daily: u8,
}

impl HabitRow {
    /// An equal copy of this row.
    pub fn duplicate(&self) -> (r: HabitRow)
        ensures
            r == *self,
    {
        HabitRow {
            id: self.id,
            owner: self.owner,
            name: self.name.clone(),
            description: self.description.clone(),
            goal: self.goal.clone(),
            daily: self.daily,
        }
    }
}

/// `row` after the partial update `u`: each present field replaces the
/// stored one, the others stay.
pub open spec fn patched(row: HabitRow, u: HabitOptional) -> HabitRow {
    HabitRow {
        id: row.id,
        owner: row.owner,
        name: match u.name {
            Some(n) => n,
            None => row.name,
        },
        description: match u.description {
            Some(d) => d,
            None => row.description,
        },
        goal: match u.goal {
            Some(g) => g,
            None => row.goal,
        },
        daily: match u.daily {
            Some(n) => n,
            None => row.daily,
        },
    }
}

/// `rows` with the partial update `u` applied to the row of the habit `id`.
pub open spec fn patch_rows(rows: Seq<HabitRow>, id: u128, u: HabitOptional) -> Seq<HabitRow> {
    rows.map_values(
        |row: HabitRow|
            if row.id == id {
                patched(row, u)
            } else {
                row
            },
    )
}

/// A stored ledger entry: `count` completions of a habit on a date.
#[derive(Clone, Copy, Debug, PartialEq, Eq, Structural)]
pub struct CompletionRow {
    pub habit_id: u128,
    pub date: Date,
    pub count: u8,
}

/// The order in which ledger entries are stored: newer dates first, and for
/// one date, smaller habit identifiers first.
pub open spec fn precedes(a: CompletionRow, b: CompletionRow) -> bool {
    a.date.days > b.date.days || (a.date.days == b.date.days && a.habit_id < b.habit_id)
}

/// A ledger entry as handed out: its date and its count.
pub open spec fn entry_of(c: CompletionRow) -> (Date, u8) {
    (c.date, c.count)
}

/// Whether a ledger entry belongs to the habit `id`.
pub open spec fn of_habit(id: u128) -> spec_fn(CompletionRow) -> bool {
    |c: CompletionRow| c.habit_id == id
}

/// Whether a habit row belongs to the account `user`.
pub open spec fn owned_by(user: u128) -> spec_fn(HabitRow) -> bool {
    |h: HabitRow| h.owner == user
}

/// The dates strictly decrease along the sequence.
pub open spec fn descending(d: Seq<(Date, u8)>) -> bool {
    forall|i: int, j: int| 0 <= i < j < d.len() ==> d[i].0.days > d[j].0.days
}

/// Ledger entries as handed out.
pub open spec fn entries_of(s: Seq<CompletionRow>) -> Seq<(Date, u8)> {
    s.map_values(|c: CompletionRow| entry_of(c))
}

/// `h` shows the stored habit `row` with the ledger entries `entries`.
pub open spec fn shows(h: Habit, row: HabitRow, entries: Seq<CompletionRow>) -> bool {
    &&& h.id == row.id
    &&& h.name == row.name
    &&& h.description == row.description
    &&& h.goal == row.goal
    &&& h.daily == row.daily
    &&& h.dates@ == entries_of(entries)
}

/// A relation that holds between every earlier and later element of a
/// sequence still holds so after a filter.
proof fn lemma_filter_pairwise<A>(s: Seq<A>, pred: spec_fn(A) -> bool, rel: spec_fn(A, A) -> bool)
    requires
        forall|i: int, j: int| 0 <= i < j < s.len() ==> rel(s[i], s[j]),
    ensures
        forall|i: int, j: int|
            0 <= i < j < s.filter(pred).len() ==> rel(s.filter(pred)[i], s.filter(pred)[j]),
    decreases s.len(),
{
    reveal(Seq::filter);
    broadcast use vstd::seq_lib::group_seq_properties;
    broadcast use Seq::lemma_filter_contains_rev;

    if s.len() > 0 {
        let rest = s.drop_last();
        lemma_filter_pairwise(rest, pred, rel);
        let f = rest.filter(pred);
        if pred(s.last()) {
            assert forall|i: int| 0 <= i < f.len() implies rel(f[i], s.last()) by {
                assert(f.contains(f[i]));
                let k = choose|k: int| 0 <= k < rest.len() && rest[k] == f[i];
                assert(rel(s[k], s[s.len() - 1]));
            }
        }
    }
}

/// The entries of one habit, kept from a sequence stored in the order of
/// `precedes`, have strictly decreasing dates.
proof fn lemma_ledger_descending(s: Seq<CompletionRow>, id: u128)
    requires
        forall|i: int, j: int| 0 <= i < j < s.len() ==> precedes(s[i], s[j]),
    ensures
        forall|i: int, j: int|
            0 <= i < j < s.filter(of_habit(id)).len() ==> s.filter(of_habit(id))[i].date.days
                > s.filter(of_habit(id))[j].date.days,
{
    broadcast use Seq::lemma_filter_pred;

    lemma_filter_pairwise(s, of_habit(id), |a: CompletionRow, b: CompletionRow| precedes(a, b));
    let f = s.filter(of_habit(id));
    assert forall|i: int, j: int| 0 <= i < j < f.len() implies f[i].date.days > f[j].date.days by {
        assert(precedes(f[i], f[j]));
        assert(of_habit(id)(f[i]) && of_habit(id)(f[j]));
    }
}

/// Whether a ledger entry does not belong to the habit `id`.
pub open spec fn not_of_habit(id: u128) -> spec_fn(CompletionRow) -> bool {
    |c: CompletionRow| c.habit_id != id
}

/// Whether a habit row is not that of the habit `id`.
pub open spec fn other_habit(id: u128) -> spec_fn(HabitRow) -> bool {
    |h: HabitRow| h.id != id
}

/// Whether a ledger entry is the one of the habit `h` on the date `d`.
pub open spec fn at_key(c: CompletionRow, h: u128, d: Date) -> bool {
    c.habit_id == h && c.date == d
}

/// `after` holds the entries of `before` but those of the habit `h` on the
/// date `d`, and the entry of `h` on `d` with the count `n`.
pub open spec fn upserted(
    before: Seq<CompletionRow>,
    after: Seq<CompletionRow>,
    h: u128,
    d: Date,
    n: u8,
) -> bool {
    forall|c: CompletionRow|
        #[trigger] after.contains(c) <==> (c == CompletionRow { habit_id: h, date: d, count: n }
            || (before.contains(c) && !at_key(c, h, d)))
}

/// `after` holds the entries of `before` but those of the habit `h` on the
/// date `d`.
pub open spec fn removed(before: Seq<CompletionRow>, after: Seq<CompletionRow>, h: u128, d: Date) -> bool {
    forall|c: CompletionRow| #[trigger] after.contains(c) <==> (before.contains(c) && !at_key(c, h, d))
}

/// Executable `precedes`.
fn stored_before(a: &CompletionRow, b: &CompletionRow) -> (r: bool)
    ensures
        r == precedes(*a, *b),
{
    a.date.days > b.date.days || (a.date.days == b.date.days && a.habit_id < b.habit_id)
}

/// The number of newest ledger entries that the list of all habits carries.
pub const SUMMARY_WINDOW: usize = 64;

/// An in-memory relational store of three relations: accounts, habits, and
/// ledger entries.
pub struct Db {
    users: Vec<User>,
    habits: Vec<HabitRow>,
    completions: Vec<CompletionRow>,
}

impl Db {
    /// The accounts, in order of creation.
    pub closed spec fn users(&self) -> Seq<User> {
        self.users@
    }

    /// The habits, in order of creation.
    pub closed spec fn habit_rows(&self) -> Seq<HabitRow> {
        self.habits@
    }

    /// All ledger entries, in the order of `precedes`.
    pub closed spec fn completion_rows(&self) -> Seq<CompletionRow> {
        self.completions@
    }

    /// Some account has the identifier `id`.
    pub open spec fn user_exists(&self, id: u128) -> bool {
        exists|j: int| 0 <= j < self.users().len() && #[trigger] self.users()[j].id == id
    }

    /// Some account has the name `name`.
    pub open spec fn username_taken(&self, name: Seq<char>) -> bool {
        exists|j: int| 0 <= j < self.users().len() && #[trigger] self.users()[j].username@ == name
    }

    /// Some habit has the identifier `id`.
    pub open spec fn habit_exists(&self, id: u128) -> bool {
        exists|j: int| 0 <= j < self.habit_rows().len() && #[trigger] self.habit_rows()[j].id == id
    }

    /// The habit `habit` exists and belongs to the account `user`.
    pub open spec fn owns(&self, user: u128, habit: u128) -> bool {
        exists|j: int|
            0 <= j < self.habit_rows().len() && #[trigger] self.habit_rows()[j].id == habit
                && self.habit_rows()[j].owner == user
    }

    /// The stored row of the habit `id` (meaningful where it exists).
    pub open spec fn row_of(&self, id: u128) -> HabitRow {
        self.habit_rows()[choose|j: int|
            0 <= j < self.habit_rows().len() && #[trigger] self.habit_rows()[j].id == id]
    }

    /// The ledger of the habit `id`: its entries, newest date first.
    pub open spec fn ledger(&self, id: u128) -> Seq<CompletionRow> {
        self.completion_rows().filter(of_habit(id))
    }

    /// The newest entries of the ledger of `id`, at most `SUMMARY_WINDOW` of them.
    pub open spec fn summary(&self, id: u128) -> Seq<CompletionRow> {
        let l = self.ledger(id);
        l.take(if l.len() < SUMMARY_WINDOW { l.len() as int } else { SUMMARY_WINDOW as int })
    }

    /// Identifiers and names are unique, every habit's owner exists, every
    /// ledger entry's habit exists, and ledger entries are stored strictly in
    /// the order of `precedes` (so no habit has two entries for one date).
    pub open spec fn wf(&self) -> bool {
        &&& forall|i: int, j: int|
            0 <= i < j < self.users().len() ==> self.users()[i].id != self.users()[j].id
                && self.users()[i].username@ != self.users()[j].username@
        &&& forall|i: int, j: int|
            0 <= i < j < self.habit_rows().len() ==> self.habit_rows()[i].id
                != self.habit_rows()[j].id
        &&& forall|i: int|
            0 <= i < self.habit_rows().len() ==> self.user_exists(
                #[trigger] self.habit_rows()[i].owner,
            )
        &&& forall|i: int, j: int|
            0 <= i < j < self.completion_rows().len() ==> precedes(
                self.completion_rows()[i],
                self.completion_rows()[j],
            )
        &&& forall|i: int|
            0 <= i < self.completion_rows().len() ==> self.habit_exists(
                #[trigger] self.completion_rows()[i].habit_id,
            )
    }

    /// An empty store.
    pub fn new() -> (r: Db)
        ensures
            r.wf(),
            r.users().len() == 0,
            r.habit_rows().len() == 0,
            r.completion_rows().len() == 0,
    {
        Db { users: Vec::new(), habits: Vec::new(), completions: Vec::new() }
    }

    /// The position of the habit `id`, if it exists.
    fn find_habit(&self, id: u128) -> (r: Option<usize>)
        requires
            self.wf(),
        ensures
            r matches Some(i) ==> i < self.habit_rows().len() && self.habit_rows()[i as int].id
                == id,
            r is None ==> !self.habit_exists(id),
    {
        let mut i: usize = 0;
        while i < self.habits.len()
            invariant
                i <= self.habits@.len(),
                forall|j: int| 0 <= j < i ==> self.habits@[j].id != id,
            decreases self.habits.len() - i,
        {
            if self.habits[i].id == id {
                return Some(i);
            }
            i = i + 1;
        }
        None
    }

    /// The row at position `i` is the row of its habit.
    pub proof fn lemma_row_of(&self, i: int)
        requires
            self.wf(),
            0 <= i < self.habit_rows().len(),
        ensures
            self.row_of(self.habit_rows()[i].id) == self.habit_rows()[i],
            self.habit_exists(self.habit_rows()[i].id),
    {
        let id = self.habit_rows()[i].id;
        assert(self.habit_rows()[i].id == id);
        let j = choose|j: int| 0 <= j < self.habit_rows().len() && #[trigger] self.habit_rows()[j].id == id;
        assert(i == j);
    }

    /// The newest `limit` entries of the ledger of `id` (all of them where
    /// there are fewer), as dates and counts.
    fn ledger_entries(&self, id: u128, limit: usize) -> (r: Vec<(Date, u8)>)
        requires
            self.wf(),
        ensures
            r@ == entries_of(
                self.ledger(id).take(
                    if self.ledger(id).len() < limit {
                        self.ledger(id).len() as int
                    } else {
                        limit as int
                    },
                ),
            ),
            descending(r@),
    {
        broadcast use Seq::lemma_filter_push;
        broadcast use Seq::lemma_filter_len;

        let mut out: Vec<(Date, u8)> = Vec::new();
        let mut k: usize = 0;
        while k < self.completions.len() && out.len() < limit
            invariant
                k <= self.completions@.len(),
                out@.len() <= limit,
                out@ == entries_of(self.completions@.take(k as int).filter(of_habit(id))),
            decreases self.completions@.len() - k,
        {
            let c = self.completions[k];
            assert(self.completions@.take(k + 1) == self.completions@.take(k as int).push(c));
            proof {
                self.completions@.take(k as int).lemma_filter_push(c, of_habit(id));
            }
            if c.habit_id == id {
                out.push((c.date, c.count));
            }
            k = k + 1;
            assert(out@ =~= entries_of(self.completions@.take(k as int).filter(of_habit(id))));
        }
        let ghost all = self.completions@;
        let ghost head = all.take(k as int);
        let ghost tail = all.skip(k as int);
        proof {
            assert(all == head + tail);
            Seq::filter_distributes_over_add(head, tail, of_habit(id));
            let l = self.ledger(id);
            assert(l == head.filter(of_habit(id)) + tail.filter(of_habit(id)));
            if k == all.len() {
                assert(tail.len() == 0);
                assert(tail.filter(of_habit(id)).len() == 0);
                assert(l.take(l.len() as int) =~= head.filter(of_habit(id)));
            } else {
                assert(l.take(limit as int) =~= head.filter(of_habit(id)));
            }
            lemma_ledger_descending(all, id);
        }
        out
    }

    /// The ownership guard: `Ok` exactly when the habit exists and belongs to
    /// `user`; otherwise `NotFound`, whether the habit is missing or someone
    /// else's.
    pub fn check_habit_owned_by(&self, habit: u128, user: &User) -> (r: Result<(), Error>)
        requires
            self.wf(),
        ensures
            r is Ok <==> self.owns(user.id, habit),
            r is Err ==> r == Err::<(), Error>(Error::NotFound),
    {
        match self.find_habit(habit) {
            Some(i) => {
                if self.habits[i].owner == user.id {
                    Ok(())
                } else {
                    assert forall|j: int|
                        0 <= j < self.habit_rows().len() && self.habit_rows()[j].id
                            == habit implies self.habit_rows()[j].owner != user.id by {
                        if j != i as int {
                            assert(self.habit_rows()[j].id != self.habit_rows()[i as int].id);
                        }
                    }
                    Err(Error::NotFound)
                }
            },
            None => Err(Error::NotFound),
        }
    }

    /// The habit `id` with its whole ledger, newest date first, where it
    /// belongs to `user`; `NotFound` otherwise.
    pub fn get_habit(&self, user: &User, id: u128) -> (r: Result<Habit, Error>)
        requires
            self.wf(),
        ensures
            r is Ok <==> self.owns(user.id, id),
            r is Err ==> r == Err::<Habit, Error>(Error::NotFound),
            r matches Ok(h) ==> shows(h, self.row_of(id), self.ledger(id)) && descending(h.dates@),
    {
        broadcast use Seq::lemma_filter_len;

        self.check_habit_owned_by(id, user)?;
        match self.find_habit(id) {
            Some(i) => {
                proof {
                    self.lemma_row_of(i as int);
                }
                let row = &self.habits[i];
                let dates = self.ledger_entries(id, self.completions.len());
                assert(self.ledger(id).take(self.ledger(id).len() as int) =~= self.ledger(id));
                Ok(
                    Habit {
                        id,
                        name: row.name.clone(),
                        description: row.description.clone(),
                        dates,
                        goal: row.goal.clone(),
                        daily: row.daily,
                    },
                )
            },
            None => Err(Error::NotFound),
        }
    }

    /// `hs` shows the habits `rows`, one for one, each with its summary.
    pub open spec fn summarises(&self, rows: Seq<HabitRow>, hs: Seq<Habit>) -> bool {
        &&& hs.len() == rows.len()
        &&& forall|k: int|
            0 <= k < hs.len() ==> shows(#[trigger] hs[k], rows[k], self.summary(rows[k].id))
                && descending(hs[k].dates@)
    }

    /// Every habit of `user`, in order of creation, each with the newest
    /// `SUMMARY_WINDOW` entries of its ledger.
    pub fn habits(&self, user: &User) -> (r: Vec<Habit>)
        requires
            self.wf(),
        ensures
            self.summarises(self.habit_rows().filter(owned_by(user.id)), r@),
    {
        let mut out: Vec<Habit> = Vec::new();
        let mut k: usize = 0;
        while k < self.habits.len()
            invariant
                self.wf(),
                k <= self.habits@.len(),
                self.summarises(self.habits@.take(k as int).filter(owned_by(user.id)), out@),
            decreases self.habits@.len() - k,
        {
            let row = &self.habits[k];
            let ghost prev = self.habits@.take(k as int).filter(owned_by(user.id));
            assert(self.habits@.take(k + 1) == self.habits@.take(k as int).push(*row));
            proof {
                self.habits@.take(k as int).lemma_filter_push(*row, owned_by(user.id));
            }
            if row.owner == user.id {
                let dates = self.ledger_entries(row.id, SUMMARY_WINDOW);
                out.push(
                    Habit {
                        id: row.id,
                        name: row.name.clone(),
                        description: row.description.clone(),
                        dates,
                        goal: row.goal.clone(),
                        daily: row.daily,
                    },
                );
                assert(self.summarises(prev.push(*row), out@));
            }
            k = k + 1;
        }
        assert(self.habits@.take(k as int) =~= self.habit_rows());
        out
    }

    /// The account position `j` holds is the only one with its name.
    pub proof fn lemma_unique_user(&self, j: int)
        requires
            self.wf(),
            0 <= j < self.users().len(),
        ensures
            forall|k: int|
                0 <= k < self.users().len() && #[trigger] self.users()[k].username@
                    == self.users()[j].username@ ==> k == j,
            forall|k: int|
                0 <= k < self.users().len() && #[trigger] self.users()[k].id == self.users()[j].id
                    ==> k == j,
    {
    }

    /// The account named `name`; `NotFound` where there is none.
    pub fn get_user_by_name(&self, name: &str) -> (r: Result<User, Error>)
        requires
            self.wf(),
        ensures
            r is Ok <==> self.username_taken(name@),
            r is Err ==> r == Err::<User, Error>(Error::NotFound),
            r matches Ok(u) ==> u.username@ == name@ && self.users().contains(u),
    {
        let wanted = name.to_owned();
        let mut j: usize = 0;
        while j < self.users.len()
            invariant
                wanted@ == name@,
                j <= self.users@.len(),
                forall|k: int| 0 <= k < j ==> self.users@[k].username@ != name@,
            decreases self.users@.len() - j,
        {
            if self.users[j].username == wanted {
                let u = self.users[j].duplicate();
                assert(self.users()[j as int] == u);
                return Ok(u);
            }
            j = j + 1;
        }
        Err(Error::NotFound)
    }

    /// The account with identifier `id`; `NotFound` where there is none.
    pub fn get_user_by_id(&self, id: u128) -> (r: Result<User, Error>)
        requires
            self.wf(),
        ensures
            r is Ok <==> self.user_exists(id),
            r is Err ==> r == Err::<User, Error>(Error::NotFound),
            r matches Ok(u) ==> u.id == id && self.users().contains(u),
    {
        let mut j: usize = 0;
        while j < self.users.len()
            invariant
                j <= self.users@.len(),
                forall|k: int| 0 <= k < j ==> self.users@[k].id != id,
            decreases self.users@.len() - j,
        {
            if self.users[j].id == id {
                let u = self.users[j].duplicate();
                assert(self.users()[j as int] == u);
                return Ok(u);
            }
            j = j + 1;
        }
        Err(Error::NotFound)
    }

    /// Resolves `ident` to an account, given `parsed`, the identifier that
    /// `ident` spells if it spells one: by identifier first, then by name.
    pub fn resolve_user(&self, parsed: Option<u128>, ident: &str) -> (r: Result<User, Error>)
        requires
            self.wf(),
        ensures
            r is Ok <==> (parsed matches Some(id) && self.user_exists(id)) || self.username_taken(
                ident@,
            ),
            r is Err ==> r == Err::<User, Error>(Error::NotFound),
            r matches Ok(u) ==> self.users().contains(u) && if parsed matches Some(id)
                && self.user_exists(id) {
                u.id == parsed->Some_0
            } else {
                u.username@ == ident@
            },
    {
        if let Some(id) = parsed {
            if let Ok(u) = self.get_user_by_id(id) {
                return Ok(u);
            }
        }
        self.get_user_by_name(ident)
    }

    /// The account that `ident` names: the one whose identifier `ident`
    /// spells, if any, and otherwise the one with that name.
    pub fn get_user(&self, ident: &str) -> (r: Result<User, Error>)
        requires
            self.wf(),
        ensures
            r is Ok <==> (ulid_decoded(ident@) matches Some(id) && self.user_exists(id))
                || self.username_taken(ident@),
            r is Err ==> r == Err::<User, Error>(Error::NotFound),
            r matches Ok(u) ==> self.users().contains(u) && if ulid_decoded(ident@) matches Some(
                id,
            ) && self.user_exists(id) {
                u.id == ulid_decoded(ident@)->Some_0
            } else {
                u.username@ == ident@
            },
    {
        let parsed = decode_ulid(ident);
        self.resolve_user(parsed, ident)
    }

    /// Stores a new account. `Conflict` where the name is taken; otherwise
    /// `Internal` where the identifier is taken.
    pub fn add_user(&mut self, id: u128, username: &str, hashed_pass: String) -> (r: Result<
        (),
        Error,
    >)
        requires
            old(self).wf(),
        ensures
            final(self).wf(),
            old(self).username_taken(username@) ==> r == Err::<(), Error>(Error::Conflict),
            !old(self).username_taken(username@) && old(self).user_exists(id) ==> r == Err::<
                (),
                Error,
            >(Error::Internal),
            r is Ok <==> !old(self).username_taken(username@) && !old(self).user_exists(id),
            r is Err ==> *final(self) == *old(self),
            r is Ok ==> {
                &&& final(self).users().len() == old(self).users().len() + 1
                &&& final(self).users().take(old(self).users().len() as int) == old(self).users()
                &&& final(self).users().last().id == id
                &&& final(self).users().last().username@ == username@
                &&& final(self).users().last().hashed_password == hashed_pass
                &&& final(self).habit_rows() == old(self).habit_rows()
                &&& final(self).completion_rows() == old(self).completion_rows()
            },
    {
        if self.get_user_by_name(username).is_ok() {
            return Err(Error::Conflict);
        }
        if self.get_user_by_id(id).is_ok() {
            return Err(Error::Internal);
        }
        let ghost before = *self;
        self.users.push(User { id, username: username.to_owned(), hashed_password: hashed_pass });
        assert(self.users@.take(before.users@.len() as int) =~= before.users@);
        assert(self.habit_rows() == before.habit_rows());
        assert(self.completion_rows() == before.completion_rows());
        assert forall|i: int, j: int| 0 <= i < j < self.users().len() implies self.users()[i].id
            != self.users()[j].id && self.users()[i].username@ != self.users()[j].username@ by {
            assert(self.users()[i] == before.users()[i]);
            if j < before.users().len() {
                assert(self.users()[j] == before.users()[j]);
            } else {
                assert(before.users()[i].username@ != username@);
                assert(before.users()[i].id != id);
            }
        }
        assert forall|i: int| 0 <= i < self.habit_rows().len() implies self.user_exists(
            #[trigger] self.habit_rows()[i].owner,
        ) by {
            assert(before.user_exists(before.habit_rows()[i].owner));
            let j = choose|j: int|
                0 <= j < before.users().len() && #[trigger] before.users()[j].id
                    == before.habit_rows()[i].owner;
            assert(self.users()[j].id == before.users()[j].id);
        }
        Ok(())
    }

    /// Stores a new habit of `user` named `name`, with identifier `id`, an
    /// empty description and goal, and a daily target of 1. `Internal` where
    /// the account does not exist or the identifier is taken.
    pub fn insert_habit(&mut self, user: &User, id: u128, name: String) -> (r: Result<u128, Error>)
        requires
            old(self).wf(),
        ensures
            final(self).wf(),
            r is Ok <==> old(self).user_exists(user.id) && !old(self).habit_exists(id),
            r is Ok ==> r == Ok::<u128, Error>(id),
            r is Err ==> r == Err::<u128, Error>(Error::Internal) && *final(self) == *old(self),
            r is Ok ==> {
                &&& final(self).habit_rows().len() == old(self).habit_rows().len() + 1
                &&& final(self).habit_rows().take(old(self).habit_rows().len() as int)
                    == old(self).habit_rows()
                &&& final(self).habit_rows().last().id == id
                &&& final(self).habit_rows().last().owner == user.id
                &&& final(self).habit_rows().last().name == name
                &&& final(self).habit_rows().last().description@ == Seq::<char>::empty()
                &&& final(self).habit_rows().last().goal@ == Seq::<char>::empty()
                &&& final(self).habit_rows().last().daily == 1
                &&& final(self).users() == old(self).users()
                &&& final(self).completion_rows() == old(self).completion_rows()
            },
    {
        if self.get_user_by_id(user.id).is_err() {
            return Err(Error::Internal);
        }
        if self.find_habit(id).is_some() {
            return Err(Error::Internal);
        }
        let ghost before = *self;
        self.habits.push(
            HabitRow {
                id,
                owner: user.id,
                name,
                description: String::new(),
                goal: String::new(),
                daily: 1,
            },
        );
        assert(self.habits@.take(before.habits@.len() as int) =~= before.habits@);
        assert forall|i: int| 0 <= i < self.completion_rows().len() implies self.habit_exists(
            #[trigger] self.completion_rows()[i].habit_id,
        ) by {
            assert(before.habit_exists(before.completion_rows()[i].habit_id));
            let j = choose|j: int|
                0 <= j < before.habit_rows().len() && #[trigger] before.habit_rows()[j].id
                    == before.completion_rows()[i].habit_id;
            assert(self.habit_rows()[j].id == before.habit_rows()[j].id);
        }
        Ok(id)
    }

    /// Creates a habit of `user` named `name` under a newly allocated
    /// identifier, which it returns; see `insert_habit`.
    pub fn new_habit(&mut self, user: &User, name: String) -> (r: Result<u128, Error>)
        requires
            old(self).wf(),
        ensures
            final(self).wf(),
            r is Err ==> r == Err::<u128, Error>(Error::Internal) && *final(self) == *old(self),
            !old(self).user_exists(user.id) ==> r is Err,
            r is Err && old(self).user_exists(user.id) ==> old(self).habit_rows().len() > 0,
            r matches Ok(id) ==> {
                &&& !old(self).habit_exists(id)
                &&& final(self).habit_rows() == old(self).habit_rows().push(
                    final(self).habit_rows().last(),
                )
                &&& final(self).habit_rows().last().id == id
                &&& final(self).habit_rows().last().owner == user.id
                &&& final(self).habit_rows().last().name == name
                &&& final(self).habit_rows().last().description@ == Seq::<char>::empty()
                &&& final(self).habit_rows().last().goal@ == Seq::<char>::empty()
                &&& final(self).habit_rows().last().daily == 1
                &&& final(self).users() == old(self).users()
                &&& final(self).completion_rows() == old(self).completion_rows()
            },
    {
        let id = fresh_ulid();
        let r = self.insert_habit(user, id, name);
        proof {
            if r is Ok {
                assert(self.habit_rows() =~= old(self).habit_rows().push(self.habit_rows().last()));
            }
        }
        r
    }

    /// Applies the partial update `update` to the habit `id` of `user`;
    /// `NotFound` where `user` does not own it.
    pub fn update_habit(&mut self, user: &User, id: u128, update: HabitOptional) -> (r: Result<
        (),
        Error,
    >)
        requires
            old(self).wf(),
        ensures
            final(self).wf(),
            r is Ok <==> old(self).owns(user.id, id),
            r is Err ==> r == Err::<(), Error>(Error::NotFound) && *final(self) == *old(self),
            r is Ok ==> {
                &&& final(self).habit_rows() == patch_rows(old(self).habit_rows(), id, update)
                &&& final(self).users() == old(self).users()
                &&& final(self).completion_rows() == old(self).completion_rows()
            },
    {
        self.check_habit_owned_by(id, user)?;
        let i = match self.find_habit(id) {
            Some(i) => i,
            None => {
                return Err(Error::NotFound);
            },
        };
        let ghost before = *self;
        let ghost upd = update;
        let mut row = self.habits[i].duplicate();
        let HabitOptional { name, description, goal, daily } = update;
        if let Some(n) = name {
            row.name = n;
        }
        if let Some(d) = description {
            row.description = d;
        }
        if let Some(g) = goal {
            row.goal = g;
        }
        if let Some(n) = daily {
            row.daily = n;
        }
        assert(row == patched(before.habits@[i as int], upd));
        self.habits.set(i, row);
        assert(self.habits@ =~= patch_rows(before.habits@, id, upd));
        assert forall|k: int| 0 <= k < self.completion_rows().len() implies self.habit_exists(
            #[trigger] self.completion_rows()[k].habit_id,
        ) by {
            assert(before.habit_exists(before.completion_rows()[k].habit_id));
            let j = choose|j: int|
                0 <= j < before.habit_rows().len() && #[trigger] before.habit_rows()[j].id
                    == before.completion_rows()[k].habit_id;
            assert(self.habit_rows()[j].id == before.habit_rows()[j].id);
        }
        Ok(())
    }

    /// Writes the entry `row`, replacing the one of its habit on its date.
    fn upsert_completion(&mut self, row: CompletionRow)
        requires
            old(self).wf(),
            old(self).habit_exists(row.habit_id),
        ensures
            final(self).wf(),
            final(self).users() == old(self).users(),
            final(self).habit_rows() == old(self).habit_rows(),
            upserted(
                old(self).completion_rows(),
                final(self).completion_rows(),
                row.habit_id,
                row.date,
                row.count,
            ),
    {
        let ghost before = *self;
        let ghost old_rows = self.completions@;
        assert(old_rows == before.completion_rows());
        let mut k: usize = 0;
        while k < self.completions.len() && stored_before(&self.completions[k], &row)
            invariant
                self.completions@ == old_rows,
                k <= old_rows.len(),
                forall|j: int| 0 <= j < k ==> precedes(old_rows[j], row),
            decreases old_rows.len() - k,
        {
            k = k + 1;
        }
        let h = row.habit_id;
        let d = row.date;
        if k < self.completions.len() && self.completions[k].habit_id == h
            && self.completions[k].date == d {
            self.completions.set(k, row);
            assert forall|i: int, j: int| 0 <= i < j < self.completions@.len() implies precedes(
                self.completions@[i],
                self.completions@[j],
            ) by {
                assert(precedes(old_rows[i], old_rows[j]));
            }
            assert forall|c: CompletionRow| #[trigger]
                self.completions@.contains(c) <==> (c == row || (old_rows.contains(c) && !at_key(
                    c,
                    h,
                    d,
                ))) by {
                if self.completions@.contains(c) && c != row {
                    let j = choose|j: int|
                        0 <= j < self.completions@.len() && self.completions@[j] == c;
                    assert(j != k);
                    assert(old_rows[j] == c);
                    if j < k {
                        assert(precedes(old_rows[j], old_rows[k as int]));
                    } else {
                        assert(precedes(old_rows[k as int], old_rows[j]));
                    }
                }
                if c == row {
                    assert(self.completions@[k as int] == c);
                }
                if old_rows.contains(c) && !at_key(c, h, d) {
                    let j = choose|j: int| 0 <= j < old_rows.len() && old_rows[j] == c;
                    assert(self.completions@[j] == c);
                }
            }
        } else {
            self.completions.insert(k, row);
            assert forall|i: int, j: int| 0 <= i < j < self.completions@.len() implies precedes(
                self.completions@[i],
                self.completions@[j],
            ) by {
                if j < k {
                    assert(precedes(old_rows[i], old_rows[j]));
                } else if j == k {
                } else if i < k {
                    assert(precedes(old_rows[i], row));
                    assert(precedes(row, old_rows[k as int]));
                    assert(precedes(old_rows[k as int], old_rows[j - 1]) || k == j - 1);
                } else if i == k {
                    assert(precedes(row, old_rows[k as int]));
                    assert(precedes(old_rows[k as int], old_rows[j - 1]) || k == j - 1);
                } else {
                    assert(precedes(old_rows[i - 1], old_rows[j - 1]));
                }
            }
            assert forall|c: CompletionRow| #[trigger]
                self.completions@.contains(c) <==> (c == row || (old_rows.contains(c) && !at_key(
                    c,
                    h,
                    d,
                ))) by {
                if self.completions@.contains(c) && c != row {
                    let j = choose|j: int|
                        0 <= j < self.completions@.len() && self.completions@[j] == c;
                    if j < k {
                        assert(old_rows[j] == c);
                        assert(precedes(old_rows[j], row));
                    } else {
                        assert(j > k);
                        assert(old_rows[j - 1] == c);
                        assert(precedes(row, old_rows[k as int]));
                        assert(precedes(old_rows[k as int], old_rows[j - 1]) || k == j - 1);
                    }
                }
                if c == row {
                    assert(self.completions@[k as int] == c);
                }
                if old_rows.contains(c) && !at_key(c, h, d) {
                    let j = choose|j: int| 0 <= j < old_rows.len() && old_rows[j] == c;
                    if j < k {
                        assert(self.completions@[j] == c);
                    } else {
                        assert(self.completions@[j + 1] == c);
                    }
                }
            }
        }
        assert(self.users() == before.users());
        assert(self.habit_rows() == before.habit_rows());
        assert forall|i: int| 0 <= i < self.completion_rows().len() implies self.habit_exists(
            #[trigger] self.completion_rows()[i].habit_id,
        ) by {
            let c = self.completion_rows()[i];
            assert(self.completions@.contains(c));
            if c != row {
                let j = choose|j: int| 0 <= j < old_rows.len() && old_rows[j] == c;
                assert(before.habit_exists(before.completion_rows()[j].habit_id));
            }
        }
    }

    /// Records `amount` completions of the habit `habit` of `user` on `date`,
    /// replacing what was recorded for that date; `NotFound` where `user`
    /// does not own the habit.
    pub fn complete_habit(&mut self, user: &User, habit: u128, date: Date, amount: u8) -> (r:
        Result<(), Error>)
        requires
            old(self).wf(),
        ensures
            final(self).wf(),
            r is Ok <==> old(self).owns(user.id, habit),
            r is Err ==> r == Err::<(), Error>(Error::NotFound) && *final(self) == *old(self),
            r is Ok ==> {
                &&& final(self).users() == old(self).users()
                &&& final(self).habit_rows() == old(self).habit_rows()
                &&& upserted(
                    old(self).completion_rows(),
                    final(self).completion_rows(),
                    habit,
                    date,
                    amount,
                )
            },
    {
        self.check_habit_owned_by(habit, user)?;
        self.upsert_completion(CompletionRow { habit_id: habit, date, count: amount });
        Ok(())
    }

    /// Removes what was recorded for the habit `habit` of `user` on `date`,
    /// if anything was; `NotFound` where `user` does not own the habit.
    pub fn uncomplete_habit(&mut self, user: &User, habit: u128, date: Date) -> (r: Result<
        (),
        Error,
    >)
        requires
            old(self).wf(),
        ensures
            final(self).wf(),
            r is Ok <==> old(self).owns(user.id, habit),
            r is Err ==> r == Err::<(), Error>(Error::NotFound) && *final(self) == *old(self),
            r is Ok ==> {
                &&& final(self).users() == old(self).users()
                &&& final(self).habit_rows() == old(self).habit_rows()
                &&& removed(old(self).completion_rows(), final(self).completion_rows(), habit, date)
            },
    {
        self.check_habit_owned_by(habit, user)?;
        let ghost before = *self;
        let ghost old_rows = self.completions@;
        assert(old_rows == before.completion_rows());
        let mut k: usize = 0;
        while k < self.completions.len()
            invariant
                self.completions@ == old_rows,
                k <= old_rows.len(),
                forall|j: int| 0 <= j < k ==> !at_key(old_rows[j], habit, date),
            ensures
                k <= old_rows.len(),
                forall|j: int| 0 <= j < k ==> !at_key(old_rows[j], habit, date),
                k < old_rows.len() ==> at_key(old_rows[k as int], habit, date),
            decreases old_rows.len() - k,
        {
            if self.completions[k].habit_id == habit && self.completions[k].date == date {
                break;
            }
            k = k + 1;
        }
        if k < self.completions.len() {
            self.completions.remove(k);
            assert forall|i: int, j: int| 0 <= i < j < self.completions@.len() implies precedes(
                self.completions@[i],
                self.completions@[j],
            ) by {
                if j < k {
                    assert(precedes(old_rows[i], old_rows[j]));
                } else if i < k {
                    assert(precedes(old_rows[i], old_rows[j + 1]));
                } else {
                    assert(precedes(old_rows[i + 1], old_rows[j + 1]));
                }
            }
            assert forall|c: CompletionRow| #[trigger]
                self.completions@.contains(c) <==> (old_rows.contains(c) && !at_key(
                    c,
                    habit,
                    date,
                )) by {
                if self.completions@.contains(c) {
                    let j = choose|j: int|
                        0 <= j < self.completions@.len() && self.completions@[j] == c;
                    if j < k {
                        assert(old_rows[j] == c);
                        assert(precedes(old_rows[j], old_rows[k as int]));
                    } else {
                        assert(old_rows[j + 1] == c);
                        assert(precedes(old_rows[k as int], old_rows[j + 1]));
                    }
                }
                if old_rows.contains(c) && !at_key(c, habit, date) {
                    let j = choose|j: int| 0 <= j < old_rows.len() && old_rows[j] == c;
                    if j < k {
                        assert(self.completions@[j] == c);
                    } else {
                        assert(j != k);
                        assert(self.completions@[j - 1] == c);
                    }
                }
            }
            assert forall|i: int| 0 <= i < self.completion_rows().len() implies self.habit_exists(
                #[trigger] self.completion_rows()[i].habit_id,
            ) by {
                assert(self.habit_rows() == before.habit_rows());
                if i < k {
                    assert(self.completion_rows()[i] == before.completion_rows()[i]);
                    assert(before.habit_exists(before.completion_rows()[i].habit_id));
                } else {
                    assert(self.completion_rows()[i] == before.completion_rows()[i + 1]);
                    assert(before.habit_exists(before.completion_rows()[i + 1].habit_id));
                }
            }
        } else {
            assert forall|c: CompletionRow| #[trigger]
                self.completions@.contains(c) <==> (old_rows.contains(c) && !at_key(
                    c,
                    habit,
                    date,
                )) by {
                if old_rows.contains(c) {
                    let j = choose|j: int| 0 <= j < old_rows.len() && old_rows[j] == c;
                    assert(!at_key(old_rows[j], habit, date));
                }
            }
        }
        assert(self.users() == before.users());
        assert(self.habit_rows() == before.habit_rows());
        Ok(())
    }

    /// Deletes the habit `id` of `user` together with its whole ledger;
    /// `NotFound` where `user` does not own the habit.
    pub fn delete_habit(&mut self, user: &User, id: u128) -> (r: Result<(), Error>)
        requires
            old(self).wf(),
        ensures
            final(self).wf(),
            r is Ok <==> old(self).owns(user.id, id),
            r is Err ==> r == Err::<(), Error>(Error::NotFound) && *final(self) == *old(self),
            r is Ok ==> {
                &&& final(self).users() == old(self).users()
                &&& final(self).habit_rows() == old(self).habit_rows().filter(other_habit(id))
                &&& final(self).completion_rows() == old(self).completion_rows().filter(
                    not_of_habit(id),
                )
            },
    {
        broadcast use Seq::lemma_filter_push;
        broadcast use Seq::lemma_filter_contains_rev;
        broadcast use Seq::lemma_filter_pred;

        self.check_habit_owned_by(id, user)?;
        let ghost before = *self;
        let mut habits: Vec<HabitRow> = Vec::new();
        let mut k: usize = 0;
        while k < self.habits.len()
            invariant
                *self == before,
                k <= self.habits@.len(),
                habits@ == self.habits@.take(k as int).filter(other_habit(id)),
            decreases self.habits@.len() - k,
        {
            assert(self.habits@.take(k + 1) == self.habits@.take(k as int).push(self.habits@[k as int]));
            proof {
                self.habits@.take(k as int).lemma_filter_push(self.habits@[k as int], other_habit(id));
            }
            if self.habits[k].id != id {
                habits.push(self.habits[k].duplicate());
            }
            k = k + 1;
        }
        assert(self.habits@.take(k as int) == self.habits@);
        let mut completions: Vec<CompletionRow> = Vec::new();
        let mut k: usize = 0;
        while k < self.completions.len()
            invariant
                *self == before,
                k <= self.completions@.len(),
                completions@ == self.completions@.take(k as int).filter(not_of_habit(id)),
            decreases self.completions@.len() - k,
        {
            assert(self.completions@.take(k + 1) == self.completions@.take(k as int).push(
                self.completions@[k as int],
            ));
            proof {
                self.completions@.take(k as int).lemma_filter_push(
                    self.completions@[k as int],
                    not_of_habit(id),
                );
            }
            if self.completions[k].habit_id != id {
                completions.push(self.completions[k]);
            }
            k = k + 1;
        }
        assert(self.completions@.take(k as int) == self.completions@);
        self.habits = habits;
        self.completions = completions;
        proof {
            let hs = before.habit_rows();
            let cs = before.completion_rows();
            assert(self.users() == before.users());
            lemma_filter_pairwise(hs, other_habit(id), |a: HabitRow, b: HabitRow| a.id != b.id);
            lemma_filter_pairwise(
                cs,
                not_of_habit(id),
                |a: CompletionRow, b: CompletionRow| precedes(a, b),
            );
            assert forall|i: int| 0 <= i < self.habit_rows().len() implies self.user_exists(
                #[trigger] self.habit_rows()[i].owner,
            ) by {
                assert(hs.filter(other_habit(id))[i] == self.habit_rows()[i]);
                assert(hs.filter(other_habit(id)).contains(self.habit_rows()[i]));
                let j = choose|j: int| 0 <= j < hs.len() && hs[j] == self.habit_rows()[i];
                assert(before.user_exists(before.habit_rows()[j].owner));
            }
            assert forall|i: int| 0 <= i < self.completion_rows().len() implies self.habit_exists(
                #[trigger] self.completion_rows()[i].habit_id,
            ) by {
                let c = self.completion_rows()[i];
                assert(cs.filter(not_of_habit(id))[i] == c);
                assert(cs.filter(not_of_habit(id)).contains(c));
                let j = choose|j: int| 0 <= j < cs.len() && cs[j] == c;
                assert(not_of_habit(id)(c));
                assert(before.habit_exists(before.completion_rows()[j].habit_id));
                let m = choose|m: int| 0 <= m < hs.len() && #[trigger] hs[m].id == c.habit_id;
                hs.lemma_filter_contains(other_habit(id), m);
                let n = choose|n: int|
                    0 <= n < self.habit_rows().len() && self.habit_rows()[n] == hs[m];
                assert(self.habit_rows()[n].id == c.habit_id);
            }
        }
        Ok(())
    }

    /// How many ledger entries the habit `id` has, whoever owns it.
    pub fn ledger_len(&self, id: u128) -> (r: usize)
        ensures
            r == self.ledger(id).len(),
    {
        broadcast use Seq::lemma_filter_len;

        let mut n: usize = 0;
        let mut k: usize = 0;
        while k < self.completions.len()
            invariant
                k <= self.completions@.len(),
                n == self.completions@.take(k as int).filter(of_habit(id)).len(),
            decreases self.completions@.len() - k,
        {
            assert(self.completions@.take(k + 1) == self.completions@.take(k as int).push(
                self.completions@[k as int],
            ));
            proof {
                self.completions@.take(k as int).lemma_filter_push(
                    self.completions@[k as int],
                    of_habit(id),
                );
            }
            if self.completions[k].habit_id == id {
                n = n + 1;
            }
            k = k + 1;
        }
        assert(self.completions@.take(k as int) == self.completions@);
        n
    }
}

} // verus!
