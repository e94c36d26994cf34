//! Putting a backup in place of the database.
//!
//! The backup is checked first: an intact SQLite file, with this server's
//! tables, at a schema this build can read. And the database must not be in
//! use: a server still writing to it would lose everything after the backup,
//! or worse, write its log into the file that replaced it.
//!
//! The backup is made ready beside the database and only then swapped in.
//! Until the last step the database is where it was; a copy that fails
//! halfway, on a full disk say, leaves it alone.
//!
//! What happens to the files happens outside; what to do next, and what to
//! say when something is wrong, is decided here.

use crate::db::schema::SCHEMA_VERSION;
use crate::text;
use vstd::hash_map::StringHashMap;
use vstd::prelude::*;
use vstd::string::StringExecFns;

verus! {

/// How far past a backup's sequence numbers a restore moves an account when
/// the database it replaces cannot say how far it had got. A personal server
/// does not hand out a million numbers between two backups.
pub const RESTORE_GAP: i64 = 1_000_000;

/// `uwussh.db` to `uwussh.db-<suffix>`, as SQLite names its own files.
pub fn sibling(database: &str, suffix: &str) -> (name: String)
    ensures
        name@ == database@ + "-"@ + suffix@,
{
    database.to_owned().concat("-").concat(suffix)
}

/// What a look at the backup found. Each look is only taken where the ones
/// before it succeeded; an error is what the database library said.
#[derive(Debug)]
pub enum Inspection {
    /// It could not be opened.
    Unopened(String),
    /// Its integrity could not even be asked for.
    NoDatabase,
    /// What the integrity check said, where it did not say `ok`.
    Damaged(String),
    /// The schema or the tables could not be read.
    Unread(String),
    /// An intact database: its schema, and how many of the three tables it
    /// must have are there.
    Read { version: i64, tables: i64 },
}

/// What is wrong with a backup of that name, if anything is.
pub open spec fn complaint(backup: Seq<char>, found: Inspection) -> Option<Seq<char>> {
    match found {
        Inspection::Unopened(error) => Some(backup + ": "@ + error@),
        Inspection::NoDatabase => Some(backup + " is not a database"@),
        Inspection::Damaged(said) => Some(backup + " is damaged: "@ + said@),
        Inspection::Unread(error) => Some(backup + ": "@ + error@),
        Inspection::Read { version, tables } => if version < 1 || tables != 3 {
            Some(backup + " is not a UwUSSH Server database"@)
        } else if version > SCHEMA_VERSION {
            Some(
                backup + " comes from a newer UwUSSH Server (schema "@ + text::signed_text(
                    version as int,
                ) + "); restore it with that one"@,
            )
        } else {
            None
        },
    }
}

/// Whether a backup may be restored, or what is wrong with it.
pub fn judge(backup: &str, found: &Inspection) -> (judged: Result<(), String>)
    ensures
        judged is Ok <==> complaint(backup@, *found) is None,
        judged matches Err(what) ==> complaint(backup@, *found) == Some(what@),
{
    match found {
        Inspection::Unopened(error) => Err(backup.to_owned().concat(": ").concat(error.as_str())),
        Inspection::NoDatabase => Err(backup.to_owned().concat(" is not a database")),
        Inspection::Damaged(said) => Err(
            backup.to_owned().concat(" is damaged: ").concat(said.as_str()),
        ),
        Inspection::Unread(error) => Err(backup.to_owned().concat(": ").concat(error.as_str())),
        Inspection::Read { version, tables } => {
            if *version < 1 || *tables != 3 {
                Err(backup.to_owned().concat(" is not a UwUSSH Server database"))
            } else if *version > SCHEMA_VERSION {
                Err(
                    backup.to_owned().concat(" comes from a newer UwUSSH Server (schema ").concat(
                        text::signed(*version).as_str(),
                    ).concat("); restore it with that one"),
                )
            } else {
                Ok(())
            }
        },
    }
}

/// What is to be done next to restore a backup.
#[derive(Debug)]
pub enum Step {
    /// Look at the backup.
    Inspect,
    /// See whether there is a database, and whether it is the backup itself.
    Compare,
    /// Take the database out of WAL mode, which needs the only connection
    /// there is, and folds the log into the file on the way.
    Release,
    /// Copy the backup beside the database, and number it on.
    Prepare,
    /// Remove that copy; then the restore has failed.
    Discard(String),
    /// Move the database aside.
    SetAside,
    /// Move the copy to where the database was.
    PutInPlace,
    /// Move the database back; then the restore has failed.
    PutBack(String),
    /// Remove the log that belonged to the database that was there: the backup
    /// must never have it played over it.
    ClearLogs,
    /// It is over.
    Done(Result<(), String>),
}

/// What came of it.
#[derive(Debug)]
pub enum Outcome {
    /// What the look at the backup found.
    Inspected(Inspection),
    /// Whether there is a database to replace, and whether it is the backup.
    Compared { replaced: bool, same: bool },
    /// The journal mode the database is in now, where it could be set.
    Released(Option<String>),
    /// It was done.
    Fine,
    /// It failed, and why.
    Failed(String),
}

/// A [`Step`] with its text as a sequence of characters.
pub enum StepView {
    Inspect,
    Compare,
    Release,
    Prepare,
    Discard(Seq<char>),
    SetAside,
    PutInPlace,
    PutBack(Seq<char>),
    ClearLogs,
    Restored,
    Refused(Seq<char>),
}

impl View for Step {
    type V = StepView;

    open spec fn view(&self) -> StepView {
        match self {
            Step::Inspect => StepView::Inspect,
            Step::Compare => StepView::Compare,
            Step::Release => StepView::Release,
            Step::Prepare => StepView::Prepare,
            Step::Discard(why) => StepView::Discard(why@),
            Step::SetAside => StepView::SetAside,
            Step::PutInPlace => StepView::PutInPlace,
            Step::PutBack(why) => StepView::PutBack(why@),
            Step::ClearLogs => StepView::ClearLogs,
            Step::Done(Ok(())) => StepView::Restored,
            Step::Done(Err(why)) => StepView::Refused(why@),
        }
    }
}

/// A restore under way.
#[derive(Debug)]
pub struct Restore {
    /// What the backup is called.
    pub backup: String,
    /// Whether there is a database that it replaces.
    pub replaced: bool,
    /// What is to be done next.
    pub step: Step,
}

/// What follows a step.
pub open spec fn step_after(
    backup: Seq<char>,
    replaced: bool,
    step: StepView,
    outcome: Outcome,
) -> StepView {
    match (step, outcome) {
        (StepView::Inspect, Outcome::Inspected(found)) => match complaint(backup, found) {
            Some(what) => StepView::Refused(what),
            None => StepView::Compare,
        },
        (StepView::Compare, Outcome::Compared { replaced, same }) => if same {
            StepView::Refused("that is the database itself, not a backup of it"@)
        } else if replaced {
            StepView::Release
        } else {
            StepView::Prepare
        },
        (StepView::Release, Outcome::Released(Some(mode))) if mode@ == "delete"@ => {
            StepView::Prepare
        },
        (StepView::Release, Outcome::Released(_)) => StepView::Refused(
            "the database is in use. Stop the server first: docker compose stop"@,
        ),
        (StepView::Release, Outcome::Failed(error)) => StepView::Refused(error@),
        (StepView::Prepare, Outcome::Fine) => if replaced {
            StepView::SetAside
        } else {
            StepView::PutInPlace
        },
        (StepView::Prepare, Outcome::Failed(error)) => StepView::Discard(
            "the backup could not be made ready: "@ + error@,
        ),
        // Whether it went or not: what counts is what is said.
        (StepView::Discard(why), _) => StepView::Refused(why),
        (StepView::SetAside, Outcome::Fine) => StepView::PutInPlace,
        (StepView::SetAside, Outcome::Failed(error)) => StepView::Refused(error@),
        (StepView::PutInPlace, Outcome::Fine) => StepView::ClearLogs,
        (StepView::PutInPlace, Outcome::Failed(error)) => {
            let why = "the backup could not be put in place: "@ + error@;
            if replaced {
                StepView::PutBack(why)
            } else {
                StepView::Refused(why)
            }
        },
        (StepView::PutBack(why), _) => StepView::Refused(why),
        (StepView::ClearLogs, _) => StepView::Restored,
        // An answer to another question than was asked changes nothing.
        _ => step,
    }
}

impl Restore {
    /// A restore that has not begun.
    pub fn new(backup: &str) -> (restore: Restore)
        ensures
            restore.backup@ == backup@,
            restore.step@ == StepView::Inspect,
            !restore.replaced,
    {
        Restore { backup: backup.to_owned(), replaced: false, step: Step::Inspect }
    }

    /// Take note of what came of the step that was to be done, and decide what
    /// follows.
    pub fn next(&mut self, outcome: Outcome)
        ensures
            final(self).backup@ == old(self).backup@,
            final(self).step@ == step_after(
                old(self).backup@,
                old(self).replaced,
                old(self).step@,
                outcome,
            ),
            final(self).replaced == match (old(self).step, outcome) {
                (Step::Compare, Outcome::Compared { replaced, same }) => replaced,
                _ => old(self).replaced,
            },
    {
        let mut step: Step = Step::ClearLogs;
        core::mem::swap(&mut self.step, &mut step);
        self.step =
        match (step, outcome) {
            (Step::Inspect, Outcome::Inspected(found)) => match judge(
                self.backup.as_str(),
                &found,
            ) {
                Ok(()) => Step::Compare,
                Err(what) => Step::Done(Err(what)),
            },
            (Step::Compare, Outcome::Compared { replaced, same }) => {
                self.replaced = replaced;
                if same {
                    Step::Done(Err("that is the database itself, not a backup of it".to_owned()))
                } else if replaced {
                    Step::Release
                } else {
                    Step::Prepare
                }
            },
            (Step::Release, Outcome::Released(mode)) => {
                let free: bool = match mode {
                    Some(mode) => text::same(mode.as_str(), "delete"),
                    None => false,
                };
                if free {
                    Step::Prepare
                } else {
                    Step::Done(
                        Err(
                            "the database is in use. Stop the server first: docker compose stop".to_owned(),
                        ),
                    )
                }
            },
            (Step::Release, Outcome::Failed(error)) => Step::Done(Err(error)),
            (Step::Prepare, Outcome::Fine) => {
                if self.replaced {
                    Step::SetAside
                } else {
                    Step::PutInPlace
                }
            },
            (Step::Prepare, Outcome::Failed(error)) => Step::Discard(
                "the backup could not be made ready: ".to_owned().concat(error.as_str()),
            ),
            (Step::Discard(why), _) => Step::Done(Err(why)),
            (Step::SetAside, Outcome::Fine) => Step::PutInPlace,
            (Step::SetAside, Outcome::Failed(error)) => Step::Done(Err(error)),
            (Step::PutInPlace, Outcome::Fine) => Step::ClearLogs,
            (Step::PutInPlace, Outcome::Failed(error)) => {
                let why: String = "the backup could not be put in place: ".to_owned().concat(
                    error.as_str(),
                );
                if self.replaced {
                    Step::PutBack(why)
                } else {
                    Step::Done(Err(why))
                }
            },
            (Step::PutBack(why), _) => Step::Done(Err(why)),
            (Step::ClearLogs, _) => Step::Done(Ok(())),
            (step, _) => step,
        };
    }
}

/// Where the database is that was there before a restore.
pub enum Whereabouts {
    /// Where it was, untouched.
    InPlace,
    /// Moved aside, with nothing in its place.
    Aside,
    /// Moved aside if there was one, and the backup in its place.
    Replaced,
}

/// Where the database is once a step was done, with that outcome.
pub open spec fn moved(at: Whereabouts, step: StepView, outcome: Outcome) -> Whereabouts {
    match (step, outcome) {
        (StepView::SetAside, Outcome::Fine) => Whereabouts::Aside,
        (StepView::PutInPlace, Outcome::Fine) => Whereabouts::Replaced,
        (StepView::PutBack(_), Outcome::Fine) => Whereabouts::InPlace,
        _ => at,
    }
}

/// Where the database is while a step is still to be done. Once a restore was
/// refused it is in its place, unless moving it back failed.
pub open spec fn accounted_for(
    step: StepView,
    replaced: bool,
    at: Whereabouts,
    put_back_failed: bool,
) -> bool {
    match step {
        StepView::SetAside => at is InPlace && replaced,
        StepView::PutInPlace => if replaced {
            at is Aside
        } else {
            at is InPlace
        },
        StepView::PutBack(_) => at is Aside && replaced,
        StepView::ClearLogs => at is Replaced,
        StepView::Restored => at is Replaced,
        StepView::Refused(_) => at is InPlace || put_back_failed && at is Aside,
        _ => at is InPlace,
    }
}

/// Until the backup is ready the database is where it was, and a restore that
/// is refused leaves it there or puts it back. Every step keeps this, whatever
/// comes of it.
pub proof fn a_refused_restore_leaves_the_database(
    backup: Seq<char>,
    replaced: bool,
    step: StepView,
    outcome: Outcome,
    at: Whereabouts,
    put_back_failed: bool,
)
    requires
        accounted_for(step, replaced, at, put_back_failed),
    ensures
        ({
            let next = step_after(backup, replaced, step, outcome);
            let replaced_next = match (step, outcome) {
                (StepView::Compare, Outcome::Compared { replaced, same }) => replaced,
                _ => replaced,
            };
            let failed_now = step is PutBack && !(outcome is Fine);
            accounted_for(
                next,
                replaced_next,
                moved(at, step, outcome),
                put_back_failed || failed_now,
            )
        }),
{
}

/// How far accounts had got, by their names: the last row of a name counts.
pub open spec fn reached_by(rows: Seq<(String, i64)>) -> Map<Seq<char>, i64>
    decreases rows.len(),
{
    if rows.len() == 0 {
        Map::empty()
    } else {
        reached_by(rows.drop_last()).insert(rows.last().0@, rows.last().1)
    }
}

/// Where an account's numbers go on from.
pub open spec fn carried(id: Seq<char>, seq: i64, reached: Map<Seq<char>, i64>) -> int {
    if reached.contains_key(id) {
        if reached[id] > seq {
            reached[id] as int
        } else {
            seq as int
        }
    } else {
        seq + RESTORE_GAP
    }
}

/// Devices remember how far they have read, and never step back: a server
/// that answers with a lower number than they know is one they do not
/// believe. After a restore the numbers would start again from the backup's,
/// and everything written from then on would be numbered below what the
/// devices already read past: they would never pull it. So every account
/// continues from the highest number it ever handed out, as far as the
/// replaced database says, and from well past the backup's where it cannot.
///
/// `accounts` are the names and numbers in the backup, `reached` those in the
/// database it replaces. Returns the number each account of the backup goes on
/// from.
pub fn carry_numbers_forward(
    accounts: &Vec<(String, i64)>,
    reached: &Vec<(String, i64)>,
) -> (next: Vec<i64>)
    requires
        forall|i: int|
            0 <= i < accounts@.len() && !reached_by(reached@).contains_key(
                (#[trigger] accounts@[i]).0@,
            ) ==> accounts@[i].1 <= i64::MAX - RESTORE_GAP,
    ensures
        next@.len() == accounts@.len(),
        forall|i: int|
            0 <= i < accounts@.len() ==> (#[trigger] next@[i]) == carried(
                accounts@[i].0@,
                accounts@[i].1,
                reached_by(reached@),
            ),
{
    let mut known: StringHashMap<i64> = StringHashMap::new();
    for i in 0..reached.len()
        invariant
            known@ == reached_by(reached@.take(i as int)),
    {
        assert(reached@.take(i + 1).drop_last() =~= reached@.take(i as int));
        assert(reached@.take(i + 1).last() == reached@[i as int]);
        known.insert(reached[i].0.clone(), reached[i].1);
    }
    assert(reached@.take(reached@.len() as int) =~= reached@);
    let mut next: Vec<i64> = Vec::new();
    for i in 0..accounts.len()
        invariant
            known@ == reached_by(reached@),
            next@.len() == i,
            forall|j: int|
                0 <= j < accounts@.len() && !reached_by(reached@).contains_key(
                    (#[trigger] accounts@[j]).0@,
                ) ==> accounts@[j].1 <= i64::MAX - RESTORE_GAP,
            forall|j: int|
                0 <= j < i ==> (#[trigger] next@[j]) == carried(
                    accounts@[j].0@,
                    accounts@[j].1,
                    reached_by(reached@),
                ),
    {
        let seq: i64 = accounts[i].1;
        let number: i64 = match known.get(accounts[i].0.as_str()) {
            Some(before) => if *before > seq {
                *before
            } else {
                seq
            },
            None => seq + RESTORE_GAP,
        };
        next.push(number);
    }
    next
}

/// After a restore no account goes on from below a number that the backup or
/// the replaced database knows it had handed out.
pub proof fn numbers_never_step_back(id: Seq<char>, seq: i64, reached: Map<Seq<char>, i64>)
    ensures
        carried(id, seq, reached) >= seq,
        reached.contains_key(id) ==> carried(id, seq, reached) >= reached[id],
        !reached.contains_key(id) ==> carried(id, seq, reached) >= seq + RESTORE_GAP,
{
}

} // verus!
