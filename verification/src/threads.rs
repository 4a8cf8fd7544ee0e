//! Keeping history visible: pointing the threads in Codex's databases at the configured provider.
//!
//! Codex Desktop lists threads from `state_5.sqlite`, filtered by the `model_provider` configured in
//! `config.toml`, so switching to another provider makes every historical conversation vanish from its
//! picker. Aligning `threads.model_provider` with the active provider keeps them visible; each database
//! is backed up before it is changed.

use crate::text;
use vstd::prelude::*;

verus! {

/// Codex Desktop's thread list lives here.
pub const STATE_DB: &'static str = "state_5.sqlite";

/// A legacy copy some builds still read.
pub const LEGACY_STATE_DB: &'static str = "sqlite/state_5.sqlite";

/// For how long a database may be busy, in seconds.
pub const DB_BUSY_SECONDS: u64 = 5;

/// The threads of the user that the configured provider hides: a provider that doesn't match hides a
/// thread, and so does a NULL one.
pub open spec fn is_hidden_sql() -> Seq<char> {
    "thread_source = 'user' AND (model_provider IS NULL OR model_provider <> ?1)"@
}

fn hidden() -> (condition: &'static str)
    ensures
        condition@ == is_hidden_sql(),
{
    "thread_source = 'user' AND (model_provider IS NULL OR model_provider <> ?1)"
}

/// The query that tells whether a database lists threads at all.
pub fn count_tables_sql() -> (sql: String)
    ensures
        sql@ == "SELECT COUNT(*) FROM sqlite_master WHERE type = 'table' AND name = 'threads'"@,
{
    "SELECT COUNT(*) FROM sqlite_master WHERE type = 'table' AND name = 'threads'".to_owned()
}

/// The query that counts the threads that the configured provider hides.
pub fn count_hidden_sql() -> (sql: String)
    ensures
        sql@ == "SELECT COUNT(*) FROM threads WHERE "@ + is_hidden_sql(),
{
    text::cat("SELECT COUNT(*) FROM threads WHERE ", hidden())
}

/// The statement that points exactly those threads at the configured provider.
pub fn align_sql() -> (sql: String)
    ensures
        sql@ == "UPDATE threads SET model_provider = ?1 WHERE "@ + is_hidden_sql(),
{
    text::cat("UPDATE threads SET model_provider = ?1 WHERE ", hidden())
}

// ------------------------------------------------------------------------------ the steps
/// What has just been learnt of a database.
#[derive(Debug)]
pub enum Observation {
    /// There is no such file.
    Missing,
    /// It is open.
    Opened,
    /// How many tables of threads it has.
    Tables(i64),
    /// How many threads the configured provider hides.
    Hidden(i64),
    /// A copy of it was made here.
    BackedUp(String),
    /// How many threads were changed.
    Changed(usize),
}

/// What is to be done with a database next.
#[derive(Clone, Copy, Debug, PartialEq, Eq, Structural)]
pub enum Work {
    CountTables,
    CountHidden,
    BackUp,
    Align,
    /// Nothing more; on to the next one.
    Leave,
}

/// What is to be done next, given what has just been learnt.
pub open spec fn work_after(observation: Observation) -> Work {
    match observation {
        Observation::Missing => Work::Leave,
        Observation::Opened => Work::CountTables,
        Observation::Tables(count) => if count == 0 {
            Work::Leave
        } else {
            Work::CountHidden
        },
        Observation::Hidden(count) => if count == 0 {
            Work::Leave
        } else {
            Work::BackUp
        },
        Observation::BackedUp(_) => Work::Align,
        Observation::Changed(_) => Work::Leave,
    }
}

/// What has been done so far.
#[derive(Debug)]
pub struct Alignment {
    /// How many threads were changed.
    pub aligned: usize,
    /// The copy of the first database.
    pub main_backup: Option<String>,
}

impl Alignment {
    /// Before anything was done.
    pub fn new() -> (alignment: Alignment)
        ensures
            alignment.aligned == 0,
            alignment.main_backup is None,
    {
        Alignment { aligned: 0, main_backup: None }
    }
}

/// What has been done, with note taken of what was learnt of the database at this place in the list.
pub open spec fn noted(alignment: Alignment, position: nat, observation: Observation) -> Alignment {
    match observation {
        Observation::BackedUp(path) => if position == 0 {
            Alignment { main_backup: Some(path), ..alignment }
        } else {
            alignment
        },
        Observation::Changed(rows) => Alignment { aligned: (alignment.aligned + rows) as usize, ..alignment },
        _ => alignment,
    }
}

/// Points every user thread at the configured provider so history stays visible after a switch, one
/// step at a time: takes note of what was learnt of the database at this place in the list, and says
/// what to do with it next.
pub fn align_thread_providers(alignment: &mut Alignment, position: usize, observation: Observation) -> (work: Work)
    requires
        observation matches Observation::Changed(rows) ==> old(alignment).aligned + rows <= usize::MAX,
    ensures
        work == work_after(observation),
        *final(alignment) == noted(*old(alignment), position as nat, observation),
{
    match observation {
        Observation::Missing => Work::Leave,
        Observation::Opened => Work::CountTables,
        Observation::Tables(count) => if count == 0 {
            Work::Leave
        } else {
            Work::CountHidden
        },
        Observation::Hidden(count) => if count == 0 {
            Work::Leave
        } else {
            Work::BackUp
        },
        Observation::BackedUp(path) => {
            if position == 0 {
                alignment.main_backup = Some(path);
            }
            Work::Align
        },
        Observation::Changed(rows) => {
            alignment.aligned = alignment.aligned + rows;
            Work::Leave
        },
    }
}

// ------------------------------------------------------------------------------------ laws
/// No database is changed before it was copied, and none is copied that would not be changed: one in
/// which no thread is hidden is left alone.
pub proof fn law_changes_follow_backups(observation: Observation)
    ensures
        work_after(observation) == Work::Align <==> observation is BackedUp,
        work_after(observation) == Work::BackUp <==> (observation matches Observation::Hidden(count) && count != 0),
        work_after(Observation::Hidden(0)) == Work::Leave,
{
}

/// A database as a run comes upon it.
pub struct Database {
    pub missing: bool,
    /// How many tables of threads it has.
    pub tables: i64,
    /// How many threads the configured provider hides.
    pub hidden: i64,
    /// Where its copy goes, if one is made.
    pub backup: String,
    /// How many threads the statement changes, if it is run.
    pub changed: usize,
}

impl Database {
    /// Threads are hidden in it.
    pub open spec fn hides_threads(self) -> bool {
        !self.missing && self.tables != 0 && self.hidden != 0
    }

    /// What is learnt of it first.
    pub open spec fn first_sight(self) -> Observation {
        if self.missing {
            Observation::Missing
        } else {
            Observation::Opened
        }
    }

    /// What is learnt of it when this is done.
    pub open spec fn outcome(self, work: Work) -> Observation {
        match work {
            Work::CountTables => Observation::Tables(self.tables),
            Work::CountHidden => Observation::Hidden(self.hidden),
            Work::BackUp => Observation::BackedUp(self.backup),
            Work::Align => Observation::Changed(self.changed),
            Work::Leave => Observation::Missing,
        }
    }
}

/// What has been done after at most `steps` steps on a database, the first of them upon this
/// observation.
pub open spec fn visited(
    alignment: Alignment,
    position: nat,
    database: Database,
    observation: Observation,
    steps: nat,
) -> Alignment
    decreases steps,
{
    let next = noted(alignment, position, observation);
    let work = work_after(observation);
    if steps == 0 {
        alignment
    } else if work == Work::Leave {
        next
    } else {
        visited(next, position, database, database.outcome(work), (steps - 1) as nat)
    }
}

/// A database is left after at most this many steps.
pub const MOST_STEPS: usize = 5;

/// What has been done after a whole run over the two databases.
pub open spec fn whole_run(first: Database, second: Database) -> Alignment {
    let start = Alignment { aligned: 0, main_backup: None };
    let between = visited(start, 0, first, first.first_sight(), MOST_STEPS as nat);
    visited(between, 1, second, second.first_sight(), MOST_STEPS as nat)
}

/// How many threads of a database a run changes.
pub open spec fn changes_of(database: Database) -> nat {
    if database.hides_threads() {
        database.changed as nat
    } else {
        0
    }
}

proof fn lemma_visit(alignment: Alignment, position: nat, database: Database, more: nat)
    requires
        alignment.aligned + changes_of(database) <= usize::MAX,
    ensures
        visited(alignment, position, database, database.first_sight(), MOST_STEPS as nat + more) == (Alignment {
            aligned: (alignment.aligned + changes_of(database)) as usize,
            main_backup: if database.hides_threads() && position == 0 {
                Some(database.backup)
            } else {
                alignment.main_backup
            },
        }),
{
    reveal_with_fuel(visited, 6);
}

/// A run over both databases changes as many threads as the two statements change together. It reports
/// a copy exactly where the first database hides threads, and then the copy of that one. Where nothing
/// is hidden, as after a run, it changes nothing and reports no copy. It is over after a few steps on
/// each database: more would change nothing.
pub proof fn law_runs_add_up(first: Database, second: Database, more: nat)
    requires
        changes_of(first) + changes_of(second) <= usize::MAX,
    ensures
        whole_run(first, second).aligned == changes_of(first) + changes_of(second),
        whole_run(first, second).main_backup == if first.hides_threads() {
            Some(first.backup)
        } else {
            None
        },
        !first.hides_threads() && !second.hides_threads() ==> whole_run(first, second) == (Alignment {
            aligned: 0,
            main_backup: None,
        }),
        visited(
            Alignment { aligned: 0, main_backup: None },
            0,
            first,
            first.first_sight(),
            MOST_STEPS as nat + more,
        ) == visited(Alignment { aligned: 0, main_backup: None }, 0, first, first.first_sight(), MOST_STEPS as nat),
{
    let start = Alignment { aligned: 0, main_backup: None };
    lemma_visit(start, 0, first, 0);
    lemma_visit(start, 0, first, more);
    lemma_visit(visited(start, 0, first, first.first_sight(), MOST_STEPS as nat), 1, second, 0);
}

/// A thread in a database: whose it is and which provider it belongs to, where that is said, and all else
/// that is known of it.
pub struct Thread {
    pub source: Option<Seq<char>>,
    pub provider: Option<Seq<char>>,
    pub rest: Seq<char>,
}

/// The configured provider hides a thread of the user that belongs to another one, or to none.
pub open spec fn is_hidden(thread: Thread, provider: Seq<char>) -> bool {
    thread.source == Some("user"@) && thread.provider != Some(provider)
}

/// The threads that the configured provider hides.
pub open spec fn hidden_among(threads: Seq<Thread>, provider: Seq<char>) -> Seq<Thread> {
    threads.filter(|thread: Thread| is_hidden(thread, provider))
}

/// A thread after those that the provider hides were pointed at it.
pub open spec fn pointed(thread: Thread, provider: Seq<char>) -> Thread {
    if is_hidden(thread, provider) {
        Thread { provider: Some(provider), ..thread }
    } else {
        thread
    }
}

/// The threads after those that the provider hides were pointed at it.
pub open spec fn pointed_all(threads: Seq<Thread>, provider: Seq<char>) -> Seq<Thread> {
    threads.map_values(|thread: Thread| pointed(thread, provider))
}

impl Database {
    /// It holds these threads, and says so: its count of those that are hidden is right, and the statement
    /// changes exactly those.
    pub open spec fn holds(self, threads: Seq<Thread>, provider: Seq<char>) -> bool {
        if self.missing || self.tables == 0 {
            threads.len() == 0
        } else {
            self.hidden == hidden_among(threads, provider).len() && self.changed == hidden_among(threads, provider).len()
        }
    }
}

proof fn lemma_none_hidden(threads: Seq<Thread>, provider: Seq<char>)
    ensures
        hidden_among(pointed_all(threads, provider), provider).len() == 0,
    decreases threads.len(),
{
    reveal(Seq::filter);
    if threads.len() > 0 {
        let after = pointed_all(threads, provider);
        lemma_none_hidden(threads.drop_last(), provider);
        assert(after.drop_last() =~= pointed_all(threads.drop_last(), provider));
    }
}

/// Every conversation of the user is visible after a run: no thread is hidden any more, each hidden one
/// belongs to the configured provider and is otherwise as it was, and no other one has changed. The run
/// reports how many there were, over both databases, and a copy exactly where the first one had any. A
/// second run finds nothing to do.
pub proof fn law_history_becomes_visible(
    first: Database,
    second: Database,
    one: Seq<Thread>,
    two: Seq<Thread>,
    provider: Seq<char>,
    first_again: Database,
    second_again: Database,
)
    requires
        first.holds(one, provider),
        second.holds(two, provider),
        hidden_among(one, provider).len() + hidden_among(two, provider).len() <= usize::MAX,
        first_again.holds(pointed_all(one, provider), provider),
        second_again.holds(pointed_all(two, provider), provider),
    ensures
        whole_run(first, second).aligned == hidden_among(one, provider).len() + hidden_among(two, provider).len(),
        whole_run(first, second).main_backup == if hidden_among(one, provider).len() > 0 {
            Some(first.backup)
        } else {
            None
        },
        forall|i: int|
            0 <= i < one.len() ==> (#[trigger] pointed_all(one, provider)[i]) == if is_hidden(one[i], provider) {
                (Thread { provider: Some(provider), ..one[i] })
            } else {
                one[i]
            },
        forall|i: int|
            0 <= i < two.len() ==> (#[trigger] pointed_all(two, provider)[i]) == if is_hidden(two[i], provider) {
                (Thread { provider: Some(provider), ..two[i] })
            } else {
                two[i]
            },
        hidden_among(pointed_all(one, provider), provider).len() == 0,
        hidden_among(pointed_all(two, provider), provider).len() == 0,
        whole_run(first_again, second_again) == (Alignment { aligned: 0, main_backup: None }),
{
    reveal(Seq::filter);
    lemma_none_hidden(one, provider);
    lemma_none_hidden(two, provider);
    law_runs_add_up(first, second, 0);
    law_runs_add_up(first_again, second_again, 0);
}

/// What is done with a database follows from what was learnt of it: its tables are counted once it is open,
/// its hidden threads where it has a table of threads, it is copied where there are hidden threads, and
/// changed once it was copied. It is left where any of that does not hold, and in the end.
pub proof fn law_steps_on_a_database(count: i64, path: String, rows: usize)
    ensures
        work_after(Observation::Missing) == Work::Leave,
        work_after(Observation::Opened) == Work::CountTables,
        work_after(Observation::Tables(count)) == if count != 0 {
            Work::CountHidden
        } else {
            Work::Leave
        },
        work_after(Observation::Hidden(count)) == if count != 0 {
            Work::BackUp
        } else {
            Work::Leave
        },
        work_after(Observation::BackedUp(path)) == Work::Align,
        work_after(Observation::Changed(rows)) == Work::Leave,
{
}

/// The copy of the first database is the one that is reported, and the threads that were changed add up.
pub proof fn law_steps_are_noted(alignment: Alignment, position: nat, path: String, rows: usize, count: i64)
    requires
        alignment.aligned + rows <= usize::MAX,
    ensures
        noted(alignment, 0, Observation::BackedUp(path)) == (Alignment { main_backup: Some(path), ..alignment }),
        position > 0 ==> noted(alignment, position, Observation::BackedUp(path)) == alignment,
        noted(alignment, position, Observation::Changed(rows)) == (Alignment {
            aligned: (alignment.aligned + rows) as usize,
            ..alignment
        }),
        noted(alignment, position, Observation::Missing) == alignment,
        noted(alignment, position, Observation::Opened) == alignment,
        noted(alignment, position, Observation::Tables(count)) == alignment,
        noted(alignment, position, Observation::Hidden(count)) == alignment,
        is_hidden_sql() == "thread_source = 'user' AND (model_provider IS NULL OR model_provider <> ?1)"@,
{
}

} // verus!
