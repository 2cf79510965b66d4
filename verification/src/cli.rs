//! The commands that a user gives, and what each of them does to the store.

use crate::dates::Timeframe;
use crate::db::{chosen, dates_valid, ids_distinct, max_id, name_views, Db, DbView};
use crate::task::InvalidDate;
use vstd::prelude::*;

verus! {

/// What a user asks for.
#[derive(Clone, Debug)]
#[allow(inconsistent_fields)]
pub enum Commands {
    /// Adds one or more tasks, due on `date` or without one on the current
    /// local day.
    Add { tasks: Vec<String>, date: Option<String> },
    /// Lists open and done tasks.
    List { timeframe: Timeframe },
    /// Finishes the tasks with these identifiers.
    Finish { task_id: Vec<u8> },
    /// Puts the tasks with these identifiers off to the following day, or to
    /// `date`.
    Push { tasks: Vec<u8>, date: Option<String> },
    /// Removes the tasks that are done.
    Clean,
}

/// One call of the program.
#[derive(Clone, Debug)]
pub struct Cli {
    pub command: Commands,
}

/// The store has identifiers left for the tasks that `command` adds.
pub open spec fn has_room_for(before: DbView, command: Commands) -> bool {
    command matches Commands::Add { tasks, .. } ==> max_id(before.tasks) + tasks@.len() <= u8::MAX
}

/// `after` and `r` are what `command` makes of the store `before`. `r` is an
/// error where the command names a date that is none, and the store is then
/// as it was.
pub open spec fn is_outcome_of(
    command: Commands,
    before: DbView,
    after: DbView,
    r: Result<(), InvalidDate>,
) -> bool {
    match command {
        Commands::Add { tasks, date } => after.is_added_by(before, name_views(tasks@), date, r),
        Commands::List { timeframe } => r is Ok && after == before,
        Commands::Finish { task_id } => r is Ok && after.is_finished_from(before, chosen(task_id@)),
        Commands::Push { tasks, date } => after.is_pushed_by(before, chosen(tasks@), date, r),
        Commands::Clean => r is Ok && after.is_cleaned_from(before),
    }
}

impl Commands {
    /// Whether the command changes the store, so that the store has to be
    /// saved after it: every command does but a listing.
    pub fn changes_store(&self) -> (r: bool)
        ensures
            r == !(self is List),
    {
        match self {
            Commands::List { .. } => false,
            _ => true,
        }
    }

    /// Does to `db` what the command asks for.
    pub fn apply(self, db: &mut Db) -> (r: Result<(), InvalidDate>)
        requires
            has_room_for(old(db)@, self),
        ensures
            is_outcome_of(self, old(db)@, final(db)@, r),
            ids_distinct(old(db)@.tasks) ==> ids_distinct(final(db)@.tasks),
            dates_valid(old(db)@.tasks) ==> dates_valid(final(db)@.tasks),
    {
        match self {
            Commands::Add { tasks, date } => db.add_tasks(tasks, date),
            Commands::List { .. } => Ok(()),
            Commands::Finish { task_id } => {
                db.finish_tasks(task_id);
                Ok(())
            },
            Commands::Push { tasks, date } => db.push_tasks(tasks, date),
            Commands::Clean => {
                db.remove_finished_tasks();
                Ok(())
            },
        }
    }
}

impl Cli {
    /// Does to `db` what this call of the program asks for.
    pub fn run(self, db: &mut Db) -> (r: Result<(), InvalidDate>)
        requires
            has_room_for(old(db)@, self.command),
        ensures
            is_outcome_of(self.command, old(db)@, final(db)@, r),
            ids_distinct(old(db)@.tasks) ==> ids_distinct(final(db)@.tasks),
            dates_valid(old(db)@.tasks) ==> dates_valid(final(db)@.tasks),
    {
        self.command.apply(db)
    }
}

} // verus!
