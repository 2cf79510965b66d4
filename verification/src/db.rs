//! The store: the tasks of one list, the identifiers that it gives out and
//! the operations on the whole list.

use crate::dates::Date;
use crate::laws::{
    lemma_finished_tasks, lemma_ids_distinct_of_same_tasks, lemma_new_task_id, lemma_pushed_tasks,
    lemma_removed_tasks, lemma_same_tasks_keep_dates_valid,
};
use crate::order::{
    display_order, is_ordered, is_ordering_of, lemma_ordering_extends_behind,
    lemma_ordering_is_display_order, order, views,
};
use crate::platform::{
    calendar_date_in, from_chrono, home_directory, is_path_in, path_in, today,
};
use crate::task::{is_refusal_of, names_no_date, parse_date, InvalidDate, Task, TaskView};
use vstd::prelude::*;
use vstd::string::StringExecFns;

verus! {

/// The tasks of one list, and where the list is kept.
#[derive(Debug)]
pub struct Db {
    /// The path of the file that holds the list.
    pub db_path: String,
    /// The tasks, in display order after every operation that changes them.
    pub tasks: Vec<Task>,
}

/// A store as a value.
pub struct DbView {
    pub db_path: Seq<char>,
    pub tasks: Seq<TaskView>,
}

impl View for Db {
    type V = DbView;

    open spec fn view(&self) -> DbView {
        DbView { db_path: self.db_path@, tasks: views(self.tasks@) }
    }
}

/// A task as the earlier form of the list recorded it: without a date.
#[derive(Clone, Debug)]
pub struct OldFormat {
    pub id: u8,
    pub name: String,
    pub complete: bool,
}

/// A task of the earlier form as a value.
pub struct OldFormatView {
    pub id: nat,
    pub name: Seq<char>,
    pub complete: bool,
}

impl View for OldFormat {
    type V = OldFormatView;

    open spec fn view(&self) -> OldFormatView {
        OldFormatView { id: self.id as nat, name: self.name@, complete: self.complete }
    }
}

impl OldFormatView {
    /// The task in the current form, due on `today`.
    pub open spec fn upgraded(self, today: Date) -> TaskView {
        TaskView { id: self.id, name: self.name, date: today, complete: self.complete }
    }
}

/// The tasks of a list in the earlier form as values.
pub open spec fn old_views(tasks: Seq<OldFormat>) -> Seq<OldFormatView> {
    tasks.map_values(|task: OldFormat| task@)
}

/// A list of the earlier form in the current form, every task due on `today`.
pub open spec fn migrated(tasks: Seq<OldFormatView>, today: Date) -> Seq<TaskView> {
    tasks.map_values(|task: OldFormatView| task.upgraded(today))
}

/// What the file of a new list holds before the list is first saved.
pub open spec fn placeholder_document() -> Seq<char> {
    "{}"@
}

/// The highest identifier among `tasks`, 0 where there is no task.
pub open spec fn max_id(tasks: Seq<TaskView>) -> nat
    decreases tasks.len(),
{
    if tasks.len() == 0 {
        0
    } else if tasks.last().id > max_id(tasks.drop_last()) {
        tasks.last().id
    } else {
        max_id(tasks.drop_last())
    }
}

/// No two of `tasks` have the same identifier.
pub open spec fn ids_distinct(tasks: Seq<TaskView>) -> bool {
    forall|i: int, j: int| 0 <= i < j < tasks.len() ==> tasks[i].id != tasks[j].id
}

/// Every one of `tasks` is due on a day that the calendar has.
pub open spec fn dates_valid(tasks: Seq<TaskView>) -> bool {
    forall|i: int| 0 <= i < tasks.len() ==> (#[trigger] tasks[i]).date.is_valid()
}

/// The name that the file of the list has in the home directory.
pub open spec fn list_file_name() -> Seq<char> {
    ".shittd.json"@
}

/// The identifiers that a list of identifiers names.
pub open spec fn chosen(ids: Seq<u8>) -> Set<nat> {
    Set::new(|id: nat| exists|k: int| 0 <= k < ids.len() && ids[k] as nat == id)
}

/// The names of a list of names as values.
pub open spec fn name_views(names: Seq<String>) -> Seq<Seq<char>> {
    names.map_values(|name: String| name@)
}

/// `tasks` with a new open task of the next identifier behind them.
pub open spec fn with_new_task(tasks: Seq<TaskView>, name: Seq<char>, date: Date) -> Seq<
    TaskView,
> {
    tasks.push(TaskView { id: max_id(tasks) + 1, name, date, complete: false })
}

/// New open tasks with the names `names`, all due on `date`, with the
/// identifiers that follow `highest` one by one.
pub open spec fn new_tasks(highest: nat, names: Seq<Seq<char>>, date: Date) -> Seq<TaskView> {
    Seq::new(
        names.len(),
        |i: int| TaskView { id: (highest + 1 + i) as nat, name: names[i], date, complete: false },
    )
}

/// `tasks` with those done whose identifier is in `ids`.
pub open spec fn finish_chosen(tasks: Seq<TaskView>, ids: Set<nat>) -> Seq<TaskView> {
    tasks.map_values(
        |task: TaskView|
            if ids.contains(task.id) {
                task.finished()
            } else {
                task
            },
    )
}

/// `tasks` with those due on `date` whose identifier is in `ids`.
pub open spec fn move_chosen(tasks: Seq<TaskView>, ids: Set<nat>, date: Date) -> Seq<TaskView> {
    tasks.map_values(
        |task: TaskView|
            if ids.contains(task.id) {
                task.moved_to(date)
            } else {
                task
            },
    )
}

/// The test for a task that is not done.
pub open spec fn is_open() -> spec_fn(TaskView) -> bool {
    |task: TaskView| !task.complete
}

/// The test for a task that is done.
pub open spec fn is_done() -> spec_fn(TaskView) -> bool {
    |task: TaskView| task.complete
}

impl DbView {
    /// The store is `before` with `tasks` for its tasks, in display order.
    pub open spec fn holds_ordered(self, before: DbView, tasks: Seq<TaskView>) -> bool {
        &&& self.db_path == before.db_path
        &&& is_ordering_of(self.tasks, tasks)
        &&& self.tasks == display_order(tasks)
    }

    /// The store is `before` with new tasks of the names `names`, due on
    /// `day`; without a name it is `before`.
    pub open spec fn is_added_to(self, before: DbView, names: Seq<Seq<char>>, day: Date) -> bool {
        if names.len() == 0 {
            self == before
        } else {
            self.holds_ordered(before, before.tasks + new_tasks(max_id(before.tasks), names, day))
        }
    }

    /// The store is `before` with the tasks of `ids` done.
    pub open spec fn is_finished_from(self, before: DbView, ids: Set<nat>) -> bool {
        self.holds_ordered(before, finish_chosen(before.tasks, ids))
    }

    /// The store is `before` with the tasks of `ids` due on `day`.
    pub open spec fn is_pushed_to(self, before: DbView, ids: Set<nat>, day: Date) -> bool {
        self.holds_ordered(before, move_chosen(before.tasks, ids, day))
    }

    /// The store is `before` without the tasks that are done.
    pub open spec fn is_cleaned_from(self, before: DbView) -> bool {
        self.holds_ordered(before, before.tasks.filter(is_open()))
    }

    /// The store and `r` are what adding tasks of the names `names` makes of
    /// `before`: the tasks are due on the day that `date` names, or without a
    /// text on a day that the clock gave. `r` is an error exactly where reading
    /// the text as a date is one, and the store is then `before`.
    pub open spec fn is_added_by(
        self,
        before: DbView,
        names: Seq<Seq<char>>,
        date: Option<String>,
        r: Result<(), InvalidDate>,
    ) -> bool {
        match date {
            None => r is Ok && exists|today: Date|
                from_chrono(today) && #[trigger] self.is_added_to(before, names, today),
            Some(text) => {
                &&& match r {
                    Ok(_) => exists|day: Date|
                        from_chrono(day) && #[trigger] self.is_added_to(before, names, day),
                    Err(e) => self == before && is_refusal_of(e, text@),
                }
                &&& calendar_date_in(text@) matches Some(day) ==> r is Ok && self.is_added_to(
                    before,
                    names,
                    day,
                )
                &&& names_no_date(text@) ==> r is Err
            },
        }
    }

    /// The store and `r` are what putting off the tasks of `ids` makes of
    /// `before`: the tasks are due on the day that `date` names, or without a
    /// text on the day after a day that the clock gave. `r` is an error exactly
    /// where reading the text as a date is one, and the store is then `before`.
    pub open spec fn is_pushed_by(
        self,
        before: DbView,
        ids: Set<nat>,
        date: Option<String>,
        r: Result<(), InvalidDate>,
    ) -> bool {
        match date {
            None => r is Ok && exists|today: Date|
                from_chrono(today) && #[trigger] self.is_pushed_to(before, ids, today.day_after()),
            Some(text) => {
                &&& match r {
                    Ok(_) => exists|day: Date|
                        from_chrono(day) && #[trigger] self.is_pushed_to(before, ids, day),
                    Err(e) => self == before && is_refusal_of(e, text@),
                }
                &&& calendar_date_in(text@) matches Some(day) ==> r is Ok && self.is_pushed_to(
                    before,
                    ids,
                    day,
                )
                &&& names_no_date(text@) ==> r is Err
            },
        }
    }
}

/// Whether `id` is one of `ids`.
pub fn is_chosen(ids: &Vec<u8>, id: u8) -> (r: bool)
    ensures
        r == chosen(ids@).contains(id as nat),
{
    let mut k: usize = 0;
    while k < ids.len()
        invariant
            k <= ids.len(),
            forall|j: int| 0 <= j < k ==> ids@[j] != id,
        decreases ids.len() - k,
    {
        if ids[k] == id {
            return true;
        }
        k += 1;
    }
    false
}

impl OldFormat {
    /// The task in the current form, due on `today`.
    pub fn upgrade(self, today: Date) -> (task: Task)
        ensures
            task@ == self@.upgraded(today),
    {
        Task { id: self.id, name: self.name, date: today, complete: self.complete }
    }
}

impl Db {
    /// An empty store that is kept at `db_path`.
    pub fn new(db_path: String) -> (db: Db)
        ensures
            db@ == (DbView { db_path: db_path@, tasks: Seq::empty() }),
            ids_distinct(db@.tasks),
            dates_valid(db@.tasks),
    {
        let db = Db { db_path, tasks: Vec::new() };
        assert(db@.tasks =~= Seq::<TaskView>::empty());
        db
    }

    /// An empty store that is kept in the directory `home`, in the file that
    /// has the list's name there. `None` where `home` is `None` or empty.
    pub fn in_home(home: Option<String>) -> (db: Option<Db>)
        ensures
            db is Some <==> (home matches Some(directory) && directory@.len() > 0),
            db matches Some(store) ==> {
                &&& store@.tasks == Seq::<TaskView>::empty()
                &&& home matches Some(directory)
                &&& is_path_in(store@.db_path, directory@, list_file_name())
            },
    {
        match home {
            Some(directory) => {
                if directory.as_str().is_empty() {
                    None
                } else {
                    proof {
                        reveal_strlit(".shittd.json");
                    }
                    Some(Db::new(path_in(directory.as_str(), ".shittd.json")))
                }
            },
            None => None,
        }
    }

    /// An empty store that is kept in the home directory of the user who runs
    /// the process, in the file that has the list's name there. `None` where
    /// that directory cannot be told.
    pub fn at_home() -> (db: Option<Db>)
        ensures
            db matches Some(store) ==> {
                &&& store@.tasks == Seq::<TaskView>::empty()
                &&& list_file_name().is_suffix_of(store@.db_path)
                &&& exists|directory: Seq<char>|
                    directory.len() > 0 && #[trigger] is_path_in(
                        store@.db_path,
                        directory,
                        list_file_name(),
                    )
            },
    {
        Db::in_home(home_directory())
    }

    /// Starts the store from its file: `stored` are the tasks that the file
    /// holds, `None` where there is no file yet. With a file the store holds
    /// its tasks. Without one the tasks stay as they are, and the result is the
    /// text to create the file with.
    pub fn init(&mut self, stored: Option<Vec<Task>>) -> (create: Option<String>)
        ensures
            final(self)@.db_path == old(self)@.db_path,
            match stored {
                Some(tasks) => final(self)@.tasks == views(tasks@) && create is None,
                None => {
                    &&& final(self)@.tasks == old(self)@.tasks
                    &&& create matches Some(text)
                    &&& text@ == placeholder_document()
                },
            },
    {
        match stored {
            Some(tasks) => {
                self.open(tasks);
                None
            },
            None => Some(String::from_str("{}")),
        }
    }

    /// Replaces the tasks by those of a list in the earlier form, every one
    /// due on `today`. The tasks stay in the order of that list.
    pub fn update_on(&mut self, prior_tasks: Vec<OldFormat>, today: Date)
        ensures
            final(self)@.tasks == migrated(old_views(prior_tasks@), today),
            final(self)@.db_path == old(self)@.db_path,
            today.is_valid() ==> dates_valid(final(self)@.tasks),
    {
        let ghost prior = old_views(prior_tasks@);
        let mut tasks: Vec<Task> = Vec::new();
        for old_task in it: prior_tasks
            invariant
                it.seq().len() == prior.len(),
                forall|i: int| 0 <= i < prior.len() ==> (#[trigger] it.seq()[i])@ == prior[i],
                views(tasks@) =~= migrated(prior, today).take(it.index() as int),
        {
            let ghost done = views(tasks@);
            let ghost i = it.index() as int;
            tasks.push(old_task.upgrade(today));
            proof {
                assert(views(tasks@) =~= done.push(prior[i].upgraded(today)));
                assert(migrated(prior, today).take(i + 1) =~= migrated(prior, today).take(i).push(
                    prior[i].upgraded(today),
                ));
            }
        }
        proof {
            assert(views(tasks@) =~= migrated(prior, today));
        }
        self.tasks = tasks;
    }

    /// Replaces the tasks by those of a list in the earlier form, every one
    /// due on the current local day.
    pub fn update(&mut self, prior_tasks: Vec<OldFormat>)
        ensures
            exists|today: Date|
                from_chrono(today) && final(self)@.tasks == #[trigger] migrated(
                    old_views(prior_tasks@),
                    today,
                ),
            final(self)@.db_path == old(self)@.db_path,
            dates_valid(final(self)@.tasks),
    {
        let now = today();
        self.update_on(prior_tasks, now);
    }

    /// Replaces the tasks by `stored`, the tasks that the file holds, as they
    /// stand there.
    pub fn open(&mut self, stored: Vec<Task>)
        ensures
            final(self)@.tasks == views(stored@),
            final(self)@.db_path == old(self)@.db_path,
            dates_valid(views(stored@)) ==> dates_valid(final(self)@.tasks),
    {
        self.tasks = stored;
    }

    /// Ends the store and hands out its tasks, as they are to be written to
    /// the file in place of what it holds.
    pub fn save(self) -> (tasks: Vec<Task>)
        ensures
            views(tasks@) == self@.tasks,
    {
        self.tasks
    }

    /// The highest identifier in the store, 0 in a store without tasks.
    pub fn highest_id(&self) -> (highest: u8)
        ensures
            highest == max_id(self@.tasks),
    {
        let ghost all = self@.tasks;
        let mut highest: u8 = 0;
        let mut i: usize = 0;
        while i < self.tasks.len()
            invariant
                i <= self.tasks.len(),
                all == views(self.tasks@),
                highest == max_id(all.take(i as int)),
            decreases self.tasks.len() - i,
        {
            proof {
                assert(all.take(i + 1).drop_last() =~= all.take(i as int));
            }
            if self.tasks[i].id > highest {
                highest = self.tasks[i].id;
            }
            i += 1;
        }
        proof {
            assert(all.take(i as int) =~= all);
        }
        highest
    }

    /// The identifier that the next new task gets: one above the highest in
    /// the store. `None` for a store without tasks, where the next is 1.
    pub fn get_next_id(&self) -> (next: Option<u8>)
        requires
            max_id(self@.tasks) < u8::MAX,
        ensures
            next == if self@.tasks.len() == 0 {
                None
            } else {
                Some((max_id(self@.tasks) + 1) as u8)
            },
    {
        if self.tasks.len() == 0 {
            None
        } else {
            Some(self.highest_id() + 1)
        }
    }

    /// Adds an open task with the next identifier, which is 1 in a store
    /// without tasks, and brings the tasks into display order.
    pub fn insert_task(&mut self, task_name: String, date: Date)
        requires
            max_id(old(self)@.tasks) < u8::MAX,
        ensures
            final(self)@.holds_ordered(
                old(self)@,
                with_new_task(old(self)@.tasks, task_name@, date),
            ),
            ids_distinct(old(self)@.tasks) ==> ids_distinct(final(self)@.tasks),
            date.is_valid() && dates_valid(old(self)@.tasks) ==> dates_valid(final(self)@.tasks),
    {
        let next_id = match self.get_next_id() {
            Some(id) => id,
            None => 1,
        };
        let ghost before = self@.tasks;
        self.tasks.push(Task { id: next_id, name: task_name, date, complete: false });
        proof {
            assert(self@.tasks =~= with_new_task(before, task_name@, date));
        }
        self.order_tasks();
        proof {
            lemma_new_task_id(before, task_name@, date, self@.tasks);
        }
    }

    /// Adds an open task for each of `task_names`, in their order and with
    /// identifiers that follow one another, all due on `date`. Without a name
    /// nothing changes.
    pub fn insert_tasks(&mut self, task_names: Vec<String>, date: Date)
        requires
            max_id(old(self)@.tasks) + task_names@.len() <= u8::MAX,
        ensures
            final(self)@.is_added_to(old(self)@, name_views(task_names@), date),
            ids_distinct(old(self)@.tasks) ==> ids_distinct(final(self)@.tasks),
            date.is_valid() && dates_valid(old(self)@.tasks) ==> dates_valid(final(self)@.tasks),
    {
        let ghost before = self@;
        let ghost names = name_views(task_names@);
        let ghost fresh = new_tasks(max_id(before.tasks), names, date);
        for name in it: task_names
            invariant
                it.seq().len() == names.len(),
                forall|i: int| 0 <= i < names.len() ==> (#[trigger] it.seq()[i])@ == names[i],
                fresh == new_tasks(max_id(before.tasks), names, date),
                max_id(before.tasks) + names.len() <= u8::MAX,
                it.index() == 0 ==> self@ == before,
                it.index() > 0 ==> self@.holds_ordered(
                    before,
                    before.tasks + fresh.take(it.index() as int),
                ),
                max_id(self@.tasks) == max_id(before.tasks) + it.index(),
                ids_distinct(before.tasks) ==> ids_distinct(self@.tasks),
                date.is_valid() && dates_valid(before.tasks) ==> dates_valid(self@.tasks),
        {
            let ghost inner = self@.tasks;
            let ghost i = it.index() as int;
            self.insert_task(name, date);
            proof {
                lemma_new_task_id(inner, name@, date, self@.tasks);
                assert(with_new_task(inner, name@, date) == inner.push(fresh[i]));
                assert(before.tasks + fresh.take(i + 1) =~= (before.tasks + fresh.take(i)).push(
                    fresh[i],
                ));
                if i > 0 {
                    lemma_ordering_extends_behind(
                        self@.tasks,
                        inner,
                        before.tasks + fresh.take(i),
                        fresh[i],
                    );
                } else {
                    assert(before.tasks + fresh.take(0) =~= before.tasks);
                }
                lemma_ordering_is_display_order(self@.tasks, before.tasks + fresh.take(i + 1));
            }
        }
        proof {
            assert(fresh.take(fresh.len() as int) =~= fresh);
        }
    }

    /// Adds an open task for each of `task_names`, due on the date that `date`
    /// names, or without one on the current local day. A `date` that names no
    /// date is an error, and nothing changes.
    pub fn add_tasks(&mut self, task_names: Vec<String>, date: Option<String>) -> (r: Result<
        (),
        InvalidDate,
    >)
        requires
            max_id(old(self)@.tasks) + task_names@.len() <= u8::MAX,
        ensures
            final(self)@.is_added_by(old(self)@, name_views(task_names@), date, r),
            ids_distinct(old(self)@.tasks) ==> ids_distinct(final(self)@.tasks),
            dates_valid(old(self)@.tasks) ==> dates_valid(final(self)@.tasks),
    {
        let ghost before = self@;
        let day = match date {
            Some(text) => match parse_date(text) {
                Ok(day) => day,
                Err(e) => {
                    return Err(e);
                },
            },
            None => today(),
        };
        self.insert_tasks(task_names, day);
        proof {
            assert(self@.is_added_to(before, name_views(task_names@), day));
        }
        Ok(())
    }

    /// Marks as done every task whose identifier is in `tasks_to_finish`, and
    /// brings the tasks into display order. An identifier that no task has
    /// changes nothing.
    pub fn finish_tasks(&mut self, tasks_to_finish: Vec<u8>)
        ensures
            final(self)@.is_finished_from(old(self)@, chosen(tasks_to_finish@)),
            ids_distinct(old(self)@.tasks) ==> ids_distinct(final(self)@.tasks),
            dates_valid(old(self)@.tasks) ==> dates_valid(final(self)@.tasks),
    {
        let ghost before = self@;
        let ghost after = finish_chosen(before.tasks, chosen(tasks_to_finish@));
        let mut i: usize = 0;
        while i < self.tasks.len()
            invariant
                i <= self.tasks.len(),
                self@.db_path == before.db_path,
                self.tasks.len() == before.tasks.len(),
                after == finish_chosen(before.tasks, chosen(tasks_to_finish@)),
                forall|j: int| 0 <= j < i ==> (#[trigger] self.tasks@[j])@ == after[j],
                forall|j: int|
                    i <= j < before.tasks.len() ==> (#[trigger] self.tasks@[j])@ == before.tasks[j],
            decreases self.tasks.len() - i,
        {
            if is_chosen(&tasks_to_finish, self.tasks[i].id) {
                self.tasks[i].finish();
            }
            i += 1;
        }
        proof {
            assert(self@.tasks =~= after);
        }
        self.order_tasks();
        proof {
            lemma_finished_tasks(before.tasks, chosen(tasks_to_finish@), self@.tasks);
        }
    }

    /// Sets to `date` the date of every task whose identifier is in `ids`, and
    /// brings the tasks into display order. An identifier that no task has
    /// changes nothing.
    pub fn push_tasks_to(&mut self, ids: Vec<u8>, date: Date)
        ensures
            final(self)@.is_pushed_to(old(self)@, chosen(ids@), date),
            ids_distinct(old(self)@.tasks) ==> ids_distinct(final(self)@.tasks),
            date.is_valid() && dates_valid(old(self)@.tasks) ==> dates_valid(final(self)@.tasks),
    {
        let ghost before = self@;
        let ghost after = move_chosen(before.tasks, chosen(ids@), date);
        let mut i: usize = 0;
        while i < self.tasks.len()
            invariant
                i <= self.tasks.len(),
                self@.db_path == before.db_path,
                self.tasks.len() == before.tasks.len(),
                after == move_chosen(before.tasks, chosen(ids@), date),
                forall|j: int| 0 <= j < i ==> (#[trigger] self.tasks@[j])@ == after[j],
                forall|j: int|
                    i <= j < before.tasks.len() ==> (#[trigger] self.tasks@[j])@ == before.tasks[j],
            decreases self.tasks.len() - i,
        {
            if is_chosen(&ids, self.tasks[i].id) {
                self.tasks[i].date = date;
            }
            i += 1;
        }
        proof {
            assert(self@.tasks =~= after);
        }
        self.order_tasks();
        proof {
            lemma_pushed_tasks(before.tasks, chosen(ids@), date, self@.tasks);
        }
    }

    /// Puts off every task whose identifier is in `tasks_to_push`: to the date
    /// that `date` names, or without one to the day after the current local
    /// day. A `date` that names no date is an error, and nothing changes.
    pub fn push_tasks(&mut self, tasks_to_push: Vec<u8>, date: Option<String>) -> (r: Result<
        (),
        InvalidDate,
    >)
        ensures
            final(self)@.is_pushed_by(old(self)@, chosen(tasks_to_push@), date, r),
            ids_distinct(old(self)@.tasks) ==> ids_distinct(final(self)@.tasks),
            dates_valid(old(self)@.tasks) ==> dates_valid(final(self)@.tasks),
    {
        let ghost before = self@;
        match date {
            None => {
                let now = today();
                self.push_tasks_to(tasks_to_push, now.tomorrow());
                proof {
                    assert(self@.is_pushed_to(before, chosen(tasks_to_push@), now.day_after()));
                }
                Ok(())
            },
            Some(text) => match parse_date(text) {
                Ok(day) => {
                    self.push_tasks_to(tasks_to_push, day);
                    proof {
                        assert(self@.is_pushed_to(before, chosen(tasks_to_push@), day));
                    }
                    Ok(())
                },
                Err(e) => Err(e),
            },
        }
    }

    /// Removes every task that is done, and brings the rest into display
    /// order. Where the tasks were in display order, the rest stands as it
    /// stood.
    pub fn remove_finished_tasks(&mut self)
        ensures
            final(self)@.is_cleaned_from(old(self)@),
            final(self)@.tasks.len() == old(self)@.tasks.len() - old(self)@.tasks.filter(
                is_done(),
            ).len(),
            is_ordered(old(self)@.tasks) ==> final(self)@.tasks == old(self)@.tasks.filter(
                is_open(),
            ),
            ids_distinct(old(self)@.tasks) ==> ids_distinct(final(self)@.tasks),
            dates_valid(old(self)@.tasks) ==> dates_valid(final(self)@.tasks),
    {
        let ghost before = self@.tasks;
        let mut all: Vec<Task> = Vec::new();
        core::mem::swap(&mut self.tasks, &mut all);
        let mut kept: Vec<Task> = Vec::new();
        proof {
            assert(before.take(0) =~= Seq::<TaskView>::empty());
            reveal(Seq::filter);
            assert(views(kept@) =~= before.take(0).filter(is_open()));
        }
        for task in it: all
            invariant
                it.seq().len() == before.len(),
                forall|i: int| 0 <= i < before.len() ==> (#[trigger] it.seq()[i])@ == before[i],
                views(kept@) == before.take(it.index() as int).filter(is_open()),
        {
            proof {
                let i = it.index() as int;
                assert(before.take(i + 1) =~= before.take(i).push(before[i]));
                before.take(i).lemma_filter_push(before[i], is_open());
            }
            let ghost prior = views(kept@);
            if !task.complete {
                kept.push(task);
                proof {
                    assert(views(kept@) =~= prior.push(task@));
                }
            }
        }
        proof {
            assert(before.take(before.len() as int) =~= before);
        }
        self.tasks = order(kept);
        proof {
            lemma_removed_tasks(before, self@.tasks);
        }
    }

    /// Brings the tasks into display order: open tasks first, then by date;
    /// tasks that are the same in both keep their order.
    pub fn order_tasks(&mut self)
        ensures
            final(self)@.holds_ordered(old(self)@, old(self)@.tasks),
            ids_distinct(old(self)@.tasks) ==> ids_distinct(final(self)@.tasks),
            dates_valid(old(self)@.tasks) ==> dates_valid(final(self)@.tasks),
    {
        let mut tasks: Vec<Task> = Vec::new();
        core::mem::swap(&mut self.tasks, &mut tasks);
        self.tasks = order(tasks);
        proof {
            if ids_distinct(old(self)@.tasks) {
                lemma_ids_distinct_of_same_tasks(self@.tasks, old(self)@.tasks);
            }
            if dates_valid(old(self)@.tasks) {
                lemma_same_tasks_keep_dates_valid(self@.tasks, old(self)@.tasks);
            }
        }
    }
}

} // verus!
