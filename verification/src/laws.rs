//! What holds of the store's operations, whatever the tasks are.

use crate::dates::Date;
use crate::db::{
    dates_valid, finish_chosen, ids_distinct, is_done, is_open, max_id, move_chosen,
    with_new_task,
};
use crate::order::{is_ordered, is_ordering_of, lemma_ordered_stays, lemma_ordering_keeps_tasks};
use crate::task::TaskView;
use vstd::prelude::*;

verus! {

/// The highest identifier is that of one of the tasks, and no task has a
/// higher one.
pub proof fn lemma_max_id(tasks: Seq<TaskView>)
    ensures
        forall|i: int| 0 <= i < tasks.len() ==> (#[trigger] tasks[i]).id <= max_id(tasks),
        tasks.len() > 0 ==> exists|i: int|
            0 <= i < tasks.len() && (#[trigger] tasks[i]).id == max_id(tasks),
    decreases tasks.len(),
{
    if tasks.len() > 0 {
        let front = tasks.drop_last();
        lemma_max_id(front);
        assert forall|i: int| 0 <= i < tasks.len() implies (#[trigger] tasks[i]).id <= max_id(
            tasks,
        ) by {
            if i < front.len() {
                assert(front[i] == tasks[i]);
            }
        }
        if front.len() > 0 && tasks.last().id <= max_id(front) {
            let at = choose|i: int| 0 <= i < front.len() && (#[trigger] front[i]).id == max_id(front);
            assert(tasks[at].id == max_id(tasks));
        } else {
            assert(tasks[tasks.len() - 1].id == max_id(tasks));
        }
    }
}

/// The highest identifier does not depend on the order of the tasks.
pub proof fn lemma_max_id_of_same_tasks(a: Seq<TaskView>, b: Seq<TaskView>)
    requires
        a.to_multiset() == b.to_multiset(),
    ensures
        max_id(a) == max_id(b),
{
    lemma_max_id(a);
    lemma_max_id(b);
    vstd::seq_lib::to_multiset_len(a);
    vstd::seq_lib::to_multiset_len(b);
    if a.len() > 0 {
        let at_a = choose|i: int| 0 <= i < a.len() && (#[trigger] a[i]).id == max_id(a);
        assert(a.contains(a[at_a]));
        vstd::seq_lib::to_multiset_contains(a, a[at_a]);
        vstd::seq_lib::to_multiset_contains(b, a[at_a]);
        let at_b = choose|i: int| 0 <= i < b.len() && (#[trigger] b[i]).id == max_id(b);
        assert(b.contains(b[at_b]));
        vstd::seq_lib::to_multiset_contains(a, b[at_b]);
        vstd::seq_lib::to_multiset_contains(b, b[at_b]);
    }
}

/// A task that stands at two places stands at two places of every sequence
/// of the same tasks.
proof fn lemma_twice_in_same_tasks(a: Seq<TaskView>, b: Seq<TaskView>, i: int, j: int) -> (at: (
    int,
    int,
))
    requires
        a.to_multiset() == b.to_multiset(),
        0 <= i < j < a.len(),
        a[i] == a[j],
    ensures
        0 <= at.0 < at.1 < b.len(),
        b[at.0] == a[i],
        b[at.1] == a[i],
{
    broadcast use vstd::multiset::group_multiset_axioms;

    let task = a[i];
    let without = a.remove(i);
    vstd::seq_lib::to_multiset_remove(a, i);
    assert(without[j - 1] == task);
    assert(without.contains(task));
    vstd::seq_lib::to_multiset_contains(without, task);
    assert(a.to_multiset().count(task) >= 2);
    vstd::seq_lib::to_multiset_contains(b, task);
    let first = choose|k: int| 0 <= k < b.len() && b[k] == task;
    let rest = b.remove(first);
    vstd::seq_lib::to_multiset_remove(b, first);
    vstd::seq_lib::to_multiset_contains(rest, task);
    let next = choose|k: int| 0 <= k < rest.len() && rest[k] == task;
    if next < first {
        assert(b[next] == rest[next]);
        (next, first)
    } else {
        assert(b[next + 1] == rest[next]);
        (first, next + 1)
    }
}

/// Whether the identifiers are distinct does not depend on the order of the
/// tasks.
pub proof fn lemma_ids_distinct_of_same_tasks(a: Seq<TaskView>, b: Seq<TaskView>)
    requires
        a.to_multiset() == b.to_multiset(),
        ids_distinct(b),
    ensures
        ids_distinct(a),
{
    assert forall|i: int, j: int| 0 <= i < j < a.len() implies a[i].id != a[j].id by {
        if a[i].id == a[j].id {
            if a[i] == a[j] {
                let at = lemma_twice_in_same_tasks(a, b, i, j);
                assert(b[at.0].id == b[at.1].id);
            } else {
                assert(a.contains(a[i]));
                assert(a.contains(a[j]));
                vstd::seq_lib::to_multiset_contains(a, a[i]);
                vstd::seq_lib::to_multiset_contains(b, a[i]);
                vstd::seq_lib::to_multiset_contains(a, a[j]);
                vstd::seq_lib::to_multiset_contains(b, a[j]);
                let x = choose|k: int| 0 <= k < b.len() && b[k] == a[i];
                let y = choose|k: int| 0 <= k < b.len() && b[k] == a[j];
                if x < y {
                    assert(b[x].id != b[y].id);
                } else {
                    assert(b[y].id != b[x].id);
                }
            }
        }
    }
}

/// Whether every task is due on a day of the calendar does not depend on
/// the order of the tasks.
pub proof fn lemma_same_tasks_keep_dates_valid(a: Seq<TaskView>, b: Seq<TaskView>)
    requires
        a.to_multiset() == b.to_multiset(),
        dates_valid(b),
    ensures
        dates_valid(a),
{
    assert forall|i: int| 0 <= i < a.len() implies (#[trigger] a[i]).date.is_valid() by {
        assert(a.contains(a[i]));
        vstd::seq_lib::to_multiset_contains(a, a[i]);
        vstd::seq_lib::to_multiset_contains(b, a[i]);
        let at = choose|at: int| 0 <= at < b.len() && b[at] == a[i];
        assert(b[at].date.is_valid());
    }
}

/// Tasks picked out of tasks that are due on days of the calendar are due on
/// days of the calendar.
pub proof fn lemma_filter_keeps_dates_valid(tasks: Seq<TaskView>, test: spec_fn(TaskView) -> bool)
    requires
        dates_valid(tasks),
    ensures
        dates_valid(tasks.filter(test)),
{
    let kept = tasks.filter(test);
    assert forall|i: int| 0 <= i < kept.len() implies (#[trigger] kept[i]).date.is_valid() by {
        assert(kept.contains(kept[i]));
        tasks.lemma_filter_contains_rev(test, kept[i]);
        let at = choose|at: int| 0 <= at < tasks.len() && tasks[at] == kept[i];
        assert(tasks[at].date.is_valid());
    }
}

/// Tasks picked out of tasks with distinct identifiers have distinct
/// identifiers.
pub proof fn lemma_filter_keeps_ids_distinct(
    tasks: Seq<TaskView>,
    test: spec_fn(TaskView) -> bool,
)
    requires
        ids_distinct(tasks),
    ensures
        ids_distinct(tasks.filter(test)),
    decreases tasks.len(),
{
    reveal(Seq::filter);
    if tasks.len() > 0 {
        let front = tasks.drop_last();
        assert forall|i: int, j: int| 0 <= i < j < front.len() implies front[i].id
            != front[j].id by {
            assert(tasks[i].id != tasks[j].id);
        }
        lemma_filter_keeps_ids_distinct(front, test);
        let kept = front.filter(test);
        if test(tasks.last()) {
            assert forall|i: int, j: int| 0 <= i < j < kept.len() + 1 implies kept.push(
                tasks.last(),
            )[i].id != kept.push(tasks.last())[j].id by {
                if j == kept.len() {
                    assert(kept.contains(kept[i]));
                    front.lemma_filter_contains_rev(test, kept[i]);
                    let at = choose|at: int| 0 <= at < front.len() && front[at] == kept[i];
                    assert(tasks[at].id != tasks[tasks.len() - 1].id);
                } else {
                    assert(kept[i].id != kept[j].id);
                }
            }
        }
    }
}

/// Every task is open or done: those that are done are what a list has
/// beyond its open tasks.
pub proof fn lemma_open_and_done(tasks: Seq<TaskView>)
    ensures
        tasks.filter(is_open()).len() + tasks.filter(is_done()).len() == tasks.len(),
        forall|i: int|
            0 <= i < tasks.filter(is_open()).len() ==> !(#[trigger] tasks.filter(
                is_open(),
            )[i]).complete,
    decreases tasks.len(),
{
    reveal(Seq::filter);
    if tasks.len() > 0 {
        lemma_open_and_done(tasks.drop_last());
    }
    assert forall|i: int| 0 <= i < tasks.filter(is_open()).len() implies !(#[trigger] tasks.filter(
        is_open(),
    )[i]).complete by {
        tasks.lemma_filter_pred(is_open(), i);
    }
}

/// A new task gets an identifier that is one above the highest in the store,
/// and 1 in a store without tasks. No task of the store has it, so distinct
/// identifiers stay distinct.
pub proof fn lemma_new_task_id(
    tasks: Seq<TaskView>,
    name: Seq<char>,
    date: Date,
    ordered: Seq<TaskView>,
)
    requires
        is_ordering_of(ordered, with_new_task(tasks, name, date)),
    ensures
        ordered.len() == tasks.len() + 1,
        ordered.contains(TaskView { id: max_id(tasks) + 1, name, date, complete: false }),
        tasks.len() == 0 ==> max_id(tasks) + 1 == 1,
        tasks.len() > 0 ==> exists|i: int|
            0 <= i < tasks.len() && (#[trigger] tasks[i]).id + 1 == max_id(tasks) + 1,
        forall|i: int| 0 <= i < tasks.len() ==> (#[trigger] tasks[i]).id < max_id(tasks) + 1,
        max_id(ordered) == max_id(tasks) + 1,
        ids_distinct(tasks) ==> ids_distinct(ordered),
        date.is_valid() && dates_valid(tasks) ==> dates_valid(ordered),
{
    let extended = with_new_task(tasks, name, date);
    if date.is_valid() && dates_valid(tasks) {
        assert forall|i: int| 0 <= i < extended.len() implies (#[trigger] extended[i]).date.is_valid() by {
            if i < tasks.len() {
                assert(extended[i] == tasks[i]);
            }
        }
        lemma_same_tasks_keep_dates_valid(ordered, extended);
    }
    lemma_max_id(tasks);
    lemma_ordering_keeps_tasks(ordered, extended);
    assert(extended[tasks.len() as int] == (TaskView {
        id: max_id(tasks) + 1,
        name,
        date,
        complete: false,
    }));
    assert(extended.drop_last() =~= tasks);
    lemma_max_id_of_same_tasks(ordered, extended);
    if ids_distinct(tasks) {
        assert forall|i: int, j: int| 0 <= i < j < extended.len() implies extended[i].id
            != extended[j].id by {
            assert(extended[i] == tasks[i]);
            if j < tasks.len() {
                assert(extended[j] == tasks[j]);
            }
        }
        lemma_ids_distinct_of_same_tasks(ordered, extended);
    }
}

/// Finishing the tasks of some identifiers a second time changes nothing:
/// the store is as it was after the first time.
pub proof fn lemma_finish_twice(
    tasks: Seq<TaskView>,
    ids: Set<nat>,
    once: Seq<TaskView>,
    twice: Seq<TaskView>,
)
    requires
        is_ordering_of(once, finish_chosen(tasks, ids)),
        is_ordering_of(twice, finish_chosen(once, ids)),
    ensures
        twice == once,
{
    let finished = finish_chosen(tasks, ids);
    lemma_ordering_keeps_tasks(once, finished);
    assert forall|k: int| 0 <= k < once.len() implies finish_chosen(once, ids)[k] == once[k] by {
        assert(finished.contains(once[k]));
        let at = choose|at: int| 0 <= at < finished.len() && finished[at] == once[k];
        assert(finished[at].id == tasks[at].id);
    }
    assert(finish_chosen(once, ids) =~= once);
    lemma_ordered_stays(twice, once);
}

/// After the tasks of some identifiers were finished, every task with one of
/// them is done, and the store holds each task as it was or finished.
pub proof fn lemma_finished_tasks(tasks: Seq<TaskView>, ids: Set<nat>, ordered: Seq<TaskView>)
    requires
        is_ordering_of(ordered, finish_chosen(tasks, ids)),
    ensures
        ordered.len() == tasks.len(),
        forall|k: int|
            0 <= k < ordered.len() && ids.contains((#[trigger] ordered[k]).id)
                ==> ordered[k].complete,
        forall|i: int|
            0 <= i < tasks.len() ==> ordered.contains(
                if ids.contains((#[trigger] tasks[i]).id) {
                    tasks[i].finished()
                } else {
                    tasks[i]
                },
            ),
        ids_distinct(tasks) ==> ids_distinct(ordered),
        dates_valid(tasks) ==> dates_valid(ordered),
{
    let finished = finish_chosen(tasks, ids);
    lemma_ordering_keeps_tasks(ordered, finished);
    if dates_valid(tasks) {
        assert forall|i: int| 0 <= i < finished.len() implies (#[trigger] finished[i]).date.is_valid() by {
            assert(tasks[i].date.is_valid());
        }
        lemma_same_tasks_keep_dates_valid(ordered, finished);
    }
    assert forall|k: int|
        0 <= k < ordered.len() && ids.contains((#[trigger] ordered[k]).id) implies ordered[k].complete by {
        assert(finished.contains(ordered[k]));
        let at = choose|at: int| 0 <= at < finished.len() && finished[at] == ordered[k];
        assert(finished[at].id == tasks[at].id);
    }
    assert forall|i: int| 0 <= i < tasks.len() implies ordered.contains(
        if ids.contains((#[trigger] tasks[i]).id) {
            tasks[i].finished()
        } else {
            tasks[i]
        },
    ) by {
        assert(ordered.contains(finished[i]));
    }
    if ids_distinct(tasks) {
        assert forall|i: int, j: int| 0 <= i < j < finished.len() implies finished[i].id
            != finished[j].id by {
            assert(tasks[i].id != tasks[j].id);
        }
        lemma_ids_distinct_of_same_tasks(ordered, finished);
    }
}

/// After the tasks of some identifiers were put off to `day`, every task with
/// one of them is due on `day`, whenever it was due before, and the store
/// holds each task as it was or put off.
pub proof fn lemma_pushed_tasks(
    tasks: Seq<TaskView>,
    ids: Set<nat>,
    day: Date,
    ordered: Seq<TaskView>,
)
    requires
        is_ordering_of(ordered, move_chosen(tasks, ids, day)),
    ensures
        ordered.len() == tasks.len(),
        forall|k: int|
            0 <= k < ordered.len() && ids.contains((#[trigger] ordered[k]).id) ==> ordered[k].date
                == day,
        forall|i: int|
            0 <= i < tasks.len() ==> ordered.contains(
                if ids.contains((#[trigger] tasks[i]).id) {
                    tasks[i].moved_to(day)
                } else {
                    tasks[i]
                },
            ),
        ids_distinct(tasks) ==> ids_distinct(ordered),
        day.is_valid() && dates_valid(tasks) ==> dates_valid(ordered),
{
    let moved = move_chosen(tasks, ids, day);
    lemma_ordering_keeps_tasks(ordered, moved);
    if day.is_valid() && dates_valid(tasks) {
        assert forall|i: int| 0 <= i < moved.len() implies (#[trigger] moved[i]).date.is_valid() by {
            assert(tasks[i].date.is_valid());
        }
        lemma_same_tasks_keep_dates_valid(ordered, moved);
    }
    assert forall|k: int|
        0 <= k < ordered.len() && ids.contains((#[trigger] ordered[k]).id) implies ordered[k].date
        == day by {
        assert(moved.contains(ordered[k]));
        let at = choose|at: int| 0 <= at < moved.len() && moved[at] == ordered[k];
        assert(moved[at].id == tasks[at].id);
    }
    assert forall|i: int| 0 <= i < tasks.len() implies ordered.contains(
        if ids.contains((#[trigger] tasks[i]).id) {
            tasks[i].moved_to(day)
        } else {
            tasks[i]
        },
    ) by {
        assert(ordered.contains(moved[i]));
    }
    if ids_distinct(tasks) {
        assert forall|i: int, j: int| 0 <= i < j < moved.len() implies moved[i].id
            != moved[j].id by {
            assert(tasks[i].id != tasks[j].id);
        }
        lemma_ids_distinct_of_same_tasks(ordered, moved);
    }
}

/// After the done tasks were removed the store holds the open tasks and no
/// other: it is shorter by the number of tasks that were done. Where the
/// tasks were in display order, those that are left stand as they stood.
pub proof fn lemma_removed_tasks(tasks: Seq<TaskView>, ordered: Seq<TaskView>)
    requires
        is_ordering_of(ordered, tasks.filter(is_open())),
    ensures
        ordered.len() == tasks.len() - tasks.filter(is_done()).len(),
        forall|k: int| 0 <= k < ordered.len() ==> !(#[trigger] ordered[k]).complete,
        forall|i: int|
            0 <= i < tasks.len() && !(#[trigger] tasks[i]).complete ==> ordered.contains(tasks[i]),
        is_ordered(tasks) ==> ordered == tasks.filter(is_open()),
        ids_distinct(tasks) ==> ids_distinct(ordered),
        dates_valid(tasks) ==> dates_valid(ordered),
{
    let open = tasks.filter(is_open());
    if dates_valid(tasks) {
        lemma_filter_keeps_dates_valid(tasks, is_open());
        lemma_same_tasks_keep_dates_valid(ordered, open);
    }
    lemma_open_and_done(tasks);
    lemma_ordering_keeps_tasks(ordered, open);
    assert forall|k: int| 0 <= k < ordered.len() implies !(#[trigger] ordered[k]).complete by {
        assert(open.contains(ordered[k]));
    }
    assert forall|i: int|
        0 <= i < tasks.len() && !(#[trigger] tasks[i]).complete implies ordered.contains(
        tasks[i],
    ) by {
        tasks.lemma_filter_contains(is_open(), i);
        let at = choose|at: int| 0 <= at < open.len() && open[at] == tasks[i];
        assert(ordered.contains(open[at]));
    }
    if is_ordered(tasks) {
        crate::order::lemma_filter_keeps_order(tasks, is_open());
        lemma_ordered_stays(ordered, open);
    }
    if ids_distinct(tasks) {
        lemma_filter_keeps_ids_distinct(tasks, is_open());
        lemma_ids_distinct_of_same_tasks(ordered, open);
    }
}

} // verus!
