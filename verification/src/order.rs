//! The display order of tasks: open tasks before done ones, and within each
//! of the two by date. Tasks of one rank keep the order that they had.

use crate::dates::Date;
use crate::task::{Task, TaskView};
use vstd::prelude::*;

verus! {

/// The tasks of a vector as values.
pub open spec fn views(tasks: Seq<Task>) -> Seq<TaskView> {
    tasks.map_values(|task: Task| task@)
}

/// `a` may stand in front of `b`: `a` is open and `b` is done, or both are
/// the same in that and `a` is due no later than `b`.
pub open spec fn in_order(a: TaskView, b: TaskView) -> bool {
    ||| !a.complete && b.complete
    ||| a.complete == b.complete && a.date.not_after(b.date)
}

/// `a` has to stand in front of `b`.
pub open spec fn ranks_before(a: TaskView, b: TaskView) -> bool {
    ||| !a.complete && b.complete
    ||| a.complete == b.complete && a.date.is_before(b.date)
}

/// Every task stands in front of those that it may stand in front of.
pub open spec fn is_ordered(tasks: Seq<TaskView>) -> bool {
    forall|i: int, j: int| 0 <= i < j < tasks.len() ==> in_order(tasks[i], tasks[j])
}

/// The test for a rank: done or not, and due on `date`.
pub open spec fn has_rank(complete: bool, date: Date) -> spec_fn(TaskView) -> bool {
    |task: TaskView| task.complete == complete && task.date == date
}

/// The tasks of one rank, in the order that they have in `tasks`.
pub open spec fn of_rank(tasks: Seq<TaskView>, complete: bool, date: Date) -> Seq<TaskView> {
    tasks.filter(has_rank(complete, date))
}

/// `ordered` is `tasks` in display order: it is ordered, holds the same tasks
/// as often, and the tasks of each rank stand as they stood in `tasks`.
pub open spec fn is_ordering_of(ordered: Seq<TaskView>, tasks: Seq<TaskView>) -> bool {
    &&& is_ordered(ordered)
    &&& ordered.to_multiset() == tasks.to_multiset()
    &&& forall|complete: bool, date: Date| #[trigger]
        of_rank(ordered, complete, date) == of_rank(tasks, complete, date)
}

/// The ordered `ordered` with `task` put in front of the first task that does
/// not have to stand in front of it.
pub open spec fn placed_first(ordered: Seq<TaskView>, task: TaskView) -> Seq<TaskView>
    decreases ordered.len(),
{
    if ordered.len() > 0 && ranks_before(ordered.first(), task) {
        seq![ordered.first()] + placed_first(ordered.drop_first(), task)
    } else {
        seq![task] + ordered
    }
}

/// The display order of `tasks`, worked out task by task from the last to
/// the first. It is the one sequence that `is_ordering_of` admits.
pub open spec fn display_order(tasks: Seq<TaskView>) -> Seq<TaskView>
    decreases tasks.len(),
{
    if tasks.len() == 0 {
        tasks
    } else {
        placed_first(display_order(tasks.drop_first()), tasks.first())
    }
}

/// Whether `a` has to stand in front of `b`.
pub fn sorts_before(a: &Task, b: &Task) -> (r: bool)
    ensures
        r == ranks_before(a@, b@),
{
    (!a.complete && b.complete) || (a.complete == b.complete && a.date.precedes(&b.date))
}

/// Puts `task` into the ordered `tasks`, in front of the tasks of its rank.
pub fn place_first(tasks: &mut Vec<Task>, task: Task)
    requires
        is_ordered(views(old(tasks)@)),
    ensures
        is_ordering_of(views(final(tasks)@), seq![task@] + views(old(tasks)@)),
        views(final(tasks)@) == placed_first(views(old(tasks)@), task@),
{
    let mut at: usize = 0;
    while at < tasks.len() && sorts_before(&tasks[at], &task)
        invariant
            at <= tasks.len(),
            forall|i: int| 0 <= i < at ==> ranks_before(#[trigger] tasks@[i]@, task@),
        decreases tasks.len() - at,
    {
        at += 1;
    }
    let ghost before = views(tasks@);
    let ghost new = task@;
    tasks.insert(at, task);
    proof {
        assert(views(tasks@) =~= before.insert(at as int, new));
        lemma_placed_first_at(before, new, at as int);
        lemma_placed_first(before, new);
    }
}

/// Brings `tasks` into display order.
pub fn order(tasks: Vec<Task>) -> (ordered: Vec<Task>)
    ensures
        is_ordering_of(views(ordered@), views(tasks@)),
        views(ordered@) == display_order(views(tasks@)),
{
    let ghost all = views(tasks@);
    let mut rest = tasks;
    let mut ordered: Vec<Task> = Vec::new();
    proof {
        assert(all.skip(all.len() as int) =~= Seq::<TaskView>::empty());
        assert(views(ordered@) =~= Seq::<TaskView>::empty());
    }
    while rest.len() > 0
        invariant
            rest.len() <= all.len(),
            views(rest@) == all.take(rest.len() as int),
            is_ordering_of(views(ordered@), all.skip(rest.len() as int)),
        decreases rest.len(),
    {
        let ghost inner = views(ordered@);
        let ghost count = rest.len() as int;
        let task = rest.pop().unwrap();
        place_first(&mut ordered, task);
        proof {
            assert(task@ == all.take(count)[count - 1]);
            assert(views(rest@) =~= all.take(count - 1));
            assert(all.skip(count - 1) =~= seq![task@] + all.skip(count));
            lemma_ordering_extends(views(ordered@), inner, all.skip(count), task@);
        }
    }
    proof {
        assert(all.skip(0) =~= all);
        lemma_ordering_is_display_order(views(ordered@), all);
    }
    ordered
}

/// Of any two tasks in display order the first is open and the second done,
/// or both are the same in that and the first is due no later than the second.
pub proof fn lemma_ordered_pair(ordered: Seq<TaskView>, tasks: Seq<TaskView>, i: int, j: int)
    requires
        is_ordering_of(ordered, tasks),
        0 <= i < j < ordered.len(),
    ensures
        (!ordered[i].complete && ordered[j].complete) || (ordered[i].complete
            == ordered[j].complete && (ordered[i].date == ordered[j].date
            || ordered[i].date.is_before(ordered[j].date))),
{
    assert(in_order(ordered[i], ordered[j]));
}

/// The display order of tasks is one: two sequences that both are `tasks` in
/// display order are the same sequence.
pub proof fn lemma_ordering_unique(a: Seq<TaskView>, b: Seq<TaskView>, tasks: Seq<TaskView>)
    requires
        is_ordering_of(a, tasks),
        is_ordering_of(b, tasks),
    ensures
        a == b,
{
    assert forall|complete: bool, date: Date| #[trigger]
        of_rank(a, complete, date) == of_rank(b, complete, date) by {
        assert(of_rank(a, complete, date) == of_rank(tasks, complete, date));
        assert(of_rank(b, complete, date) == of_rank(tasks, complete, date));
    }
    lemma_same_ranks(a, b);
}

/// Tasks that are in display order are their own display order: ordering
/// them again changes nothing.
pub proof fn lemma_ordered_stays(ordered: Seq<TaskView>, tasks: Seq<TaskView>)
    requires
        is_ordered(tasks),
        is_ordering_of(ordered, tasks),
    ensures
        ordered == tasks,
{
    lemma_ordering_unique(ordered, tasks, tasks);
}

/// Display order is stable: of two tasks of one rank, the one that stood in
/// front of the other in `tasks` stands in front of it in `ordered`.
pub proof fn lemma_ordering_is_stable(
    ordered: Seq<TaskView>,
    tasks: Seq<TaskView>,
    i: int,
    j: int,
) -> (at: (int, int))
    requires
        is_ordering_of(ordered, tasks),
        0 <= i < j < tasks.len(),
        tasks[i].complete == tasks[j].complete,
        tasks[i].date == tasks[j].date,
    ensures
        0 <= at.0 < at.1 < ordered.len(),
        ordered[at.0] == tasks[i],
        ordered[at.1] == tasks[j],
{
    let complete = tasks[i].complete;
    let date = tasks[i].date;
    assert(of_rank(ordered, complete, date) == of_rank(tasks, complete, date));
    let kept = lemma_picked_in_order(tasks, has_rank(complete, date), i, j);
    lemma_picked_from(ordered, has_rank(complete, date), kept.0, kept.1)
}

/// Display order holds the tasks that it was given: as many, and each of them.
pub proof fn lemma_ordering_keeps_tasks(ordered: Seq<TaskView>, tasks: Seq<TaskView>)
    requires
        is_ordering_of(ordered, tasks),
    ensures
        ordered.len() == tasks.len(),
        forall|i: int| 0 <= i < ordered.len() ==> tasks.contains(#[trigger] ordered[i]),
        forall|i: int| 0 <= i < tasks.len() ==> ordered.contains(#[trigger] tasks[i]),
{
    vstd::seq_lib::to_multiset_len(ordered);
    vstd::seq_lib::to_multiset_len(tasks);
    assert forall|i: int| 0 <= i < ordered.len() implies tasks.contains(#[trigger] ordered[i]) by {
        assert(ordered.contains(ordered[i]));
        vstd::seq_lib::to_multiset_contains(ordered, ordered[i]);
        vstd::seq_lib::to_multiset_contains(tasks, ordered[i]);
    }
    assert forall|i: int| 0 <= i < tasks.len() implies ordered.contains(#[trigger] tasks[i]) by {
        assert(tasks.contains(tasks[i]));
        vstd::seq_lib::to_multiset_contains(ordered, tasks[i]);
        vstd::seq_lib::to_multiset_contains(tasks, tasks[i]);
    }
}

/// The display order that is worked out task by task is a display order.
pub proof fn lemma_display_order(tasks: Seq<TaskView>)
    ensures
        is_ordering_of(display_order(tasks), tasks),
    decreases tasks.len(),
{
    if tasks.len() > 0 {
        let rest = tasks.drop_first();
        lemma_display_order(rest);
        lemma_placed_first(display_order(rest), tasks.first());
        lemma_ordering_extends(display_order(tasks), display_order(rest), rest, tasks.first());
        assert(seq![tasks.first()] + rest =~= tasks);
    }
}

/// Whatever is `tasks` in display order is the sequence that `display_order`
/// works out.
pub proof fn lemma_ordering_is_display_order(ordered: Seq<TaskView>, tasks: Seq<TaskView>)
    requires
        is_ordering_of(ordered, tasks),
    ensures
        ordered == display_order(tasks),
{
    lemma_display_order(tasks);
    lemma_ordering_unique(ordered, display_order(tasks), tasks);
}

/// A task is put in front of the first task that does not have to stand in
/// front of it: at `at`, where every task in front of `at` has to stand in
/// front of it and the task at `at`, if there is one, has not.
pub proof fn lemma_placed_first_at(ordered: Seq<TaskView>, task: TaskView, at: int)
    requires
        0 <= at <= ordered.len(),
        forall|i: int| 0 <= i < at ==> ranks_before(#[trigger] ordered[i], task),
        at < ordered.len() ==> !ranks_before(ordered[at], task),
    ensures
        placed_first(ordered, task) == ordered.insert(at, task),
    decreases at,
{
    if at == 0 {
        assert(seq![task] + ordered =~= ordered.insert(0, task));
    } else {
        let rest = ordered.drop_first();
        assert(ranks_before(ordered[0], task));
        assert forall|i: int| 0 <= i < at - 1 implies ranks_before(#[trigger] rest[i], task) by {
            assert(ranks_before(ordered[i + 1], task));
        }
        lemma_placed_first_at(rest, task, at - 1);
        assert(seq![ordered.first()] + rest.insert(at - 1, task) =~= ordered.insert(at, task));
    }
}

/// Putting a task into ordered tasks gives the display order of the task
/// and those tasks.
pub proof fn lemma_placed_first(ordered: Seq<TaskView>, task: TaskView)
    requires
        is_ordered(ordered),
    ensures
        is_ordering_of(placed_first(ordered, task), seq![task] + ordered),
    decreases ordered.len(),
{
    if ordered.len() > 0 && ranks_before(ordered.first(), task) {
        let first = ordered.first();
        let rest = ordered.drop_first();
        let inner = placed_first(rest, task);
        let placed = seq![first] + inner;
        assert forall|i: int, j: int| 0 <= i < j < rest.len() implies in_order(rest[i], rest[j]) by {
            assert(in_order(ordered[i + 1], ordered[j + 1]));
        }
        lemma_placed_first(rest, task);
        lemma_ordering_keeps_tasks(inner, seq![task] + rest);
        assert forall|i: int, j: int| 0 <= i < j < placed.len() implies in_order(
            placed[i],
            placed[j],
        ) by {
            if i == 0 {
                assert((seq![task] + rest).contains(inner[j - 1]));
                let at = choose|at: int|
                    0 <= at < (seq![task] + rest).len() && (seq![task] + rest)[at] == inner[j - 1];
                if at > 0 {
                    assert(in_order(ordered[0], ordered[at]));
                }
            } else {
                assert(in_order(inner[i - 1], inner[j - 1]));
            }
        }
        assert(seq![task] + ordered =~= seq![task] + (seq![first] + rest));
        vstd::seq_lib::lemma_multiset_commutative(seq![first], inner);
        vstd::seq_lib::lemma_multiset_commutative(seq![task], rest);
        vstd::seq_lib::lemma_multiset_commutative(seq![task], seq![first] + rest);
        vstd::seq_lib::lemma_multiset_commutative(seq![first], rest);
        assert(placed.to_multiset() =~= (seq![task] + ordered).to_multiset());
        assert forall|complete: bool, date: Date| #[trigger]
            of_rank(placed, complete, date) == of_rank(seq![task] + ordered, complete, date) by {
            let rank = has_rank(complete, date);
            assert(of_rank(inner, complete, date) == of_rank(seq![task] + rest, complete, date));
            inner.lemma_filter_prepend(first, rank);
            rest.lemma_filter_prepend(task, rank);
            (seq![first] + rest).lemma_filter_prepend(task, rank);
            rest.lemma_filter_prepend(first, rank);
            assert(!(rank(first) && rank(task)));
            assert(of_rank(placed, complete, date) =~= of_rank(
                seq![task] + (seq![first] + rest),
                complete,
                date,
            ));
        }
    } else {
        let placed = seq![task] + ordered;
        assert forall|i: int, j: int| 0 <= i < j < placed.len() implies in_order(
            placed[i],
            placed[j],
        ) by {
            if i == 0 {
                if j > 1 {
                    assert(in_order(ordered[0], ordered[j - 1]));
                }
            } else {
                assert(in_order(ordered[i - 1], ordered[j - 1]));
            }
        }
    }
}

/// Ordering what is already in order, with one more task in front of it,
/// orders the whole.
pub proof fn lemma_ordering_extends(
    ordered: Seq<TaskView>,
    inner: Seq<TaskView>,
    tasks: Seq<TaskView>,
    task: TaskView,
)
    requires
        is_ordering_of(inner, tasks),
        is_ordering_of(ordered, seq![task] + inner),
    ensures
        is_ordering_of(ordered, seq![task] + tasks),
{
    vstd::seq_lib::lemma_multiset_commutative(seq![task], inner);
    vstd::seq_lib::lemma_multiset_commutative(seq![task], tasks);
    assert forall|complete: bool, date: Date| #[trigger]
        of_rank(ordered, complete, date) == of_rank(seq![task] + tasks, complete, date) by {
        assert(of_rank(inner, complete, date) == of_rank(tasks, complete, date));
        assert(of_rank(ordered, complete, date) == of_rank(seq![task] + inner, complete, date));
        inner.lemma_filter_prepend(task, has_rank(complete, date));
        tasks.lemma_filter_prepend(task, has_rank(complete, date));
    }
}

/// Ordering what is already in order, with one more task behind it, orders
/// the whole.
pub proof fn lemma_ordering_extends_behind(
    ordered: Seq<TaskView>,
    inner: Seq<TaskView>,
    tasks: Seq<TaskView>,
    task: TaskView,
)
    requires
        is_ordering_of(inner, tasks),
        is_ordering_of(ordered, inner.push(task)),
    ensures
        is_ordering_of(ordered, tasks.push(task)),
{
    vstd::seq_lib::to_multiset_build(inner, task);
    vstd::seq_lib::to_multiset_build(tasks, task);
    assert forall|complete: bool, date: Date| #[trigger]
        of_rank(ordered, complete, date) == of_rank(tasks.push(task), complete, date) by {
        assert(of_rank(inner, complete, date) == of_rank(tasks, complete, date));
        assert(of_rank(ordered, complete, date) == of_rank(inner.push(task), complete, date));
        inner.lemma_filter_push(task, has_rank(complete, date));
        tasks.lemma_filter_push(task, has_rank(complete, date));
    }
}

/// Tasks picked out of tasks in display order are in display order.
pub proof fn lemma_filter_keeps_order(tasks: Seq<TaskView>, test: spec_fn(TaskView) -> bool)
    requires
        is_ordered(tasks),
    ensures
        is_ordered(tasks.filter(test)),
    decreases tasks.len(),
{
    reveal(Seq::filter);
    if tasks.len() > 0 {
        let front = tasks.drop_last();
        lemma_filter_keeps_order(front, test);
        let kept = front.filter(test);
        if test(tasks.last()) {
            assert forall|i: int, j: int| 0 <= i < j < kept.len() + 1 implies in_order(
                kept.push(tasks.last())[i],
                kept.push(tasks.last())[j],
            ) by {
                if j == kept.len() {
                    assert(kept.contains(kept[i]));
                    front.lemma_filter_contains_rev(test, kept[i]);
                    let at = choose|at: int| 0 <= at < front.len() && front[at] == kept[i];
                    assert(in_order(tasks[at], tasks[tasks.len() - 1]));
                } else {
                    assert(in_order(kept[i], kept[j]));
                }
            }
        }
    }
}

/// Two tasks that are picked out of a sequence stand among the picked ones in
/// the order that they have in the sequence.
proof fn lemma_picked_in_order(
    tasks: Seq<TaskView>,
    test: spec_fn(TaskView) -> bool,
    i: int,
    j: int,
) -> (at: (int, int))
    requires
        0 <= i < j < tasks.len(),
        test(tasks[i]),
        test(tasks[j]),
    ensures
        0 <= at.0 < at.1 < tasks.filter(test).len(),
        tasks.filter(test)[at.0] == tasks[i],
        tasks.filter(test)[at.1] == tasks[j],
    decreases tasks.len(),
{
    reveal(Seq::filter);
    let front = tasks.drop_last();
    let kept = front.filter(test);
    if j < tasks.len() - 1 {
        let at = lemma_picked_in_order(front, test, i, j);
        at
    } else {
        front.lemma_filter_contains(test, i);
        let x = choose|x: int| 0 <= x < kept.len() && kept[x] == front[i];
        (x, kept.len() as int)
    }
}

/// Two of the tasks that are picked out of a sequence stand in the sequence
/// in the order that they have among the picked ones.
proof fn lemma_picked_from(
    tasks: Seq<TaskView>,
    test: spec_fn(TaskView) -> bool,
    x: int,
    y: int,
) -> (at: (int, int))
    requires
        0 <= x < y < tasks.filter(test).len(),
    ensures
        0 <= at.0 < at.1 < tasks.len(),
        tasks[at.0] == tasks.filter(test)[x],
        tasks[at.1] == tasks.filter(test)[y],
    decreases tasks.len(),
{
    reveal(Seq::filter);
    let front = tasks.drop_last();
    let kept = front.filter(test);
    if y < kept.len() {
        let at = lemma_picked_from(front, test, x, y);
        at
    } else {
        assert(kept.contains(kept[x]));
        front.lemma_filter_contains_rev(test, kept[x]);
        let a = choose|a: int| 0 <= a < front.len() && front[a] == kept[x];
        (a, tasks.len() - 1)
    }
}

/// The tasks of a rank in a sequence with a last task: those in front of the
/// last, and the last where it has the rank.
proof fn lemma_rank_of_last(tasks: Seq<TaskView>, complete: bool, date: Date)
    requires
        tasks.len() > 0,
    ensures
        of_rank(tasks, complete, date) == if has_rank(complete, date)(tasks.last()) {
            of_rank(tasks.drop_last(), complete, date).push(tasks.last())
        } else {
            of_rank(tasks.drop_last(), complete, date)
        },
{
    reveal(Seq::filter);
}

/// Where a sequence has tasks of a rank, one of its tasks has that rank.
proof fn lemma_rank_present(tasks: Seq<TaskView>, complete: bool, date: Date) -> (at: int)
    requires
        of_rank(tasks, complete, date).len() > 0,
    ensures
        0 <= at < tasks.len(),
        has_rank(complete, date)(tasks[at]),
{
    let kept = of_rank(tasks, complete, date);
    tasks.lemma_filter_pred(has_rank(complete, date), 0);
    assert(kept.contains(kept[0]));
    tasks.lemma_filter_contains_rev(has_rank(complete, date), kept[0]);
    choose|at: int| 0 <= at < tasks.len() && tasks[at] == kept[0]
}

/// In two ordered sequences with the same tasks of each rank, the last task
/// of the one may stand in front of the last task of the other.
proof fn lemma_last_in_order(a: Seq<TaskView>, b: Seq<TaskView>)
    requires
        a.len() > 0,
        b.len() > 0,
        is_ordered(b),
        forall|complete: bool, date: Date| #[trigger]
            of_rank(a, complete, date) == of_rank(b, complete, date),
    ensures
        in_order(a.last(), b.last()),
{
    let last = a.last();
    lemma_rank_of_last(a, last.complete, last.date);
    assert(of_rank(a, last.complete, last.date) == of_rank(b, last.complete, last.date));
    let at = lemma_rank_present(b, last.complete, last.date);
    if at < b.len() - 1 {
        assert(in_order(b[at], b[b.len() - 1]));
    }
}

/// Two ordered sequences with the same tasks of each rank are the same.
proof fn lemma_same_ranks(a: Seq<TaskView>, b: Seq<TaskView>)
    requires
        is_ordered(a),
        is_ordered(b),
        forall|complete: bool, date: Date| #[trigger]
            of_rank(a, complete, date) == of_rank(b, complete, date),
    ensures
        a == b,
    decreases a.len() + b.len(),
{
    if a.len() == 0 && b.len() == 0 {
        assert(a =~= b);
    } else if a.len() == 0 {
        lemma_rank_of_last(b, b.last().complete, b.last().date);
        assert(of_rank(a, b.last().complete, b.last().date) == of_rank(
            b,
            b.last().complete,
            b.last().date,
        ));
        a.lemma_filter_len(has_rank(b.last().complete, b.last().date));
    } else if b.len() == 0 {
        lemma_rank_of_last(a, a.last().complete, a.last().date);
        assert(of_rank(a, a.last().complete, a.last().date) == of_rank(
            b,
            a.last().complete,
            a.last().date,
        ));
        b.lemma_filter_len(has_rank(a.last().complete, a.last().date));
    } else {
        let front_a = a.drop_last();
        let front_b = b.drop_last();
        lemma_last_in_order(a, b);
        assert forall|complete: bool, date: Date| #[trigger]
            of_rank(b, complete, date) == of_rank(a, complete, date) by {
            assert(of_rank(a, complete, date) == of_rank(b, complete, date));
        }
        lemma_last_in_order(b, a);
        assert(a.last().complete == b.last().complete);
        assert(a.last().date == b.last().date);
        assert forall|complete: bool, date: Date| #[trigger]
            of_rank(front_a, complete, date) == of_rank(front_b, complete, date) by {
            lemma_rank_of_last(a, complete, date);
            lemma_rank_of_last(b, complete, date);
            assert(of_rank(a, complete, date) == of_rank(b, complete, date));
            if has_rank(complete, date)(a.last()) {
                let kept_a = of_rank(front_a, complete, date);
                let kept_b = of_rank(front_b, complete, date);
                assert(kept_a.push(a.last()).drop_last() =~= kept_a);
                assert(kept_b.push(b.last()).drop_last() =~= kept_b);
            }
        }
        lemma_rank_of_last(a, a.last().complete, a.last().date);
        lemma_rank_of_last(b, a.last().complete, a.last().date);
        assert(of_rank(a, a.last().complete, a.last().date) == of_rank(
            b,
            a.last().complete,
            a.last().date,
        ));
        assert(of_rank(front_a, a.last().complete, a.last().date).push(a.last()).last()
            == a.last());
        assert(of_rank(front_b, a.last().complete, a.last().date).push(b.last()).last()
            == b.last());
        assert(a.last() == b.last());
        lemma_same_ranks(front_a, front_b);
        assert(a =~= front_a.push(a.last()));
        assert(b =~= front_b.push(b.last()));
    }
}

} // verus!
