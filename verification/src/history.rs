//! What the three reads hold after any run of table operations, starting
//! from the empty table.

use vstd::prelude::*;
use crate::db::{
    completed_in, has_task, inserted, new_task_view, other_id, priority_of, priority_toggled_in,
    repositioned, restored_in, retitled_in, still_open, table_wf, top_sort_order,
    without_completed, without_task, lemma_filter_table_wf,
};
use crate::listing::{Listing, RowView};
use crate::model::{ColumnType, TaskView};
use crate::properties::{all_reads, lemma_listing_members, lemma_reads_partition_table, read_ids};

verus! {

broadcast use vstd::seq_lib::group_seq_properties, vstd::seq_lib::group_filter_ensures;

/// One change made to the table through its operations, written with the
/// id and the time that the id source and the clock handed out.
pub enum TableOp {
    Insert { id: Seq<char>, now: i64, title: Seq<char>, is_priority: bool, column: ColumnType },
    Reposition { id: Seq<char>, column: ColumnType, before: Option<Seq<char>> },
    Complete { id: Seq<char>, now: i64 },
    Restore { id: Seq<char> },
    TogglePriority { id: Seq<char> },
    Retitle { id: Seq<char>, title: Seq<char> },
    Delete { id: Seq<char> },
    ClearCompleted,
}

/// The table after one operation, as the operation's own contract gives it.
pub open spec fn apply_op(rows: Seq<RowView>, op: TableOp) -> Seq<RowView> {
    match op {
        TableOp::Insert { id, now, title, is_priority, column } => if has_task(rows, id) {
            rows
        } else {
            rows.push(
                RowView {
                    task: new_task_view(id, title, is_priority, column, now),
                    sort_order: top_sort_order(rows, column),
                },
            )
        },
        TableOp::Reposition { id, column, before } => repositioned(rows, id, column, before),
        TableOp::Complete { id, now } => completed_in(rows, id, now),
        TableOp::Restore { id } => restored_in(rows, id),
        TableOp::TogglePriority { id } => if has_task(rows, id) {
            priority_toggled_in(rows, id)
        } else {
            rows
        },
        TableOp::Retitle { id, title } => retitled_in(rows, id, title),
        TableOp::Delete { id } => without_task(rows, id),
        TableOp::ClearCompleted => without_completed(rows),
    }
}

/// The table that a run of operations leaves, starting from the empty table.
pub open spec fn run_ops(ops: Seq<TableOp>) -> Seq<RowView>
    decreases ops.len(),
{
    if ops.len() == 0 {
        Seq::empty()
    } else {
        apply_op(run_ops(ops.drop_last()), ops.last())
    }
}

/// The ids kept, and among them those checked off, after one more
/// operation: an insert adds its id; checking off a kept id marks it;
/// restoring unmarks it; deleting drops it; clearing drops every marked id.
pub open spec fn sets_after(live: Set<Seq<char>>, done: Set<Seq<char>>, op: TableOp) -> (
    Set<Seq<char>>,
    Set<Seq<char>>,
) {
    match op {
        TableOp::Insert { id, .. } => (live.insert(id), done),
        TableOp::Complete { id, .. } => (live, if live.contains(id) {
            done.insert(id)
        } else {
            done
        }),
        TableOp::Restore { id } => (live, done.remove(id)),
        TableOp::Delete { id } => (live.remove(id), done.remove(id)),
        TableOp::ClearCompleted => (live.difference(done), Set::empty()),
        _ => (live, done),
    }
}

/// The ids a run of operations keeps, and among them those checked off.
pub open spec fn id_sets(ops: Seq<TableOp>) -> (Set<Seq<char>>, Set<Seq<char>>)
    decreases ops.len(),
{
    if ops.len() == 0 {
        (Set::empty(), Set::empty())
    } else {
        let prev = id_sets(ops.drop_last());
        sets_after(prev.0, prev.1, ops.last())
    }
}

/// The ids inserted and not since deleted or cleared.
pub open spec fn live_ids(ops: Seq<TableOp>) -> Set<Seq<char>> {
    id_sets(ops).0
}

/// The ids checked off and not since restored, deleted or cleared.
pub open spec fn done_ids(ops: Seq<TableOp>) -> Set<Seq<char>> {
    id_sets(ops).1
}

/// Some row of the table has id `x` and is checked off.
pub open spec fn is_done(rows: Seq<RowView>, x: Seq<char>) -> bool {
    exists|i: int| 0 <= i < rows.len() && #[trigger] rows[i].task.id == x && rows[i].task.is_completed
}

/// Ids and completion held by the rows of a table, as two sets.
pub open spec fn holds(rows: Seq<RowView>, live: Set<Seq<char>>, done: Set<Seq<char>>) -> bool {
    &&& forall|x: Seq<char>| #[trigger] has_task(rows, x) <==> live.contains(x)
    &&& forall|x: Seq<char>| #[trigger] is_done(rows, x) <==> done.contains(x)
}

/// An operation that keeps every row's id in place, and whose ids and
/// completions therefore stay where they were.
proof fn lemma_same_ids(rows: Seq<RowView>, after: Seq<RowView>)
    requires
        table_wf(rows),
        after.len() == rows.len(),
        forall|i: int| 0 <= i < rows.len() ==> (#[trigger] after[i]).task.id == rows[i].task.id,
    ensures
        table_wf(after),
        forall|x: Seq<char>| #[trigger] has_task(after, x) <==> has_task(rows, x),
{
    assert forall|i: int, j: int|
        0 <= i < after.len() && 0 <= j < after.len() && i != j implies #[trigger] after[i].task.id
        != #[trigger] after[j].task.id by {
        assert(rows[i].task.id != rows[j].task.id);
    }
    assert forall|x: Seq<char>| #[trigger] has_task(after, x) <==> has_task(rows, x) by {
        if has_task(after, x) {
            let i = choose|i: int| 0 <= i < after.len() && #[trigger] after[i].task.id == x;
            assert(rows[i].task.id == x);
        }
        if has_task(rows, x) {
            let i = choose|i: int| 0 <= i < rows.len() && #[trigger] rows[i].task.id == x;
            assert(after[i].task.id == x);
        }
    }
}

/// Same as above, for an operation that also keeps every row's completion.
proof fn lemma_same_ids_and_done(rows: Seq<RowView>, after: Seq<RowView>)
    requires
        table_wf(rows),
        after.len() == rows.len(),
        forall|i: int|
            0 <= i < rows.len() ==> (#[trigger] after[i]).task.id == rows[i].task.id
                && after[i].task.is_completed == rows[i].task.is_completed,
    ensures
        table_wf(after),
        forall|x: Seq<char>| #[trigger] has_task(after, x) <==> has_task(rows, x),
        forall|x: Seq<char>| #[trigger] is_done(after, x) <==> is_done(rows, x),
{
    lemma_same_ids(rows, after);
    assert forall|x: Seq<char>| #[trigger] is_done(after, x) <==> is_done(rows, x) by {
        if is_done(after, x) {
            let i = choose|i: int|
                0 <= i < after.len() && #[trigger] after[i].task.id == x && after[i].task.is_completed;
            assert(rows[i].task.id == x);
        }
        if is_done(rows, x) {
            let i = choose|i: int|
                0 <= i < rows.len() && #[trigger] rows[i].task.id == x && rows[i].task.is_completed;
            assert(after[i].task.id == x);
        }
    }
}

/// Keeping the rows that `keep` admits keeps an id exactly when one of its
/// rows is admitted, and marks it checked off exactly when one of its
/// admitted rows is.
proof fn lemma_kept_rows(rows: Seq<RowView>, keep: spec_fn(RowView) -> bool, x: Seq<char>)
    ensures
        has_task(rows.filter(keep), x) <==> exists|i: int|
            0 <= i < rows.len() && #[trigger] rows[i].task.id == x && keep(rows[i]),
        is_done(rows.filter(keep), x) <==> exists|i: int|
            0 <= i < rows.len() && #[trigger] rows[i].task.id == x && keep(rows[i])
                && rows[i].task.is_completed,
{
    let f = rows.filter(keep);
    if has_task(f, x) {
        let k = choose|k: int| 0 <= k < f.len() && #[trigger] f[k].task.id == x;
        assert(f.contains(f[k]));
        rows.lemma_filter_contains_rev(keep, f[k]);
        let i = choose|i: int| 0 <= i < rows.len() && rows[i] == f[k];
        assert(rows[i].task.id == x);
    }
    if is_done(f, x) {
        let k = choose|k: int| 0 <= k < f.len() && #[trigger] f[k].task.id == x && f[k].task.is_completed;
        assert(f.contains(f[k]));
        rows.lemma_filter_contains_rev(keep, f[k]);
        let i = choose|i: int| 0 <= i < rows.len() && rows[i] == f[k];
        assert(rows[i].task.id == x);
    }
    if exists|i: int| 0 <= i < rows.len() && #[trigger] rows[i].task.id == x && keep(rows[i]) {
        let i = choose|i: int| 0 <= i < rows.len() && #[trigger] rows[i].task.id == x && keep(rows[i]);
        rows.lemma_filter_contains(keep, i);
        let k = choose|k: int| 0 <= k < f.len() && f[k] == rows[i];
        assert(f[k].task.id == x);
    }
    if exists|i: int|
        0 <= i < rows.len() && #[trigger] rows[i].task.id == x && keep(rows[i])
            && rows[i].task.is_completed {
        let i = choose|i: int|
            0 <= i < rows.len() && #[trigger] rows[i].task.id == x && keep(rows[i])
                && rows[i].task.is_completed;
        rows.lemma_filter_contains(keep, i);
        let k = choose|k: int| 0 <= k < f.len() && f[k] == rows[i];
        assert(f[k].task.id == x);
    }
}

/// One operation carries the two sets along with the table.
proof fn lemma_step(rows: Seq<RowView>, live: Set<Seq<char>>, done: Set<Seq<char>>, op: TableOp)
    requires
        table_wf(rows),
        rows.len() + 1 < i64::MAX,
        rows.len() + 1 <= usize::MAX,
        holds(rows, live, done),
    ensures
        table_wf(apply_op(rows, op)),
        apply_op(rows, op).len() <= rows.len() + 1,
        holds(apply_op(rows, op), sets_after(live, done, op).0, sets_after(live, done, op).1),
{
    let after = apply_op(rows, op);
    let (live2, done2) = sets_after(live, done, op);
    match op {
        TableOp::Insert { id, now, title, is_priority, column } => {
            if !has_task(rows, id) {
                let n = rows.len() as int;
                assert(after[n].task.id == id);
                assert forall|i: int, j: int|
                    0 <= i < after.len() && 0 <= j < after.len() && i != j implies #[trigger] after[i].task.id
                    != #[trigger] after[j].task.id by {
                    if i == n {
                        assert(rows[j].task.id != id);
                    } else if j == n {
                        assert(rows[i].task.id != id);
                    } else {
                        assert(rows[i].task.id != rows[j].task.id);
                    }
                }
                assert forall|x: Seq<char>| #[trigger] has_task(after, x) <==> live2.contains(x) by {
                    if has_task(after, x) {
                        let i = choose|i: int| 0 <= i < after.len() && #[trigger] after[i].task.id == x;
                        if i < n {
                            assert(rows[i].task.id == x);
                        }
                    }
                    if has_task(rows, x) {
                        let i = choose|i: int| 0 <= i < rows.len() && #[trigger] rows[i].task.id == x;
                        assert(after[i].task.id == x);
                    }
                }
                assert forall|x: Seq<char>| #[trigger] is_done(after, x) <==> done2.contains(x) by {
                    if is_done(after, x) {
                        let i = choose|i: int|
                            0 <= i < after.len() && #[trigger] after[i].task.id == x
                                && after[i].task.is_completed;
                        assert(i < n);
                        assert(rows[i].task.id == x);
                    }
                    if is_done(rows, x) {
                        let i = choose|i: int|
                            0 <= i < rows.len() && #[trigger] rows[i].task.id == x
                                && rows[i].task.is_completed;
                        assert(after[i].task.id == x);
                    }
                }
            } else {
                assert(live.contains(id));
                assert forall|x: Seq<char>| #[trigger] has_task(after, x) <==> live2.contains(x) by {
                    assert(has_task(rows, x) <==> live.contains(x));
                }
            }
        },
        TableOp::Reposition { id, column, before } => {
            lemma_same_ids_and_done(rows, after);
        },
        TableOp::Complete { id, now } => {
            lemma_same_ids(rows, after);
            assert forall|x: Seq<char>| #[trigger] is_done(after, x) <==> done2.contains(x) by {
                if is_done(after, x) {
                    let i = choose|i: int|
                        0 <= i < after.len() && #[trigger] after[i].task.id == x
                            && after[i].task.is_completed;
                    assert(rows[i].task.id == x);
                    if x != id {
                        assert(is_done(rows, x));
                    } else {
                        assert(has_task(rows, x));
                    }
                }
                if done2.contains(x) {
                    if done.contains(x) {
                        assert(is_done(rows, x));
                        let i = choose|i: int|
                            0 <= i < rows.len() && #[trigger] rows[i].task.id == x
                                && rows[i].task.is_completed;
                        assert(after[i].task.id == x);
                    } else {
                        assert(x == id && has_task(rows, id));
                        let i = choose|i: int| 0 <= i < rows.len() && #[trigger] rows[i].task.id == id;
                        assert(after[i].task.id == x);
                    }
                }
            }
        },
        TableOp::Restore { id } => {
            lemma_same_ids(rows, after);
            assert forall|x: Seq<char>| #[trigger] is_done(after, x) <==> done2.contains(x) by {
                if is_done(after, x) {
                    let i = choose|i: int|
                        0 <= i < after.len() && #[trigger] after[i].task.id == x
                            && after[i].task.is_completed;
                    assert(rows[i].task.id == x);
                    assert(x != id);
                    assert(is_done(rows, x));
                }
                if done2.contains(x) {
                    assert(is_done(rows, x));
                    let i = choose|i: int|
                        0 <= i < rows.len() && #[trigger] rows[i].task.id == x
                            && rows[i].task.is_completed;
                    assert(after[i].task.id == x);
                }
            }
        },
        TableOp::TogglePriority { id } => {
            lemma_same_ids_and_done(rows, after);
        },
        TableOp::Retitle { id, title } => {
            lemma_same_ids_and_done(rows, after);
        },
        TableOp::Delete { id } => {
            lemma_filter_table_wf(rows, other_id(id));
            assert forall|x: Seq<char>| #[trigger] has_task(after, x) <==> live2.contains(x) by {
                lemma_kept_rows(rows, other_id(id), x);
                if has_task(rows, x) && x != id {
                    let i = choose|i: int| 0 <= i < rows.len() && #[trigger] rows[i].task.id == x;
                    assert(other_id(id)(rows[i]));
                }
            }
            assert forall|x: Seq<char>| #[trigger] is_done(after, x) <==> done2.contains(x) by {
                lemma_kept_rows(rows, other_id(id), x);
                if is_done(rows, x) && x != id {
                    let i = choose|i: int|
                        0 <= i < rows.len() && #[trigger] rows[i].task.id == x
                            && rows[i].task.is_completed;
                    assert(other_id(id)(rows[i]));
                }
            }
        },
        TableOp::ClearCompleted => {
            lemma_filter_table_wf(rows, still_open());
            assert forall|x: Seq<char>| #[trigger] has_task(after, x) <==> live2.contains(x) by {
                lemma_kept_rows(rows, still_open(), x);
                if has_task(after, x) {
                    let i = choose|i: int|
                        0 <= i < rows.len() && #[trigger] rows[i].task.id == x && still_open()(rows[i]);
                    assert(has_task(rows, x));
                    if is_done(rows, x) {
                        let j = choose|j: int|
                            0 <= j < rows.len() && #[trigger] rows[j].task.id == x
                                && rows[j].task.is_completed;
                        assert(i != j);
                        assert(rows[i].task.id != rows[j].task.id);
                    }
                }
                if live2.contains(x) {
                    assert(has_task(rows, x) && !is_done(rows, x));
                    let i = choose|i: int| 0 <= i < rows.len() && #[trigger] rows[i].task.id == x;
                    assert(!rows[i].task.is_completed);
                    assert(still_open()(rows[i]));
                }
            }
            assert forall|x: Seq<char>| #[trigger] is_done(after, x) <==> done2.contains(x) by {
                lemma_kept_rows(rows, still_open(), x);
            }
        },
    }
}

/// A run of operations keeps the table well formed, one row at most per
/// operation, and its ids and completions are the two sets of the run.
proof fn lemma_run_ops(ops: Seq<TableOp>)
    requires
        ops.len() < i64::MAX,
        ops.len() <= usize::MAX,
    ensures
        table_wf(run_ops(ops)),
        run_ops(ops).len() <= ops.len(),
        holds(run_ops(ops), live_ids(ops), done_ids(ops)),
    decreases ops.len(),
{
    if ops.len() == 0 {
        let rows = run_ops(ops);
        assert forall|x: Seq<char>| #[trigger] has_task(rows, x) <==> live_ids(ops).contains(x) by {}
        assert forall|x: Seq<char>| #[trigger] is_done(rows, x) <==> done_ids(ops).contains(x) by {}
    } else {
        let prev = ops.drop_last();
        lemma_run_ops(prev);
        lemma_step(run_ops(prev), live_ids(prev), done_ids(prev), ops.last());
    }
}

/// The three reads of a table that a run of operations built from the empty
/// table never repeat an id, so no task is listed twice or in two sections;
/// together they hold exactly the ids inserted and not since deleted or
/// cleared, and the completed read holds exactly those checked off and not
/// since restored, deleted or cleared.
pub proof fn lemma_reads_follow_history(ops: Seq<TableOp>)
    requires
        ops.len() < i64::MAX,
        ops.len() <= usize::MAX,
    ensures
        all_reads(run_ops(ops)).no_duplicates(),
        forall|x: Seq<char>| #[trigger] all_reads(run_ops(ops)).contains(x) <==> live_ids(ops).contains(x),
        forall|x: Seq<char>|
            #[trigger] read_ids(run_ops(ops), Listing::Completed).contains(x) <==> done_ids(ops).contains(x),
{
    let rows = run_ops(ops);
    lemma_run_ops(ops);
    lemma_reads_partition_table(rows);
    lemma_listing_members(rows, Listing::Completed);
    crate::listing::lemma_listing_positions(rows, Listing::Completed);
    let ps = crate::listing::listing_positions(rows, Listing::Completed);
    let ids = read_ids(rows, Listing::Completed);
    assert forall|x: Seq<char>| #[trigger] ids.contains(x) <==> done_ids(ops).contains(x) by {
        if ids.contains(x) {
            let k = choose|k: int| 0 <= k < ids.len() && ids[k] == x;
            assert(rows[ps[k] as int].task.id == x);
            assert(is_done(rows, x));
        }
        if is_done(rows, x) {
            let i = choose|i: int|
                0 <= i < rows.len() && #[trigger] rows[i].task.id == x && rows[i].task.is_completed;
            assert(ps.contains(i as usize));
            let k = choose|k: int| 0 <= k < ps.len() && ps[k] == i as usize;
            assert(ids[k] == x);
        }
    }
}

/// Inserting through `insert_task_at` or `insert_task` is the insert step.
pub proof fn lemma_insert_is_step(
    before: Seq<RowView>,
    after: Seq<RowView>,
    r: Result<TaskView, crate::db::DbError>,
    id: Seq<char>,
    now: i64,
    title: Seq<char>,
    is_priority: bool,
    column: ColumnType,
)
    requires
        inserted(before, after, r, id, now, title, is_priority, column),
    ensures
        after == apply_op(before, TableOp::Insert { id, now, title, is_priority, column }),
{
}

/// Flipping a priority through `toggle_task_priority` is the toggle step.
pub proof fn lemma_toggle_is_step(before: Seq<RowView>, after: Seq<RowView>, id: Seq<char>)
    requires
        priority_of(before, id) is None ==> after == before,
        priority_of(before, id) is Some ==> after == priority_toggled_in(before, id),
    ensures
        after == apply_op(before, TableOp::TogglePriority { id }),
{
}

} // verus!
