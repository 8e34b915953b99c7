//! What the edits that move no task keep: flipping a priority and renaming
//! leave every read in its order, and a drag changes no task but the moved
//! one's column.

use vstd::prelude::*;
use vstd::relations::sorted_by;
use crate::db::{priority_toggled_in, repositioned, retitled_in};
use crate::listing::{
    all_positions, keep_of, lemma_listing_positions, listed_positions, listing, listing_positions,
    order_of, Listing, RowView,
};
use crate::model::{ColumnType, TaskView};
use crate::properties::{lemma_filter_agree, lemma_listing_is, read_ids};

verus! {

/// Two rows that sit in the same place: same id, section, completion,
/// completion time and sort number.
pub open spec fn same_place(a: RowView, b: RowView) -> bool {
    &&& a.task.id == b.task.id
    &&& a.task.column == b.task.column
    &&& a.task.is_completed == b.task.is_completed
    &&& a.task.completed_at == b.task.completed_at
    &&& a.sort_order == b.sort_order
}

/// Two tables whose rows sit in the same places, position by position, are
/// read in the same order: each read lists the same positions, hence the
/// same ids.
pub proof fn lemma_same_places_same_reads(a: Seq<RowView>, b: Seq<RowView>, which: Listing)
    requires
        a.len() == b.len(),
        a.len() <= usize::MAX,
        forall|i: int| 0 <= i < a.len() ==> same_place(#[trigger] a[i], b[i]),
    ensures
        listing_positions(b, which) == listing_positions(a, which),
        read_ids(b, which) == read_ids(a, which),
        listing(b, which).len() == listing(a, which).len(),
        forall|k: int|
            0 <= k < listing(a, which).len() ==> {
                &&& 0 <= listing_positions(a, which)[k] < a.len()
                &&& #[trigger] listing(a, which)[k] == a[listing_positions(a, which)[k] as int].task
                &&& listing(b, which)[k] == b[listing_positions(a, which)[k] as int].task
            },
{
    let all = all_positions(a.len());
    assert forall|k: int| 0 <= k < all.len() implies keep_of(a, which)(#[trigger] all[k]) == keep_of(
        b,
        which,
    )(all[k]) by {
        assert(all[k] as int == k);
        assert(same_place(a[k], b[k]));
    }
    lemma_filter_agree(all, keep_of(a, which), keep_of(b, which));
    assert(listed_positions(a, which) == listed_positions(b, which));
    lemma_listing_positions(a, which);
    let cand = listing_positions(a, which);
    assert forall|i: int, j: int| 0 <= i <= j < cand.len() implies (#[trigger] order_of(b, which)(
        cand[i],
        cand[j],
    )) by {
        assert(order_of(a, which)(cand[i], cand[j]));
        assert(same_place(a[cand[i] as int], b[cand[i] as int]));
        assert(same_place(a[cand[j] as int], b[cand[j] as int]));
    }
    assert(sorted_by(cand, order_of(b, which)));
    lemma_listing_is(b, which, cand);
    assert forall|k: int| 0 <= k < cand.len() implies read_ids(b, which)[k] == read_ids(a, which)[k] by {
        assert(same_place(a[cand[k] as int], b[cand[k] as int]));
    }
    assert(read_ids(b, which) =~= read_ids(a, which));
}

/// Flipping a task's priority moves nothing: every read lists the same ids
/// in the same order, each listed task is unchanged but for its flag, and
/// the flag changes exactly on the named task.
pub proof fn lemma_priority_toggle_keeps_reads(rows: Seq<RowView>, id: Seq<char>, which: Listing)
    requires
        rows.len() <= usize::MAX,
    ensures
        read_ids(priority_toggled_in(rows, id), which) == read_ids(rows, which),
        listing(priority_toggled_in(rows, id), which).len() == listing(rows, which).len(),
        forall|k: int|
            0 <= k < listing(rows, which).len() ==> {
                let before = #[trigger] listing(rows, which)[k];
                let after = listing(priority_toggled_in(rows, id), which)[k];
                &&& after == (TaskView { is_priority: after.is_priority, ..before })
                &&& after.is_priority == (before.is_priority != (before.id == id))
            },
{
    let after = priority_toggled_in(rows, id);
    assert forall|i: int| 0 <= i < rows.len() implies same_place(#[trigger] rows[i], after[i]) by {}
    lemma_same_places_same_reads(rows, after, which);
}

/// Renaming a task moves nothing: every read lists the same ids in the same
/// order, and each listed task is unchanged but for the named one's title.
pub proof fn lemma_retitle_keeps_reads(
    rows: Seq<RowView>,
    id: Seq<char>,
    title: Seq<char>,
    which: Listing,
)
    requires
        rows.len() <= usize::MAX,
    ensures
        read_ids(retitled_in(rows, id, title), which) == read_ids(rows, which),
        listing(retitled_in(rows, id, title), which).len() == listing(rows, which).len(),
        forall|k: int|
            0 <= k < listing(rows, which).len() ==> {
                let before = #[trigger] listing(rows, which)[k];
                let after = listing(retitled_in(rows, id, title), which)[k];
                after == (TaskView {
                    title: if before.id == id {
                        title
                    } else {
                        before.title
                    },
                    ..before
                })
            },
{
    let after = retitled_in(rows, id, title);
    assert forall|i: int| 0 <= i < rows.len() implies same_place(#[trigger] rows[i], after[i]) by {}
    lemma_same_places_same_reads(rows, after, which);
}

/// A drag changes no task but the moved one, and that one only in its
/// section: titles, priorities, completion and times all stay. (A drop onto
/// itself changes nothing at all.)
pub proof fn lemma_reposition_keeps_tasks(
    rows: Seq<RowView>,
    id: Seq<char>,
    column: ColumnType,
    before: Option<Seq<char>>,
)
    ensures
        repositioned(rows, id, column, before).len() == rows.len(),
        forall|i: int|
            0 <= i < rows.len() ==> (#[trigger] repositioned(rows, id, column, before)[i]).task
                == (TaskView {
                column: if rows[i].task.id == id && before != Some(id) {
                    column
                } else {
                    rows[i].task.column
                },
                ..rows[i].task
            }),
{
}

} // verus!
