//! What the table's operations promise together: where a new task lands,
//! where a dragged task lands, and which operations undo one another.

use vstd::prelude::*;
use vstd::multiset::Multiset;
use vstd::relations::sorted_by;
use crate::db::{
    new_order, not_id, open_ids, other_id, still_open, without_completed, without_task,
    completed_in, has_task, min_open_order, new_task_view, priority_toggled_in, repositioned,
    restored_in, table_wf, top_sort_order,
};
use crate::listing::{
    all_positions, is_listed, keep_of, lemma_listing_positions, lemma_no_duplicates_filter,
    lemma_filter_no_duplicates, lemma_order_total,
    listed_positions, listing, listing_positions, order_of, Listing, RowView,
};
use crate::model::{ColumnType, TaskView};

verus! {

broadcast use vstd::seq_lib::group_seq_properties, vstd::seq_lib::group_filter_ensures;

/// A sorted arrangement of exactly the listed positions is the listing.
pub proof fn lemma_listing_is(rows: Seq<RowView>, which: Listing, cand: Seq<usize>)
    requires
        rows.len() <= usize::MAX,
        sorted_by(cand, order_of(rows, which)),
        cand.to_multiset() == listed_positions(rows, which).to_multiset(),
    ensures
        listing_positions(rows, which) == cand,
{
    lemma_listing_positions(rows, which);
    lemma_order_total(rows, which);
    vstd::seq_lib::lemma_sorted_unique(listing_positions(rows, which), cand, order_of(rows, which));
}

/// The least open number of a section bounds every open task of it, and
/// there is none exactly when the section has no open task.
pub proof fn lemma_min_open_order(rows: Seq<RowView>, column: ColumnType)
    ensures
        match min_open_order(rows, column) {
            None => forall|i: int|
                0 <= i < rows.len() ==> !is_listed(Listing::Active(column), #[trigger] rows[i]),
            Some(m) => forall|i: int|
                0 <= i < rows.len() && is_listed(Listing::Active(column), #[trigger] rows[i]) ==> m
                    <= rows[i].sort_order,
        },
    decreases rows.len(),
{
    if rows.len() > 0 {
        lemma_min_open_order(rows.drop_last(), column);
        assert forall|i: int| 0 <= i < rows.len() - 1 implies rows[i] == rows.drop_last()[i] by {}
    }
}

/// Appending a row that a read does not return leaves that read unchanged.
pub proof fn lemma_push_unlisted(rows: Seq<RowView>, r: RowView, which: Listing)
    requires
        rows.len() < usize::MAX,
        !is_listed(which, r),
    ensures
        listing(rows.push(r), which) == listing(rows, which),
{
    let after = rows.push(r);
    let n = rows.len();
    assert(all_positions(n + 1) =~= all_positions(n).push(n as usize));
    all_positions(n).lemma_filter_push(n as usize, keep_of(after, which));
    assert(all_positions(n).filter(keep_of(after, which)) =~= all_positions(n).filter(
        keep_of(rows, which),
    )) by {
        lemma_filter_agree(all_positions(n), keep_of(after, which), keep_of(rows, which));
    }
    let cand = listing_positions(rows, which);
    lemma_listing_positions(rows, which);
    assert(sorted_by(cand, order_of(after, which))) by {
        assert forall|a: int, b: int| 0 <= a < b < cand.len() implies #[trigger] order_of(
            after,
            which,
        )(cand[a], cand[b]) by {
            assert(order_of(rows, which)(cand[a], cand[b]));
            assert(after[cand[a] as int] == rows[cand[a] as int]);
            assert(after[cand[b] as int] == rows[cand[b] as int]);
        }
    }
    lemma_listing_is(after, which, cand);
    assert(listing(after, which) =~= listing(rows, which)) by {
        assert forall|k: int| 0 <= k < cand.len() implies after[cand[k] as int] == rows[cand[k] as int] by {}
    }
}

/// Two filters that agree on every element give the same result.
pub proof fn lemma_filter_agree(s: Seq<usize>, p: spec_fn(usize) -> bool, q: spec_fn(usize) -> bool)
    requires
        forall|k: int| 0 <= k < s.len() ==> p(#[trigger] s[k]) == q(s[k]),
    ensures
        s.filter(p) == s.filter(q),
    decreases s.len(),
{
    reveal(Seq::filter);
    if s.len() > 0 {
        lemma_filter_agree(s.drop_last(), p, q);
    }
}

/// A new task lands at the top of its section, above everything already
/// open there; every other read is unchanged. (When the top of the section
/// is already numbered `i64::MIN` the new task is filed at `0` instead, and
/// this does not hold.)
pub proof fn lemma_new_task_on_top(
    rows: Seq<RowView>,
    id: Seq<char>,
    now: i64,
    title: Seq<char>,
    is_priority: bool,
    column: ColumnType,
    which: Listing,
)
    requires
        table_wf(rows),
        rows.len() < usize::MAX,
        !has_task(rows, id),
        min_open_order(rows, column) != Some(i64::MIN),
    ensures
        ({
            let t = new_task_view(id, title, is_priority, column, now);
            let after = rows.push(RowView { task: t, sort_order: top_sort_order(rows, column) });
            listing(after, which) == if which == Listing::Active(column) {
                seq![t] + listing(rows, which)
            } else {
                listing(rows, which)
            }
        }),
{
    let t = new_task_view(id, title, is_priority, column, now);
    let r = RowView { task: t, sort_order: top_sort_order(rows, column) };
    let after = rows.push(r);
    if which != Listing::Active(column) {
        lemma_push_unlisted(rows, r, which);
    } else {
        let n = rows.len();
        assert(all_positions(n + 1) =~= all_positions(n).push(n as usize));
        all_positions(n).lemma_filter_push(n as usize, keep_of(after, which));
        lemma_filter_agree(all_positions(n), keep_of(after, which), keep_of(rows, which));
        assert(listed_positions(after, which) == listed_positions(rows, which).push(n as usize));
        let old_ps = listing_positions(rows, which);
        lemma_listing_positions(rows, which);
        lemma_min_open_order(rows, column);
        let cand = seq![n as usize] + old_ps;
        assert(sorted_by(cand, order_of(after, which))) by {
            assert forall|a: int, b: int| 0 <= a < b < cand.len() implies #[trigger] order_of(
                after,
                which,
            )(cand[a], cand[b]) by {
                assert(cand[b] == old_ps[b - 1]);
                assert(after[cand[b] as int] == rows[cand[b] as int]);
                if a == 0 {
                    assert(is_listed(which, rows[old_ps[b - 1] as int]));
                } else {
                    assert(cand[a] == old_ps[a - 1]);
                    assert(order_of(rows, which)(old_ps[a - 1], old_ps[b - 1]));
                    assert(after[cand[a] as int] == rows[cand[a] as int]);
                }
            }
        }
        assert(cand.to_multiset() =~= listed_positions(after, which).to_multiset()) by {
            vstd::seq_lib::lemma_multiset_commutative(seq![n as usize], old_ps);
            assert(seq![n as usize].to_multiset() =~= Multiset::empty().insert(n as usize)) by {
                assert(seq![n as usize] =~= Seq::<usize>::empty().push(n as usize));
            }
        }
        lemma_listing_is(after, which, cand);
        assert(listing(after, which) =~= seq![t] + listing(rows, which)) by {
            assert forall|k: int| 0 <= k < old_ps.len() implies after[old_ps[k] as int]
                == rows[old_ps[k] as int] by {}
        }
    }
}

/// Sequences without repeats that hold the same elements hold them equally often.
pub proof fn lemma_same_elements_same_multiset(a: Seq<usize>, b: Seq<usize>)
    requires
        a.no_duplicates(),
        b.no_duplicates(),
        forall|x: usize| a.contains(x) <==> b.contains(x),
    ensures
        a.to_multiset() == b.to_multiset(),
    decreases a.len(),
{
    if a.len() == 0 {
        if b.len() > 0 {
            assert(b.contains(b[0]));
        }
        assert(b =~= Seq::<usize>::empty());
    } else {
        let x = a.last();
        assert(a.contains(x));
        let m = choose|m: int| 0 <= m < b.len() && b[m] == x;
        let a2 = a.drop_last();
        let b2 = b.remove(m);
        assert forall|y: usize| a2.contains(y) <==> b2.contains(y) by {
            if a2.contains(y) {
                let i = choose|i: int| 0 <= i < a2.len() && a2[i] == y;
                assert(a[i] == y);
                assert(y != x);
                assert(b.contains(y));
                let j = choose|j: int| 0 <= j < b.len() && b[j] == y;
                if j < m {
                    assert(b2[j] == y);
                } else {
                    assert(b2[j - 1] == y);
                }
            }
            if b2.contains(y) {
                let j = choose|j: int| 0 <= j < b2.len() && b2[j] == y;
                if j < m {
                    assert(b[j] == y);
                } else {
                    assert(b[j + 1] == y);
                }
                assert(y != x);
                assert(a.contains(y));
                let i = choose|i: int| 0 <= i < a.len() && a[i] == y;
                assert(a2[i] == y);
            }
        }
        lemma_same_elements_same_multiset(a2, b2);
        assert(a =~= a2.push(x));
        assert(b.to_multiset().count(x) > 0);
        assert(b.to_multiset() =~= b2.to_multiset().insert(x));
    }
}

/// Which row holds the id `x`.
pub open spec fn row_of(rows: Seq<RowView>, x: Seq<char>) -> usize {
    (choose|j: int| 0 <= j < rows.len() && rows[j].task.id == x) as usize
}

/// The ids a section lists are those of its open rows.
pub proof fn lemma_open_ids_are_open_rows(rows: Seq<RowView>, column: ColumnType)
    requires
        table_wf(rows),
    ensures
        forall|k: int|
            0 <= k < open_ids(rows, column).len() ==> {
                let j = row_of(rows, #[trigger] open_ids(rows, column)[k]);
                &&& j < rows.len()
                &&& rows[j as int].task.id == open_ids(rows, column)[k]
                &&& is_listed(Listing::Active(column), rows[j as int])
            },
        forall|j: int|
            0 <= j < rows.len() && is_listed(Listing::Active(column), #[trigger] rows[j])
                ==> open_ids(rows, column).contains(rows[j].task.id),
{
    let which = Listing::Active(column);
    lemma_listing_positions(rows, which);
    let ps = listing_positions(rows, which);
    let ids = open_ids(rows, column);
    assert forall|k: int| 0 <= k < ids.len() implies {
        let j = row_of(rows, #[trigger] ids[k]);
        &&& j < rows.len()
        &&& rows[j as int].task.id == ids[k]
        &&& is_listed(which, rows[j as int])
    } by {
        let p = ps[k];
        assert(rows[p as int].task.id == ids[k]);
        let j = row_of(rows, ids[k]);
        assert(rows[j as int].task.id == ids[k]);
        assert(j == p);
    }
    assert forall|j: int| 0 <= j < rows.len() && is_listed(which, #[trigger] rows[j]) implies ids.contains(
        rows[j].task.id,
    ) by {
        let all = all_positions(rows.len());
        assert(all[j] == j as usize);
        assert(keep_of(rows, which)(all[j]));
        assert(listed_positions(rows, which).contains(j as usize));
        assert(listed_positions(rows, which).to_multiset().count(j as usize) > 0);
        assert(ps.contains(j as usize));
        let k = choose|k: int| 0 <= k < ps.len() && ps[k] == j as usize;
        assert(ids[k] == rows[j].task.id);
    }
}

/// A task dragged into a section lands exactly where the new order puts
/// it: the section then lists its other open tasks in their old order, with
/// the dragged one just above the anchor, or last when there is no anchor.
pub proof fn lemma_drag_lands_above_anchor(
    rows: Seq<RowView>,
    id: Seq<char>,
    column: ColumnType,
    before: Option<Seq<char>>,
)
    requires
        table_wf(rows),
        before != Some(id),
        exists|i: int| 0 <= i < rows.len() && #[trigger] rows[i].task.id == id && !rows[i].task.is_completed,
    ensures
        open_ids(repositioned(rows, id, column, before), column) == new_order(rows, id, column, before),
{
    let which = Listing::Active(column);
    let after = repositioned(rows, id, column, before);
    let order = new_order(rows, id, column, before);
    let all_ids = open_ids(rows, column);
    let rest = all_ids.filter(not_id(id));
    crate::db::lemma_open_ids_distinct(rows, column);
    lemma_filter_no_duplicates(all_ids, not_id(id));
    lemma_open_ids_are_open_rows(rows, column);
    let i0 = choose|i: int| 0 <= i < rows.len() && #[trigger] rows[i].task.id == id && !rows[i].task.is_completed;
    assert(!rest.contains(id));
    let index = crate::db::drop_index(rest, before);
    assert(0 <= index <= rest.len()) by {
        if let Some(a) = before {
            if rest.contains(a) {
                assert(rest[rest.index_of(a)] == a);
            }
        }
    }
    all_ids.lemma_filter_len(not_id(id));
    // Every id of the new order names a row.
    assert forall|k: int| 0 <= k < order.len() implies {
        let j = row_of(rows, #[trigger] order[k]);
        &&& j < rows.len()
        &&& rows[j as int].task.id == order[k]
    } by {
        if k == index {
            assert(rows[i0].task.id == id);
        } else {
            let m = if k < index { k } else { k - 1 };
            assert(order[k] == rest[m]);
            assert(rest.contains(rest[m]));
            all_ids.lemma_filter_contains_rev(not_id(id), rest[m]);
            let q = choose|q: int| 0 <= q < all_ids.len() && all_ids[q] == rest[m];
            assert(all_ids[q] == order[k]);
        }
    }
    assert(order.no_duplicates()) by {
        assert forall|a: int, b: int|
            0 <= a < order.len() && 0 <= b < order.len() && a != b implies order[a] != order[b] by {
            if a == index {
                assert(rest.contains(order[b]));
            } else if b == index {
                assert(rest.contains(order[a]));
            }
        }
    }
    assert(order.len() <= rows.len() + 1);
    let cand = Seq::new(order.len(), |k: int| row_of(rows, order[k]));
    assert forall|k: int| 0 <= k < cand.len() implies after[cand[k] as int].sort_order == k as i64
        && after[cand[k] as int].task.id == order[k] by {
        let j = cand[k] as int;
        assert(rows[j].task.id == order[k]);
        assert(order.contains(order[k]));
        let q = order.index_of(order[k]);
        assert(order[q] == order[k]);
        assert(q == k);
    }
    assert(sorted_by(cand, order_of(after, which))) by {
        assert forall|a: int, b: int| 0 <= a < b < cand.len() implies #[trigger] order_of(after, which)(
            cand[a],
            cand[b],
        ) by {
            assert(after[cand[a] as int].sort_order == a as i64);
            assert(after[cand[b] as int].sort_order == b as i64);
        }
    }
    assert(cand.no_duplicates()) by {
        assert forall|a: int, b: int|
            0 <= a < cand.len() && 0 <= b < cand.len() && a != b implies cand[a] != cand[b] by {
            assert(after[cand[a] as int].task.id == order[a]);
            assert(after[cand[b] as int].task.id == order[b]);
        }
    }
    lemma_no_duplicates_filter(after, which);
    let listed = listed_positions(after, which);
    assert forall|x: usize| cand.contains(x) <==> listed.contains(x) by {
        let all = all_positions(after.len());
        if cand.contains(x) {
            let k = choose|k: int| 0 <= k < cand.len() && cand[k] == x;
            let j = x as int;
            assert(rows[j].task.id == order[k]);
            if k == index {
                assert(rows[j].task.id == id);
                assert(j == i0);
            } else {
                let m = if k < index { k } else { k - 1 };
                assert(order[k] == rest[m]);
                assert(rest.contains(rest[m]));
                all_ids.lemma_filter_contains_rev(not_id(id), rest[m]);
                let q = choose|q: int| 0 <= q < all_ids.len() && all_ids[q] == rest[m];
                let jq = row_of(rows, all_ids[q]);
                assert(rows[jq as int].task.id == rows[j].task.id);
                assert(jq as int == j);
                assert(rows[j].task.id != id);
            }
            assert(is_listed(which, after[j]));
            assert(all[j] == x);
            assert(keep_of(after, which)(all[j]));
        }
        if listed.contains(x) {
            all.lemma_filter_contains_rev(keep_of(after, which), x);
            let j = choose|j: int| 0 <= j < all.len() && all[j] == x;
            assert(x as int == j);
            assert(is_listed(which, after[j]));
            if rows[j].task.id == id {
                assert(order[index] == id);
                let k = index;
                assert(rows[row_of(rows, order[k]) as int].task.id == id);
                assert(row_of(rows, order[k]) as int == j);
                assert(cand[k] == x);
            } else {
                assert(is_listed(which, rows[j]));
                assert(all_ids.contains(rows[j].task.id));
                let q = choose|q: int| 0 <= q < all_ids.len() && all_ids[q] == rows[j].task.id;
                assert(not_id(id)(all_ids[q]));
                assert(rest.contains(rows[j].task.id));
                let m = choose|m: int| 0 <= m < rest.len() && rest[m] == rows[j].task.id;
                let k = if m < index { m } else { m + 1 };
                assert(order[k] == rows[j].task.id);
                assert(rows[row_of(rows, order[k]) as int].task.id == rows[j].task.id);
                assert(row_of(rows, order[k]) as int == j);
                assert(cand[k] == x);
            }
        }
    }
    lemma_same_elements_same_multiset(cand, listed);
    lemma_listing_is(after, which, cand);
    assert(open_ids(after, column) =~= order);
}

/// Keeping some elements of a sorted sequence keeps it sorted.
pub proof fn lemma_filter_sorted(s: Seq<usize>, leq: spec_fn(usize, usize) -> bool, keep: spec_fn(usize) -> bool)
    requires
        sorted_by(s, leq),
    ensures
        sorted_by(s.filter(keep), leq),
    decreases s.len(),
{
    reveal(Seq::filter);
    if s.len() > 0 {
        let init = s.drop_last();
        assert(sorted_by(init, leq));
        lemma_filter_sorted(init, leq, keep);
        let f = init.filter(keep);
        if keep(s.last()) {
            assert forall|a: int, b: int| 0 <= a < b < f.len() + 1 implies #[trigger] leq(
                f.push(s.last())[a],
                f.push(s.last())[b],
            ) by {
                if b == f.len() {
                    assert(f.contains(f[a]));
                    init.lemma_filter_contains_rev(keep, f[a]);
                    let i = choose|i: int| 0 <= i < init.len() && init[i] == f[a];
                    assert(leq(s[i], s[s.len() - 1]));
                }
            }
        }
    }
}

pub open spec fn task_of(rows: Seq<RowView>) -> spec_fn(usize) -> TaskView {
    |j: usize| rows[j as int].task
}

pub open spec fn other_task(id: Seq<char>) -> spec_fn(TaskView) -> bool {
    |t: TaskView| t.id != id
}

pub open spec fn kept_at(rows: Seq<RowView>, keep: spec_fn(TaskView) -> bool) -> spec_fn(usize) -> bool {
    |j: usize| keep(rows[j as int].task)
}

pub open spec fn row_not_named(rows: Seq<RowView>, id: Seq<char>) -> spec_fn(usize) -> bool {
    kept_at(rows, other_task(id))
}

/// Filtering positions by their task and then reading the tasks is reading
/// the tasks and then filtering them.
pub proof fn lemma_filter_then_read(s: Seq<usize>, rows: Seq<RowView>, keep: spec_fn(TaskView) -> bool)
    ensures
        s.filter(kept_at(rows, keep)).map_values(task_of(rows)) == s.map_values(task_of(rows)).filter(
            keep,
        ),
    decreases s.len(),
{
    reveal(Seq::filter);
    if s.len() > 0 {
        let init = s.drop_last();
        lemma_filter_then_read(init, rows, keep);
        assert(s.map_values(task_of(rows)).drop_last() =~= init.map_values(task_of(rows)));
        if kept_at(rows, keep)(s.last()) {
            assert(s.filter(kept_at(rows, keep)).map_values(task_of(rows)) =~= init.filter(
                kept_at(rows, keep),
            ).map_values(task_of(rows)).push(rows[s.last() as int].task));
        }
    }
}

/// When one task stops being returned by a read and no other row changes,
/// the read returns what it returned before, without that task.
pub proof fn lemma_unlist_one(rows: Seq<RowView>, after: Seq<RowView>, id: Seq<char>, which: Listing)
    requires
        table_wf(rows),
        after.len() == rows.len(),
        forall|j: int|
            0 <= j < rows.len() && (#[trigger] rows[j]).task.id != id ==> (is_listed(which, after[j])
                <==> is_listed(which, rows[j])) && (is_listed(which, rows[j]) ==> after[j] == rows[j]),
        forall|j: int| 0 <= j < rows.len() && (#[trigger] rows[j]).task.id == id ==> !is_listed(which, after[j]),
    ensures
        listing(after, which) == listing(rows, which).filter(other_task(id)),
{
    let ps = listing_positions(rows, which);
    lemma_listing_positions(rows, which);
    let cand = ps.filter(row_not_named(rows, id));
    lemma_filter_sorted(ps, order_of(rows, which), row_not_named(rows, id));
    assert forall|k: int| 0 <= k < cand.len() implies (#[trigger] cand[k]) < rows.len() && after[cand[k] as int]
        == rows[cand[k] as int] by {
        assert(cand.contains(cand[k]));
        ps.lemma_filter_contains_rev(row_not_named(rows, id), cand[k]);
        assert(row_not_named(rows, id)(cand[k]));
        assert(is_listed(which, rows[cand[k] as int]));
    }
    assert(sorted_by(cand, order_of(after, which))) by {
        assert forall|a: int, b: int| 0 <= a < b < cand.len() implies #[trigger] order_of(after, which)(
            cand[a],
            cand[b],
        ) by {
            assert(order_of(rows, which)(cand[a], cand[b]));
        }
    }
    lemma_filter_no_duplicates(ps, row_not_named(rows, id));
    lemma_no_duplicates_filter(after, which);
    let listed = listed_positions(after, which);
    assert forall|x: usize| cand.contains(x) <==> listed.contains(x) by {
        let all = all_positions(rows.len());
        if cand.contains(x) {
            ps.lemma_filter_contains_rev(row_not_named(rows, id), x);
            let k = choose|k: int| 0 <= k < ps.len() && ps[k] == x;
            assert(row_not_named(rows, id)(x));
            assert(is_listed(which, rows[x as int]));
            assert(all[x as int] == x);
            assert(keep_of(after, which)(all[x as int]));
        }
        if listed.contains(x) {
            all.lemma_filter_contains_rev(keep_of(after, which), x);
            let j = choose|j: int| 0 <= j < all.len() && all[j] == x;
            assert(is_listed(which, after[j]));
            assert(rows[j].task.id != id);
            assert(keep_of(rows, which)(all[j]));
            assert(listed_positions(rows, which).contains(x));
            assert(listed_positions(rows, which).to_multiset().count(x) > 0);
            assert(ps.contains(x));
            let k = choose|k: int| 0 <= k < ps.len() && ps[k] == x;
            assert(row_not_named(rows, id)(ps[k]));
        }
    }
    lemma_same_elements_same_multiset(cand, listed);
    lemma_listing_is(after, which, cand);
    lemma_filter_then_read(ps, rows, other_task(id));
    assert(listing(after, which) =~= cand.map_values(task_of(rows)));
    assert(listing(rows, which) =~= ps.map_values(task_of(rows)));
}

/// Checking a task off takes it out of its section and leaves the order of
/// the rest alone.
pub proof fn lemma_complete_leaves_section(rows: Seq<RowView>, id: Seq<char>, now: i64, column: ColumnType)
    requires
        table_wf(rows),
    ensures
        listing(completed_in(rows, id, now), Listing::Active(column)) == listing(
            rows,
            Listing::Active(column),
        ).filter(other_task(id)),
{
    lemma_unlist_one(rows, completed_in(rows, id, now), id, Listing::Active(column));
}

/// Restoring a task takes it off the completed list and leaves the order of
/// the rest alone.
pub proof fn lemma_restore_leaves_completed(rows: Seq<RowView>, id: Seq<char>)
    requires
        table_wf(rows),
    ensures
        listing(restored_in(rows, id), Listing::Completed) == listing(rows, Listing::Completed).filter(
            other_task(id),
        ),
{
    lemma_unlist_one(rows, restored_in(rows, id), id, Listing::Completed);
}

/// Dragging a task into a section takes it out of the other one and leaves
/// the order there alone.
pub proof fn lemma_drag_leaves_other_section(
    rows: Seq<RowView>,
    id: Seq<char>,
    column: ColumnType,
    other: ColumnType,
    before: Option<Seq<char>>,
)
    requires
        table_wf(rows),
        before != Some(id),
        other != column,
    ensures
        listing(repositioned(rows, id, column, before), Listing::Active(other)) == listing(
            rows,
            Listing::Active(other),
        ).filter(other_task(id)),
{
    let after = repositioned(rows, id, column, before);
    let order = new_order(rows, id, column, before);
    let all_ids = open_ids(rows, column);
    let rest = all_ids.filter(not_id(id));
    lemma_open_ids_are_open_rows(rows, column);
    assert forall|j: int| 0 <= j < rows.len() && (#[trigger] rows[j]).task.id != id implies (is_listed(
        Listing::Active(other),
        after[j],
    ) <==> is_listed(Listing::Active(other), rows[j])) && (is_listed(Listing::Active(other), rows[j])
        ==> after[j] == rows[j]) by {
        if order.contains(rows[j].task.id) && is_listed(Listing::Active(other), rows[j]) {
            let k = choose|k: int| 0 <= k < order.len() && order[k] == rows[j].task.id;
            let index = crate::db::drop_index(rest, before);
            assert(0 <= index <= rest.len()) by {
                if let Some(a) = before {
                    if rest.contains(a) {
                        assert(rest[rest.index_of(a)] == a);
                    }
                }
            }
            assert(k != index);
            let m = if k < index { k } else { k - 1 };
            assert(order[k] == rest[m]);
            assert(rest.contains(rest[m]));
            all_ids.lemma_filter_contains_rev(not_id(id), rest[m]);
            let q = choose|q: int| 0 <= q < all_ids.len() && all_ids[q] == rest[m];
            let jq = row_of(rows, all_ids[q]);
            assert(rows[jq as int].task.id == rows[j].task.id);
            assert(jq as int == j);
        }
    }
    lemma_unlist_one(rows, after, id, Listing::Active(other));
}

pub open spec fn row_keep(keep: spec_fn(TaskView) -> bool) -> spec_fn(RowView) -> bool {
    |r: RowView| keep(r.task)
}

pub open spec fn open_task() -> spec_fn(TaskView) -> bool {
    |t: TaskView| !t.is_completed
}

/// How many kept rows come before position `i`: where row `i` lands once the
/// others are dropped.
pub open spec fn kept_before(rows: Seq<RowView>, keep: spec_fn(TaskView) -> bool, i: int) -> nat {
    rows.take(i).filter(row_keep(keep)).len()
}

proof fn lemma_kept_before_step(rows: Seq<RowView>, keep: spec_fn(TaskView) -> bool, i: int)
    requires
        0 <= i < rows.len(),
    ensures
        kept_before(rows, keep, i + 1) == kept_before(rows, keep, i) + if keep(rows[i].task) {
            1int
        } else {
            0int
        },
{
    assert(rows.take(i + 1) =~= rows.take(i).push(rows[i]));
    rows.take(i).lemma_filter_push(rows[i], row_keep(keep));
}

/// Counting kept rows never goes down, and goes up past a kept row.
proof fn lemma_kept_before_monotone(rows: Seq<RowView>, keep: spec_fn(TaskView) -> bool, i: int, j: int)
    requires
        0 <= i <= j <= rows.len(),
    ensures
        kept_before(rows, keep, i) <= kept_before(rows, keep, j),
        i < j && keep(rows[i].task) ==> kept_before(rows, keep, i) < kept_before(rows, keep, j),
    decreases j - i,
{
    if i < j {
        lemma_kept_before_step(rows, keep, i);
        lemma_kept_before_monotone(rows, keep, i + 1, j);
    }
}

/// A kept row sits, after the filter, at the count of kept rows before it.
proof fn lemma_kept_lands(rows: Seq<RowView>, keep: spec_fn(TaskView) -> bool, i: int)
    requires
        0 <= i < rows.len(),
        keep(rows[i].task),
    ensures
        kept_before(rows, keep, i) < rows.filter(row_keep(keep)).len(),
        rows.filter(row_keep(keep))[kept_before(rows, keep, i) as int] == rows[i],
    decreases rows.len(),
{
    reveal(Seq::filter);
    let init = rows.drop_last();
    if i == rows.len() - 1 {
        assert(rows.take(i) =~= init);
    } else {
        assert(init.take(i) =~= rows.take(i));
        lemma_kept_lands(init, keep, i);
    }
}

/// Every place of the filtered table holds some kept row.
proof fn lemma_kept_onto(rows: Seq<RowView>, keep: spec_fn(TaskView) -> bool, x: int)
    requires
        0 <= x < rows.filter(row_keep(keep)).len(),
    ensures
        exists|i: int|
            0 <= i < rows.len() && keep(rows[i].task) && #[trigger] kept_before(rows, keep, i) == x,
    decreases rows.len(),
{
    reveal(Seq::filter);
    let init = rows.drop_last();
    if x < init.filter(row_keep(keep)).len() {
        lemma_kept_onto(init, keep, x);
        let i = choose|i: int|
            0 <= i < init.len() && keep(init[i].task) && #[trigger] kept_before(init, keep, i) == x;
        assert(init.take(i) =~= rows.take(i));
        assert(kept_before(rows, keep, i) == x);
    } else {
        let i = rows.len() - 1;
        assert(rows.take(i) =~= init);
        assert(kept_before(rows, keep, i) == x);
    }
}

/// Dropping rows from the table drops them from every read and leaves the
/// order of the rest alone.
pub proof fn lemma_listing_after_filter(rows: Seq<RowView>, keep: spec_fn(TaskView) -> bool, which: Listing)
    requires
        rows.len() <= usize::MAX,
    ensures
        listing(rows.filter(row_keep(keep)), which) == listing(rows, which).filter(keep),
{
    let after = rows.filter(row_keep(keep));
    rows.lemma_filter_len(row_keep(keep));
    let ps = listing_positions(rows, which);
    lemma_listing_positions(rows, which);
    let kept = ps.filter(kept_at(rows, keep));
    let g = |i: usize| kept_before(rows, keep, i as int) as usize;
    let cand = kept.map_values(g);
    assert forall|k: int| 0 <= k < kept.len() implies (#[trigger] kept[k]) < rows.len() && keep(
        rows[kept[k] as int].task,
    ) && is_listed(which, rows[kept[k] as int]) && cand[k] as int == kept_before(rows, keep, kept[k] as int)
        && cand[k] < after.len() && after[cand[k] as int] == rows[kept[k] as int] by {
        assert(kept.contains(kept[k]));
        ps.lemma_filter_contains_rev(kept_at(rows, keep), kept[k]);
        assert(kept_at(rows, keep)(kept[k]));
        lemma_kept_lands(rows, keep, kept[k] as int);
    }
    lemma_filter_sorted(ps, order_of(rows, which), kept_at(rows, keep));
    assert(sorted_by(cand, order_of(after, which))) by {
        assert forall|a: int, b: int| 0 <= a < b < cand.len() implies #[trigger] order_of(after, which)(
            cand[a],
            cand[b],
        ) by {
            assert(order_of(rows, which)(kept[a], kept[b]));
            if kept[a] <= kept[b] {
                lemma_kept_before_monotone(rows, keep, kept[a] as int, kept[b] as int);
            }
        }
    }
    lemma_filter_no_duplicates(ps, kept_at(rows, keep));
    assert(cand.no_duplicates()) by {
        assert forall|a: int, b: int| 0 <= a < cand.len() && 0 <= b < cand.len() && a != b implies cand[a]
            != cand[b] by {
            assert(kept[a] != kept[b]);
            if kept[a] < kept[b] {
                lemma_kept_before_monotone(rows, keep, kept[a] as int, kept[b] as int);
            } else {
                lemma_kept_before_monotone(rows, keep, kept[b] as int, kept[a] as int);
            }
        }
    }
    lemma_no_duplicates_filter(after, which);
    let listed = listed_positions(after, which);
    assert forall|x: usize| cand.contains(x) <==> listed.contains(x) by {
        let all = all_positions(after.len());
        if cand.contains(x) {
            let k = choose|k: int| 0 <= k < cand.len() && cand[k] == x;
            assert(is_listed(which, after[x as int]));
            assert(all[x as int] == x);
            assert(keep_of(after, which)(all[x as int]));
        }
        if listed.contains(x) {
            all.lemma_filter_contains_rev(keep_of(after, which), x);
            let j = choose|j: int| 0 <= j < all.len() && all[j] == x;
            lemma_kept_onto(rows, keep, j);
            let i = choose|i: int| 0 <= i < rows.len() && keep(rows[i].task) && #[trigger] kept_before(rows, keep, i) == j;
            lemma_kept_lands(rows, keep, i);
            assert(after[j] == rows[i]);
            assert(is_listed(which, rows[i]));
            let alln = all_positions(rows.len());
            assert(alln[i] == i as usize);
            assert(keep_of(rows, which)(alln[i]));
            assert(listed_positions(rows, which).contains(i as usize));
            assert(listed_positions(rows, which).to_multiset().count(i as usize) > 0);
            assert(ps.contains(i as usize));
            let k0 = choose|k0: int| 0 <= k0 < ps.len() && ps[k0] == i as usize;
            assert(kept_at(rows, keep)(ps[k0]));
            assert(kept.contains(i as usize));
            let k = choose|k: int| 0 <= k < kept.len() && kept[k] == i as usize;
            assert(cand[k] == x);
        }
    }
    lemma_same_elements_same_multiset(cand, listed);
    lemma_listing_is(after, which, cand);
    lemma_filter_then_read(ps, rows, keep);
    assert(listing(after, which) =~= kept.map_values(task_of(rows)));
    assert(listing(rows, which) =~= ps.map_values(task_of(rows)));
}

/// Deleting a task drops it from every read and leaves the order of the rest
/// alone.
pub proof fn lemma_delete_keeps_order(rows: Seq<RowView>, id: Seq<char>, which: Listing)
    requires
        rows.len() <= usize::MAX,
    ensures
        listing(without_task(rows, id), which) == listing(rows, which).filter(other_task(id)),
{
    assert(other_id(id) =~= row_keep(other_task(id)));
    lemma_listing_after_filter(rows, other_task(id), which);
}

/// Everything in `s` passes `keep`, so filtering by it changes nothing.
proof fn lemma_filter_all(s: Seq<TaskView>, keep: spec_fn(TaskView) -> bool)
    requires
        forall|k: int| 0 <= k < s.len() ==> keep(#[trigger] s[k]),
    ensures
        s.filter(keep) == s,
    decreases s.len(),
{
    reveal(Seq::filter);
    if s.len() > 0 {
        lemma_filter_all(s.drop_last(), keep);
        assert(s.drop_last().push(s.last()) =~= s);
    }
}

/// Clearing the completed tasks leaves both sections exactly as they were,
/// and the completed list empty.
pub proof fn lemma_clear_keeps_sections(rows: Seq<RowView>, column: ColumnType)
    requires
        rows.len() <= usize::MAX,
    ensures
        listing(without_completed(rows), Listing::Active(column)) == listing(rows, Listing::Active(column)),
        listing(without_completed(rows), Listing::Completed) == Seq::<TaskView>::empty(),
{
    assert(still_open() =~= row_keep(open_task()));
    lemma_listing_after_filter(rows, open_task(), Listing::Active(column));
    lemma_listing_after_filter(rows, open_task(), Listing::Completed);
    let act = listing(rows, Listing::Active(column));
    let ps = listing_positions(rows, Listing::Active(column));
    lemma_listing_positions(rows, Listing::Active(column));
    assert forall|k: int| 0 <= k < act.len() implies open_task()(#[trigger] act[k]) by {
        assert(act[k] == rows[ps[k] as int].task);
    }
    lemma_filter_all(act, open_task());
    let done = listing(rows, Listing::Completed);
    let qs = listing_positions(rows, Listing::Completed);
    lemma_listing_positions(rows, Listing::Completed);
    assert(done.filter(open_task()) =~= Seq::<TaskView>::empty()) by {
        let f = done.filter(open_task());
        if f.len() > 0 {
            assert(open_task()(f[0]));
            assert(f.contains(f[0]));
            done.lemma_filter_contains_rev(open_task(), f[0]);
            let k = choose|k: int| 0 <= k < done.len() && done[k] == f[0];
            assert(done[k] == rows[qs[k] as int].task);
        }
    }
}

/// The ids a read returns, in its order.
pub open spec fn read_ids(rows: Seq<RowView>, which: Listing) -> Seq<Seq<char>> {
    listing(rows, which).map_values(|t: TaskView| t.id)
}

/// The three reads one after the other: the inbox, the ongoing section, the
/// completed tasks.
pub open spec fn all_reads(rows: Seq<RowView>) -> Seq<Seq<char>> {
    read_ids(rows, Listing::Active(ColumnType::Inbox)) + read_ids(
        rows,
        Listing::Active(ColumnType::Ongoing),
    ) + read_ids(rows, Listing::Completed)
}

/// A read returns exactly the positions of the rows it lists.
pub proof fn lemma_listing_members(rows: Seq<RowView>, which: Listing)
    requires
        rows.len() <= usize::MAX,
    ensures
        forall|j: int|
            0 <= j < rows.len() ==> (listing_positions(rows, which).contains(j as usize) <==> is_listed(
                which,
                #[trigger] rows[j],
            )),
{
    lemma_listing_positions(rows, which);
    let ps = listing_positions(rows, which);
    assert forall|j: int| 0 <= j < rows.len() implies (ps.contains(j as usize) <==> is_listed(
        which,
        #[trigger] rows[j],
    )) by {
        if ps.contains(j as usize) {
            let k = choose|k: int| 0 <= k < ps.len() && ps[k] == j as usize;
            assert(is_listed(which, rows[ps[k] as int]));
        }
        if is_listed(which, rows[j]) {
            let all = all_positions(rows.len());
            assert(all[j] == j as usize);
            assert(keep_of(rows, which)(all[j]));
            assert(listed_positions(rows, which).contains(j as usize));
            assert(listed_positions(rows, which).to_multiset().count(j as usize) > 0);
        }
    }
}

/// The three reads split the table: together they return every stored task
/// exactly once, so no task is in two of them and none is in none.
pub proof fn lemma_reads_partition_table(rows: Seq<RowView>)
    requires
        table_wf(rows),
    ensures
        all_reads(rows).no_duplicates(),
        forall|x: Seq<char>| #[trigger] all_reads(rows).contains(x) <==> has_task(rows, x),
{
    let w1 = Listing::Active(ColumnType::Inbox);
    let w2 = Listing::Active(ColumnType::Ongoing);
    let w3 = Listing::Completed;
    let p1 = listing_positions(rows, w1);
    let p2 = listing_positions(rows, w2);
    let p3 = listing_positions(rows, w3);
    lemma_listing_positions(rows, w1);
    lemma_listing_positions(rows, w2);
    lemma_listing_positions(rows, w3);
    lemma_listing_members(rows, w1);
    lemma_listing_members(rows, w2);
    lemma_listing_members(rows, w3);
    let ps = p1 + p2 + p3;
    let ids = all_reads(rows);
    assert(ids =~= ps.map_values(|i: usize| rows[i as int].task.id));
    // Each position is listed by the read whose part of `ps` holds it.
    assert forall|k: int| 0 <= k < ps.len() implies (#[trigger] ps[k]) < rows.len() && (if k < p1.len() {
        is_listed(w1, rows[ps[k] as int])
    } else if k < p1.len() + p2.len() {
        is_listed(w2, rows[ps[k] as int])
    } else {
        is_listed(w3, rows[ps[k] as int])
    }) by {
        if k < p1.len() {
            assert(ps[k] == p1[k]);
        } else if k < p1.len() + p2.len() {
            assert(ps[k] == p2[k - p1.len()]);
        } else {
            assert(ps[k] == p3[k - p1.len() - p2.len()]);
        }
    }
    assert forall|a: int, b: int| 0 <= a < ids.len() && 0 <= b < ids.len() && a != b implies ids[a]
        != ids[b] by {
        assert(ps[a] < rows.len() && ps[b] < rows.len());
        if ps[a] == ps[b] {
            let n1 = p1.len() as int;
            let n12 = n1 + p2.len();
            if a < n1 && b < n1 {
                assert(p1[a] == p1[b]);
            } else if n1 <= a < n12 && n1 <= b < n12 {
                assert(p2[a - n1] == p2[b - n1]);
            } else if a >= n12 && b >= n12 {
                assert(p3[a - n12] == p3[b - n12]);
            }
        }
    }
    assert forall|x: Seq<char>| #[trigger] ids.contains(x) <==> has_task(rows, x) by {
        if ids.contains(x) {
            let k = choose|k: int| 0 <= k < ids.len() && ids[k] == x;
            assert(rows[ps[k] as int].task.id == x);
        }
        if has_task(rows, x) {
            let j = choose|j: int| 0 <= j < rows.len() && #[trigger] rows[j].task.id == x;
            let r = rows[j];
            if is_listed(w1, r) {
                assert(p1.contains(j as usize));
                let k = choose|k: int| 0 <= k < p1.len() && p1[k] == j as usize;
                assert(ps[k] == j as usize);
                assert(ids[k] == x);
            } else if is_listed(w2, r) {
                assert(p2.contains(j as usize));
                let k = choose|k: int| 0 <= k < p2.len() && p2[k] == j as usize;
                assert(ps[p1.len() + k] == j as usize);
                assert(ids[p1.len() + k] == x);
            } else {
                assert(is_listed(w3, r));
                assert(p3.contains(j as usize));
                let k = choose|k: int| 0 <= k < p3.len() && p3[k] == j as usize;
                assert(ps[p1.len() + p2.len() + k] == j as usize);
                assert(ids[p1.len() + p2.len() + k] == x);
            }
        }
    }
}

/// Dropping a task onto itself changes nothing.
pub proof fn lemma_drop_onto_itself(rows: Seq<RowView>, id: Seq<char>, column: ColumnType)
    ensures
        repositioned(rows, id, column, Some(id)) == rows,
{
}

/// Flipping a task's priority twice gives the table back.
pub proof fn lemma_priority_toggle_twice(rows: Seq<RowView>, id: Seq<char>)
    ensures
        priority_toggled_in(priority_toggled_in(rows, id), id) == rows,
{
    assert(priority_toggled_in(priority_toggled_in(rows, id), id) =~= rows);
}

/// Restoring an open task right after checking it off gives the table back.
pub proof fn lemma_restore_undoes_complete(rows: Seq<RowView>, id: Seq<char>, now: i64)
    requires
        forall|i: int|
            0 <= i < rows.len() && (#[trigger] rows[i]).task.id == id ==> !rows[i].task.is_completed
                && rows[i].task.completed_at is None,
    ensures
        restored_in(completed_in(rows, id, now), id) == rows,
{
    assert(restored_in(completed_in(rows, id, now), id) =~= rows);
}

} // verus!
