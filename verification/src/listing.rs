//! The two ways the task table is read: a section's open tasks in hand-made
//! order, and the completed tasks newest first.

use vstd::prelude::*;
use vstd::relations::{sorted_by, total_ordering};
use crate::model::{ColumnType, Task, TaskView};

verus! {

broadcast use vstd::seq_lib::group_seq_properties, vstd::seq_lib::group_filter_ensures;

/// A row of the task table: the task and the number it is ordered by within
/// its section.
pub struct TaskRow {
    pub task: Task,
    pub sort_order: i64,
}

pub struct RowView {
    pub task: TaskView,
    pub sort_order: i64,
}

impl View for TaskRow {
    type V = RowView;

    open spec fn view(&self) -> RowView {
        RowView { task: self.task@, sort_order: self.sort_order }
    }
}

impl TaskRow {
    pub fn duplicate(&self) -> (r: TaskRow)
        ensures
            r == *self,
    {
        TaskRow { task: self.task.duplicate(), sort_order: self.sort_order }
    }
}

pub open spec fn row_views(rows: Seq<TaskRow>) -> Seq<RowView> {
    rows.map_values(|r: TaskRow| r@)
}

pub open spec fn task_views(tasks: Seq<Task>) -> Seq<TaskView> {
    tasks.map_values(|t: Task| t@)
}

/// Which rows a read returns, and in what order.
#[derive(Debug, Clone, Copy, PartialEq, Eq, Structural)]
pub enum Listing {
    /// The open tasks of one section, by ascending `sort_order`.
    Active(ColumnType),
    /// The completed tasks, by descending completion time.
    Completed,
}

pub open spec fn is_listed(which: Listing, r: RowView) -> bool {
    match which {
        Listing::Active(column) => r.task.column == column && !r.task.is_completed,
        Listing::Completed => r.task.is_completed,
    }
}

/// The completion time a row sorts by; a missing one sorts below every time.
pub open spec fn completion_key(r: RowView) -> int {
    match r.task.completed_at {
        Some(t) => t as int,
        None => i64::MIN - 1,
    }
}

/// Whether row `i` may come before row `j` in the listing. Rows with equal
/// keys keep the order they were stored in (their insertion order), so the
/// relation is a total order on positions.
pub open spec fn precedes(rows: Seq<RowView>, which: Listing, i: usize, j: usize) -> bool {
    match which {
        Listing::Active(_) => {
            let (a, b) = (rows[i as int].sort_order, rows[j as int].sort_order);
            a < b || (a == b && i <= j)
        },
        Listing::Completed => {
            let (a, b) = (completion_key(rows[i as int]), completion_key(rows[j as int]));
            b < a || (a == b && i <= j)
        },
    }
}

pub open spec fn order_of(rows: Seq<RowView>, which: Listing) -> spec_fn(usize, usize) -> bool {
    |i: usize, j: usize| precedes(rows, which, i, j)
}

pub open spec fn keep_of(rows: Seq<RowView>, which: Listing) -> spec_fn(usize) -> bool {
    |i: usize| is_listed(which, rows[i as int])
}

pub open spec fn all_positions(n: nat) -> Seq<usize> {
    Seq::new(n, |i: int| i as usize)
}

/// The positions of the rows a read returns, in table order.
pub open spec fn listed_positions(rows: Seq<RowView>, which: Listing) -> Seq<usize> {
    all_positions(rows.len()).filter(keep_of(rows, which))
}

/// The positions of the rows a read returns, in the order it returns them.
pub open spec fn listing_positions(rows: Seq<RowView>, which: Listing) -> Seq<usize> {
    listed_positions(rows, which).sort_by(order_of(rows, which))
}

/// What a read returns.
pub open spec fn listing(rows: Seq<RowView>, which: Listing) -> Seq<TaskView> {
    listing_positions(rows, which).map_values(|i: usize| rows[i as int].task)
}

pub proof fn lemma_order_total(rows: Seq<RowView>, which: Listing)
    ensures
        total_ordering(order_of(rows, which)),
{
}

/// The positions of a listing are in range, distinct, and sorted.
pub proof fn lemma_listing_positions(rows: Seq<RowView>, which: Listing)
    requires
        rows.len() <= usize::MAX,
    ensures
        sorted_by(listing_positions(rows, which), order_of(rows, which)),
        listing_positions(rows, which).to_multiset() == listed_positions(rows, which).to_multiset(),
        forall|k: int| 0 <= k < listing_positions(rows, which).len() ==> {
            &&& (#[trigger] listing_positions(rows, which)[k]) < rows.len()
            &&& is_listed(which, rows[listing_positions(rows, which)[k] as int])
        },
        listing_positions(rows, which).no_duplicates(),
{
    let l = listed_positions(rows, which);
    lemma_order_total(rows, which);
    l.lemma_sort_by_ensures(order_of(rows, which));
    let s = listing_positions(rows, which);
    assert forall|k: int| 0 <= k < s.len() implies (#[trigger] s[k]) < rows.len() && is_listed(which, rows[s[k] as int]) by {
        assert(s.to_multiset().count(s[k]) > 0);
        assert(l.contains(s[k]));
        let m = choose|m: int| 0 <= m < l.len() && l[m] == s[k];
        assert(keep_of(rows, which)(l[m]));
        let all = all_positions(rows.len());
        assert(l.contains(l[m]));
        all.lemma_filter_contains_rev(keep_of(rows, which), l[m]);
        let i = choose|i: int| 0 <= i < all.len() && all[i] == l[m];
        assert(all[i] == i as usize);
    }
    assert forall|a: int, b: int| 0 <= a < s.len() && 0 <= b < s.len() && a != b implies s[a] != s[b] by {
        lemma_no_duplicates_filter(rows, which);
        if a < b {
            lemma_distinct_count(s, l, a, b);
        } else {
            lemma_distinct_count(s, l, b, a);
        }
    }
}

pub proof fn lemma_no_duplicates_filter(rows: Seq<RowView>, which: Listing)
    requires
        rows.len() <= usize::MAX,
    ensures
        listed_positions(rows, which).no_duplicates(),
{
    let all = all_positions(rows.len());
    assert(all.no_duplicates());
    lemma_filter_no_duplicates(all, keep_of(rows, which));
}

/// Filtering keeps a sequence free of duplicates.
pub proof fn lemma_filter_no_duplicates<A>(s: Seq<A>, keep: spec_fn(A) -> bool)
    requires
        s.no_duplicates(),
    ensures
        s.filter(keep).no_duplicates(),
    decreases s.len(),
{
    reveal(Seq::filter);
    if s.len() > 0 {
        let init = s.drop_last();
        assert(init.no_duplicates());
        lemma_filter_no_duplicates(init, keep);
        if keep(s.last()) {
            assert(!init.contains(s.last()));
            if init.filter(keep).contains(s.last()) {
                init.lemma_filter_contains_rev(keep, s.last());
            }
        }
    }
}

/// Two equal entries in `s` give a count of at least two, which a sequence
/// without duplicates and with the same multiset cannot have.
proof fn lemma_distinct_count(s: Seq<usize>, l: Seq<usize>, a: int, b: int)
    requires
        l.no_duplicates(),
        s.to_multiset() == l.to_multiset(),
        0 <= a < b < s.len(),
    ensures
        s[a] != s[b],
{
    if s[a] == s[b] {
        lemma_count_at_most_one(l, s[a]);
        lemma_count_two(s, a, b);
    }
}

proof fn lemma_count_at_most_one(l: Seq<usize>, x: usize)
    requires
        l.no_duplicates(),
    ensures
        l.to_multiset().count(x) <= 1,
    decreases l.len(),
{
    if l.len() > 0 {
        let init = l.drop_last();
        assert(init.no_duplicates());
        lemma_count_at_most_one(init, x);
        assert(l =~= init.push(l.last()));
        if l.last() == x {
            assert(!init.contains(x));
            assert(init.to_multiset().count(x) == 0);
        }
    }
}

proof fn lemma_count_two(s: Seq<usize>, a: int, b: int)
    requires
        0 <= a < b < s.len(),
        s[a] == s[b],
    ensures
        s.to_multiset().count(s[a]) >= 2,
    decreases s.len(),
{
    let init = s.drop_last();
    assert(s =~= init.push(s.last()));
    if b == s.len() - 1 {
        assert(init.contains(s[a]));
    } else {
        lemma_count_two(init, a, b);
    }
}

/// Sorted stays sorted when an element goes in between its neighbours.
proof fn lemma_insert_sorted(s: Seq<usize>, p: int, x: usize, leq: spec_fn(usize, usize) -> bool)
    requires
        total_ordering(leq),
        sorted_by(s, leq),
        0 <= p <= s.len(),
        forall|q: int| 0 <= q < p ==> #[trigger] leq(s[q], x),
        p < s.len() ==> leq(x, s[p]),
    ensures
        sorted_by(s.insert(p, x), leq),
{
    let t = s.insert(p, x);
    assert forall|a: int, b: int| 0 <= a < b < t.len() implies #[trigger] leq(t[a], t[b]) by {
        if b < p {
        } else if b == p {
            assert(t[a] == s[a]);
        } else if a == p {
            assert(t[b] == s[b - 1]);
            assert(leq(s[p], s[b - 1]) || p == b - 1);
        } else if a < p {
            assert(t[a] == s[a]);
            assert(t[b] == s[b - 1]);
        } else {
            assert(t[a] == s[a - 1]);
            assert(t[b] == s[b - 1]);
        }
    }
}

fn comes_before(rows: &Vec<TaskRow>, which: Listing, i: usize, j: usize) -> (b: bool)
    requires
        i < rows.len(),
        j < rows.len(),
    ensures
        b == precedes(row_views(rows@), which, i, j),
{
    let a = &rows[i];
    let c = &rows[j];
    match which {
        Listing::Active(_) => a.sort_order < c.sort_order || (a.sort_order == c.sort_order
            && i <= j),
        Listing::Completed => match (a.task.completed_at, c.task.completed_at) {
            (Some(x), Some(y)) => y < x || (x == y && i <= j),
            (Some(_), None) => true,
            (None, Some(_)) => false,
            (None, None) => i <= j,
        },
    }
}

/// Insertion sort of positions by the listing's order.
#[verifier::rlimit(40)]
pub(crate) fn sort_positions(rows: &Vec<TaskRow>, which: Listing, items: Vec<usize>) -> (out: Vec<usize>)
    requires
        forall|k: int| 0 <= k < items.len() ==> #[trigger] items@[k] < rows.len(),
    ensures
        sorted_by(out@, order_of(row_views(rows@), which)),
        out@.to_multiset() == items@.to_multiset(),
{
    let ghost leq = order_of(row_views(rows@), which);
    proof {
        lemma_order_total(row_views(rows@), which);
    }
    let mut out: Vec<usize> = Vec::new();
    let mut k: usize = 0;
    while k < items.len()
        invariant
            k <= items.len(),
            total_ordering(leq),
            leq == order_of(row_views(rows@), which),
            forall|q: int| 0 <= q < items.len() ==> #[trigger] items@[q] < rows.len(),
            sorted_by(out@, leq),
            out@.to_multiset() == items@.take(k as int).to_multiset(),
            forall|q: int| 0 <= q < out.len() ==> #[trigger] out@[q] < rows.len(),
        decreases items.len() - k,
    {
        let x = items[k];
        let mut p: usize = 0;
        while p < out.len() && !comes_before(rows, which, x, out[p])
            invariant
                p <= out.len(),
                x < rows.len(),
                forall|q: int| 0 <= q < out.len() ==> #[trigger] out@[q] < rows.len(),
                forall|q: int| 0 <= q < p ==> #[trigger] leq(out@[q], x),
                total_ordering(leq),
                leq == order_of(row_views(rows@), which),
            decreases out.len() - p,
        {
            assert(!leq(x, out@[p as int]));
            p += 1;
        }
        proof {
            lemma_insert_sorted(out@, p as int, x, leq);
            assert(items@.take(k + 1) =~= items@.take(k as int).push(x));
        }
        out.insert(p, x);
        k += 1;
    }
    proof {
        assert(items@.take(items.len() as int) =~= items@);
    }
    out
}

} // verus!
