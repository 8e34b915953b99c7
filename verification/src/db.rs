//! The task table and every operation on it.

use vstd::prelude::*;
use crate::listing::{
    all_positions, is_listed, keep_of, lemma_listing_positions, lemma_order_total, listed_positions,
    listing, listing_positions, order_of, row_views, sort_positions, task_views, Listing, RowView,
    TaskRow,
};
use crate::model::{ColumnType, Task, TaskView};
use crate::edits::{
    lemma_priority_toggle_keeps_reads, lemma_reposition_keeps_tasks, lemma_retitle_keeps_reads,
    same_place,
};
use crate::properties::read_ids;

verus! {

broadcast use vstd::seq_lib::group_seq_properties, vstd::seq_lib::group_filter_ensures;

/// Why a table operation was refused.
#[derive(Debug, Clone, Copy, PartialEq, Eq, Structural)]
pub enum DbError {
    /// No task has the given id.
    NotFound,
    /// A task with that id is already stored.
    DuplicateId,
    /// More rows than an `i64` can number.
    TooMany,
}

/// The task table, rows in the order they were inserted.
pub struct Database {
    rows: Vec<TaskRow>,
}

impl View for Database {
    type V = Seq<RowView>;

    closed spec fn view(&self) -> Seq<RowView> {
        row_views(self.rows@)
    }
}

/// No two rows share an id, and positions fit in an `i64`.
pub open spec fn table_wf(rows: Seq<RowView>) -> bool {
    &&& rows.len() < i64::MAX
    &&& rows.len() <= usize::MAX
    &&& forall|i: int, j: int|
        0 <= i < rows.len() && 0 <= j < rows.len() && i != j ==> #[trigger] rows[i].task.id
            != #[trigger] rows[j].task.id
}

pub open spec fn has_task(rows: Seq<RowView>, id: Seq<char>) -> bool {
    exists|i: int| 0 <= i < rows.len() && #[trigger] rows[i].task.id == id
}

/// The table after `id` is marked done at `now`.
pub open spec fn completed_in(rows: Seq<RowView>, id: Seq<char>, now: i64) -> Seq<RowView> {
    Seq::new(
        rows.len(),
        |i: int|
            if rows[i].task.id == id {
                RowView {
                    task: TaskView { is_completed: true, completed_at: Some(now), ..rows[i].task },
                    ..rows[i]
                }
            } else {
                rows[i]
            },
    )
}

/// The table after `id` is put back among the open tasks.
pub open spec fn restored_in(rows: Seq<RowView>, id: Seq<char>) -> Seq<RowView> {
    Seq::new(
        rows.len(),
        |i: int|
            if rows[i].task.id == id {
                RowView {
                    task: TaskView { is_completed: false, completed_at: None, ..rows[i].task },
                    ..rows[i]
                }
            } else {
                rows[i]
            },
    )
}

/// The table after the priority flag of `id` is flipped.
pub open spec fn priority_toggled_in(rows: Seq<RowView>, id: Seq<char>) -> Seq<RowView> {
    Seq::new(
        rows.len(),
        |i: int|
            if rows[i].task.id == id {
                RowView {
                    task: TaskView { is_priority: !rows[i].task.is_priority, ..rows[i].task },
                    ..rows[i]
                }
            } else {
                rows[i]
            },
    )
}

/// The table after `id` is renamed to `title`.
pub open spec fn retitled_in(rows: Seq<RowView>, id: Seq<char>, title: Seq<char>) -> Seq<RowView> {
    Seq::new(
        rows.len(),
        |i: int|
            if rows[i].task.id == id {
                RowView { task: TaskView { title, ..rows[i].task }, ..rows[i] }
            } else {
                rows[i]
            },
    )
}

/// The priority flag of `id`, if it is stored.
pub open spec fn priority_of(rows: Seq<RowView>, id: Seq<char>) -> Option<bool> {
    if has_task(rows, id) {
        Some(rows[choose|i: int| 0 <= i < rows.len() && rows[i].task.id == id].task.is_priority)
    } else {
        None
    }
}

pub open spec fn other_id(id: Seq<char>) -> spec_fn(RowView) -> bool {
    |r: RowView| r.task.id != id
}

pub open spec fn still_open() -> spec_fn(RowView) -> bool {
    |r: RowView| !r.task.is_completed
}

/// The table without `id`.
pub open spec fn without_task(rows: Seq<RowView>, id: Seq<char>) -> Seq<RowView> {
    rows.filter(other_id(id))
}

/// The table without any completed task.
pub open spec fn without_completed(rows: Seq<RowView>) -> Seq<RowView> {
    rows.filter(still_open())
}

/// Keeping some rows of a table keeps its ids apart.
pub proof fn lemma_filter_table_wf(rows: Seq<RowView>, keep: spec_fn(RowView) -> bool)
    requires
        table_wf(rows),
    ensures
        table_wf(rows.filter(keep)),
{
    let f = rows.filter(keep);
    assert forall|i: int, j: int| 0 <= i < rows.len() && 0 <= j < rows.len() && i != j implies rows[i]
        != rows[j] by {
        assert(rows[i].task.id != rows[j].task.id);
    }
    crate::listing::lemma_filter_no_duplicates(rows, keep);
    assert forall|a: int, b: int|
        0 <= a < f.len() && 0 <= b < f.len() && a != b implies #[trigger] f[a].task.id
        != #[trigger] f[b].task.id by {
        assert(f.contains(f[a]));
        assert(f.contains(f[b]));
        rows.lemma_filter_contains_rev(keep, f[a]);
        rows.lemma_filter_contains_rev(keep, f[b]);
    }
}

/// The least `sort_order` among the open tasks of `column`.
pub open spec fn min_open_order(rows: Seq<RowView>, column: ColumnType) -> Option<i64>
    decreases rows.len(),
{
    if rows.len() == 0 {
        None
    } else {
        let rest = min_open_order(rows.drop_last(), column);
        let r = rows.last();
        if is_listed(Listing::Active(column), r) {
            match rest {
                None => Some(r.sort_order),
                Some(m) => Some(if r.sort_order < m { r.sort_order } else { m }),
            }
        } else {
            rest
        }
    }
}

/// Where a new task of `column` is filed: one above the current top of the
/// section, `-1` in an empty section. When the top is already `i64::MIN` the
/// number one above it cannot be read back as an integer and the new task is
/// filed at `0`.
pub open spec fn top_sort_order(rows: Seq<RowView>, column: ColumnType) -> i64 {
    match min_open_order(rows, column) {
        None => -1i64,
        Some(m) => if m == i64::MIN { 0i64 } else { (m - 1) as i64 },
    }
}

pub open spec fn new_task_view(
    id: Seq<char>,
    title: Seq<char>,
    is_priority: bool,
    column: ColumnType,
    now: i64,
) -> TaskView {
    TaskView {
        id,
        title,
        column,
        is_priority,
        is_completed: false,
        created_at: now,
        completed_at: None,
    }
}

pub open spec fn result_view(r: Result<Task, DbError>) -> Result<TaskView, DbError> {
    match r {
        Ok(t) => Ok(t@),
        Err(e) => Err(e),
    }
}

/// What inserting a task with the given id and time does to the table and
/// what it answers: a taken id is refused and nothing changes; otherwise the
/// task is appended, filed at the top of its section.
pub open spec fn inserted(
    before: Seq<RowView>,
    after: Seq<RowView>,
    r: Result<TaskView, DbError>,
    id: Seq<char>,
    now: i64,
    title: Seq<char>,
    is_priority: bool,
    column: ColumnType,
) -> bool {
    if has_task(before, id) {
        r == Err::<TaskView, DbError>(DbError::DuplicateId) && after == before
    } else {
        let t = new_task_view(id, title, is_priority, column, now);
        &&& r == Ok::<TaskView, DbError>(t)
        &&& after == before.push(RowView { task: t, sort_order: top_sort_order(before, column) })
    }
}

pub open spec fn str_views(v: Seq<String>) -> Seq<Seq<char>> {
    v.map_values(|s: String| s@)
}

pub open spec fn opt_str_view(o: Option<&str>) -> Option<Seq<char>> {
    match o {
        Some(s) => Some(s@),
        None => None,
    }
}

/// The ids of a section's open tasks, top first.
pub open spec fn open_ids(rows: Seq<RowView>, column: ColumnType) -> Seq<Seq<char>> {
    listing(rows, Listing::Active(column)).map_values(|t: TaskView| t.id)
}

pub open spec fn not_id(id: Seq<char>) -> spec_fn(Seq<char>) -> bool {
    |x: Seq<char>| x != id
}

/// Where the moved task goes among the others: just above `before` when that
/// is one of them, otherwise at the end.
pub open spec fn drop_index(rest: Seq<Seq<char>>, before: Option<Seq<char>>) -> int {
    match before {
        Some(a) => if rest.contains(a) {
            rest.index_of(a)
        } else {
            rest.len() as int
        },
        None => rest.len() as int,
    }
}

/// The section's new order: its open tasks without `id`, and `id` put in
/// just above `before`, or at the end.
pub open spec fn new_order(
    rows: Seq<RowView>,
    id: Seq<char>,
    column: ColumnType,
    before: Option<Seq<char>>,
) -> Seq<Seq<char>> {
    let rest = open_ids(rows, column).filter(not_id(id));
    rest.insert(drop_index(rest, before), id)
}

/// The table after `id` is moved into `column` above `before`: `id` takes
/// the column, and every task named in the new order is numbered by its
/// place in it. Dropping a task onto itself changes nothing.
pub open spec fn repositioned(
    rows: Seq<RowView>,
    id: Seq<char>,
    column: ColumnType,
    before: Option<Seq<char>>,
) -> Seq<RowView> {
    if before == Some(id) {
        rows
    } else {
        let order = new_order(rows, id, column, before);
        Seq::new(
            rows.len(),
            |i: int|
                {
                    let r = rows[i];
                    let moved = if r.task.id == id {
                        RowView { task: TaskView { column, ..r.task }, ..r }
                    } else {
                        r
                    };
                    if order.contains(r.task.id) {
                        RowView { sort_order: order.index_of(r.task.id) as i64, ..moved }
                    } else {
                        moved
                    }
                },
        )
    }
}

/// The ids of a section's open tasks are distinct.
pub proof fn lemma_open_ids_distinct(rows: Seq<RowView>, column: ColumnType)
    requires
        table_wf(rows),
    ensures
        open_ids(rows, column).no_duplicates(),
        open_ids(rows, column).len() <= rows.len(),
{
    let which = Listing::Active(column);
    lemma_listing_positions(rows, which);
    let ps = listing_positions(rows, which);
    let ids = open_ids(rows, column);
    assert forall|a: int, b: int| 0 <= a < ids.len() && 0 <= b < ids.len() && a != b implies ids[a]
        != ids[b] by {
        assert(ps[a] != ps[b]);
        assert(ps[a] < rows.len() && ps[b] < rows.len());
    }
    vstd::seq_lib::to_multiset_len(ps);
    vstd::seq_lib::to_multiset_len(listed_positions(rows, which));
    all_positions(rows.len()).lemma_filter_len(keep_of(rows, which));
}

pub fn row_is_listed(row: &TaskRow, which: Listing) -> (b: bool)
    ensures
        b == is_listed(which, row@),
{
    match which {
        Listing::Active(column) => row.task.column == column && !row.task.is_completed,
        Listing::Completed => row.task.is_completed,
    }
}

/// The ids other than `key`, in the same order.
fn without_id(ids: &Vec<String>, key: &String) -> (rest: Vec<String>)
    ensures
        str_views(rest@) == str_views(ids@).filter(not_id(key@)),
{
    let ghost all_ids = str_views(ids@);
    let mut rest: Vec<String> = Vec::new();
    let mut k: usize = 0;
    while k < ids.len()
        invariant
            k <= ids.len(),
            str_views(ids@) == all_ids,
            str_views(rest@) == all_ids.take(k as int).filter(not_id(key@)),
        decreases ids.len() - k,
    {
        proof {
            assert(all_ids.take(k + 1) =~= all_ids.take(k as int).push(all_ids[k as int]));
            all_ids.take(k as int).lemma_filter_push(all_ids[k as int], not_id(key@));
        }
        if ids[k] != *key {
            let ghost before_rest = rest@;
            rest.push(ids[k].clone());
            proof {
                assert(str_views(rest@) =~= str_views(before_rest).push(all_ids[k as int]));
            }
        }
        k += 1;
    }
    proof {
        assert(all_ids.take(k as int) =~= all_ids);
    }
    rest
}

/// Where the moved task goes: the anchor's place, or the end.
fn anchor_index(rest: &Vec<String>, before: Option<&str>) -> (index: usize)
    requires
        str_views(rest@).no_duplicates(),
    ensures
        index == drop_index(str_views(rest@), opt_str_view(before)),
        index <= rest.len(),
{
    let ghost rest_v = str_views(rest@);
    match before {
        Some(anchor) => {
            let anchor_key = anchor.to_owned();
            let mut p: usize = 0;
            while p < rest.len() && rest[p] != anchor_key
                invariant
                    p <= rest.len(),
                    str_views(rest@) == rest_v,
                    forall|q: int| 0 <= q < p ==> rest_v[q] != anchor@,
                    anchor_key@ == anchor@,
                decreases rest.len() - p,
            {
                p += 1;
            }
            proof {
                if p < rest.len() {
                    assert(rest_v[p as int] == anchor@);
                    assert(rest_v.contains(anchor@));
                    let j = rest_v.index_of(anchor@);
                    assert(rest_v[j] == anchor@);
                    assert(j == p);
                } else {
                    assert(!rest_v.contains(anchor@));
                }
            }
            p
        },
        None => rest.len(),
    }
}

impl Database {
    pub open spec fn wf(&self) -> bool {
        table_wf(self@)
    }

    /// How many tasks are stored.
    pub fn task_count(&self) -> (n: usize)
        ensures
            n == self@.len(),
    {
        self.rows.len()
    }

    /// The stored rows, in insertion order.
    pub fn rows(&self) -> (rows: &Vec<TaskRow>)
        ensures
            row_views(rows@) == self@,
    {
        &self.rows
    }

    /// A table holding `rows`, in that order. Rows read back from storage are
    /// taken as they are, except that two rows may not share an id.
    pub fn from_rows(rows: Vec<TaskRow>) -> (db: Result<Database, DbError>)
        ensures
            match db {
                Ok(d) => d.wf() && d@ == row_views(rows@),
                Err(DbError::TooMany) => rows@.len() >= i64::MAX,
                Err(DbError::DuplicateId) => rows@.len() < i64::MAX && !table_wf(row_views(rows@)),
                Err(DbError::NotFound) => false,
            },
    {
        let ghost v = row_views(rows@);
        let n = rows.len();
        if n as u64 >= 0x7fff_ffff_ffff_ffff {
            return Err(DbError::TooMany);
        }
        let mut i: usize = 0;
        while i < n
            invariant
                n == rows.len(),
                n < i64::MAX,
                v == row_views(rows@),
                i <= n,
                forall|a: int, b: int|
                    0 <= a < i && 0 <= b < n && a != b ==> #[trigger] v[a].task.id != #[trigger] v[b].task.id,
            decreases n - i,
        {
            let mut j: usize = 0;
            while j < n
                invariant
                    n == rows.len(),
                    n < i64::MAX,
                    v == row_views(rows@),
                    i < n,
                    j <= n,
                    forall|b: int| 0 <= b < j && b != i ==> v[i as int].task.id != #[trigger] v[b].task.id,
                decreases n - j,
            {
                if j != i && rows[j].task.id == rows[i].task.id {
                    proof {
                        assert(rows@[i as int]@ == v[i as int]);
                        assert(rows@[j as int]@ == v[j as int]);
                        assert(v[i as int].task.id == v[j as int].task.id);
                        assert(v.len() == n);
                        assert(!table_wf(v));
                    }
                    return Err(DbError::DuplicateId);
                }
                proof {
                    assert(rows@[i as int]@ == v[i as int]);
                    assert(rows@[j as int]@ == v[j as int]);
                }
                j += 1;
            }
            i += 1;
        }
        proof {
            assert(v.len() == n);
        }
        Ok(Database { rows })
    }

    /// An empty table.
    pub fn new_in_memory() -> (db: Result<Database, DbError>)
        ensures
            db matches Ok(d) && d.wf() && d@ == Seq::<RowView>::empty(),
    {
        Ok(Database { rows: Vec::new() })
    }

    /// The positions of the listed rows, in table order.
    fn collect_listed(&self, which: Listing) -> (out: Vec<usize>)
        ensures
            out@ == listed_positions(self@, which),
    {
        let mut out: Vec<usize> = Vec::new();
        let mut i: usize = 0;
        while i < self.rows.len()
            invariant
                i <= self.rows.len(),
                out@ == all_positions(i as nat).filter(keep_of(self@, which)),
            decreases self.rows.len() - i,
        {
            proof {
                assert(all_positions((i + 1) as nat) =~= all_positions(i as nat).push(i));
                all_positions(i as nat).lemma_filter_push(i, keep_of(self@, which));
            }
            if row_is_listed(&self.rows[i], which) {
                out.push(i);
            }
            i += 1;
        }
        out
    }

    fn listing_positions_of(&self, which: Listing) -> (out: Vec<usize>)
        requires
            self.wf(),
        ensures
            out@ == listing_positions(self@, which),
            forall|k: int| 0 <= k < out.len() ==> #[trigger] out@[k] < self.rows.len(),
    {
        let items = self.collect_listed(which);
        let n = self.rows.len();
        proof {
            assert(self@.len() == n);
            lemma_listing_positions(self@, which);
            assert forall|k: int| 0 <= k < items.len() implies #[trigger] items@[k] < self.rows.len() by {
                assert(items@.contains(items@[k]));
                all_positions(self@.len()).lemma_filter_contains_rev(keep_of(self@, which), items@[k]);
            }
        }
        let out = sort_positions(&self.rows, which, items);
        proof {
            lemma_order_total(self@, which);
            vstd::seq_lib::lemma_sorted_unique(out@, listing_positions(self@, which), order_of(self@, which));
        }
        out
    }

    /// The tasks a read returns, copied out of the table.
    pub fn read_listing(&self, which: Listing) -> (tasks: Vec<Task>)
        requires
            self.wf(),
        ensures
            task_views(tasks@) == listing(self@, which),
    {
        let positions = self.listing_positions_of(which);
        let mut tasks: Vec<Task> = Vec::new();
        let mut k: usize = 0;
        while k < positions.len()
            invariant
                k <= positions.len(),
                positions@ == listing_positions(self@, which),
                forall|q: int| 0 <= q < positions.len() ==> #[trigger] positions@[q] < self.rows.len(),
                task_views(tasks@) == listing(self@, which).take(k as int),
            decreases positions.len() - k,
        {
            let p = positions[k];
            let t = self.rows[p].task.duplicate();
            proof {
                assert(self@[p as int] == self.rows@[p as int]@);
                assert(t@ == listing(self@, which)[k as int]);
            }
            let ghost before = tasks@;
            tasks.push(t);
            proof {
                assert(task_views(tasks@) =~= task_views(before).push(t@));
                assert(listing(self@, which).take(k + 1) =~= listing(self@, which).take(
                    k as int,
                ).push(listing(self@, which)[k as int]));
            }
            k += 1;
        }
        proof {
            assert(listing(self@, which).take(k as int) =~= listing(self@, which));
        }
        tasks
    }

    /// Where `id` is stored.
    fn find_task(&self, id: &String) -> (r: Option<usize>)
        requires
            self.wf(),
        ensures
            match r {
                Some(i) => i < self@.len() && self@[i as int].task.id == id@,
                None => !has_task(self@, id@),
            },
    {
        let mut i: usize = 0;
        while i < self.rows.len()
            invariant
                i <= self.rows.len(),
                forall|j: int| 0 <= j < i ==> #[trigger] self@[j].task.id != id@,
            decreases self.rows.len() - i,
        {
            if self.rows[i].task.id == *id {
                proof {
                    assert(self@[i as int] == self.rows@[i as int]@);
                }
                return Some(i);
            }
            proof {
                assert(self@[i as int] == self.rows@[i as int]@);
            }
            i += 1;
        }
        None
    }

    fn min_open_order_of(&self, column: ColumnType) -> (m: Option<i64>)
        ensures
            m == min_open_order(self@, column),
    {
        let mut m: Option<i64> = None;
        let mut i: usize = 0;
        while i < self.rows.len()
            invariant
                i <= self.rows.len(),
                m == min_open_order(self@.take(i as int), column),
            decreases self.rows.len() - i,
        {
            proof {
                assert(self@.take(i + 1).drop_last() =~= self@.take(i as int));
                assert(self@[i as int] == self.rows@[i as int]@);
            }
            let r = &self.rows[i];
            if r.task.column == column && !r.task.is_completed {
                m = match m {
                    None => Some(r.sort_order),
                    Some(v) => Some(if r.sort_order < v { r.sort_order } else { v }),
                };
            }
            i += 1;
        }
        proof {
            assert(self@.take(i as int) =~= self@);
        }
        m
    }

    /// Adds a task with a given id and creation time at the top of its section.
    pub fn insert_task_at(
        &mut self,
        id: String,
        now: i64,
        title: &str,
        is_priority: bool,
        column: ColumnType,
    ) -> (r: Result<Task, DbError>)
        requires
            old(self).wf(),
            old(self)@.len() + 1 < i64::MAX,
        ensures
            final(self).wf(),
            inserted(old(self)@, final(self)@, result_view(r), id@, now, title@, is_priority, column),
    {
        if self.find_task(&id).is_some() {
            return Err(DbError::DuplicateId);
        }
        let top = match self.min_open_order_of(column) {
            None => -1,
            Some(m) => match m.checked_sub(1) {
                Some(v) => v,
                None => 0,
            },
        };
        let task = Task {
            id,
            title: title.to_owned(),
            column,
            is_priority,
            is_completed: false,
            created_at: now,
            completed_at: None,
        };
        let row = TaskRow { task: task.duplicate(), sort_order: top };
        self.rows.push(row);
        let n_after = self.rows.len();
        proof {
            assert(self@.len() == n_after);
            assert(self@ =~= old(self)@.push(row@));
            assert forall|i: int, j: int|
                0 <= i < self@.len() && 0 <= j < self@.len() && i != j implies #[trigger] self@[i].task.id
                != #[trigger] self@[j].task.id by {
                if i == old(self)@.len() as int {
                    assert(self@[j] == old(self)@[j]);
                } else if j == old(self)@.len() as int {
                    assert(self@[i] == old(self)@[i]);
                } else {
                    assert(self@[i] == old(self)@[i]);
                    assert(self@[j] == old(self)@[j]);
                }
            }
        }
        Ok(task)
    }

    /// Adds a task at the top of its section, under a fresh random id and the
    /// current time.
    pub fn insert_task(&mut self, title: &str, is_priority: bool, column: ColumnType) -> (r: Result<
        Task,
        DbError,
    >)
        requires
            old(self).wf(),
            old(self)@.len() + 1 < i64::MAX,
        ensures
            final(self).wf(),
            exists|id: Seq<char>, now: i64|
                {
                    &&& crate::external::is_hyphenated_uuid(id)
                    &&& now >= 0
                    &&& inserted(
                        old(self)@,
                        final(self)@,
                        result_view(r),
                        id,
                        now,
                        title@,
                        is_priority,
                        column,
                    )
                },
    {
        let id = crate::external::fresh_task_id();
        let now = crate::external::current_time_millis();
        self.insert_task_at(id, now, title, is_priority, column)
    }

    /// The ids of a section's open tasks, top first.
    fn section_ids(&self, column: ColumnType) -> (ids: Vec<String>)
        requires
            self.wf(),
        ensures
            str_views(ids@) == open_ids(self@, column),
    {
        let positions = self.listing_positions_of(Listing::Active(column));
        let mut ids: Vec<String> = Vec::new();
        let mut k: usize = 0;
        while k < positions.len()
            invariant
                k <= positions.len(),
                positions@ == listing_positions(self@, Listing::Active(column)),
                forall|q: int| 0 <= q < positions.len() ==> #[trigger] positions@[q] < self.rows.len(),
                str_views(ids@) == open_ids(self@, column).take(k as int),
            decreases positions.len() - k,
        {
            let p = positions[k];
            let ghost before_ids = ids@;
            ids.push(self.rows[p].task.id.clone());
            proof {
                assert(self@[p as int] == self.rows@[p as int]@);
                assert(str_views(ids@) =~= str_views(before_ids).push(self@[p as int].task.id));
                assert(open_ids(self@, column).take(k + 1) =~= open_ids(self@, column).take(
                    k as int,
                ).push(open_ids(self@, column)[k as int]));
            }
            k += 1;
        }
        proof {
            assert(open_ids(self@, column).take(k as int) =~= open_ids(self@, column));
        }
        ids
    }

    /// The new numbering: each row with the moved task's column set and its
    /// place in `order` as its number.
    fn renumbered_rows(
        &self,
        key: &String,
        column: ColumnType,
        order: &Vec<String>,
        Ghost(bv): Ghost<Option<Seq<char>>>,
    ) -> (out: Vec<TaskRow>)
        requires
            self.wf(),
            bv != Some(key@),
            str_views(order@) == new_order(self@, key@, column, bv),
            str_views(order@).no_duplicates(),
            order@.len() <= self@.len() + 1,
        ensures
            row_views(out@) == repositioned(self@, key@, column, bv),
    {
        let ghost rows = self@;
        let ghost order_v = str_views(order@);
        let mut renumbered: Vec<TaskRow> = Vec::new();
        let mut i: usize = 0;
        while i < self.rows.len()
            invariant
                i <= self.rows.len(),
                self@ == rows,
                table_wf(rows),
                bv != Some(key@),
                str_views(order@) == order_v,
                order_v == new_order(rows, key@, column, bv),
                order_v.no_duplicates(),
                order_v.len() <= rows.len() + 1,
                row_views(renumbered@) == repositioned(rows, key@, column, bv).take(i as int),
            decreases self.rows.len() - i,
        {
            let mut row = self.rows[i].duplicate();
            proof {
                assert(self@[i as int] == self.rows@[i as int]@);
            }
            if row.task.id == *key {
                row.task.column = column;
            }
            let mut q: usize = 0;
            while q < order.len() && order[q] != row.task.id
                invariant
                    q <= order.len(),
                    str_views(order@) == order_v,
                    forall|t: int| 0 <= t < q ==> order_v[t] != rows[i as int].task.id,
                    row.task.id@ == rows[i as int].task.id,
                decreases order.len() - q,
            {
                q += 1;
            }
            if q < order.len() {
                proof {
                    assert(order_v[q as int] == rows[i as int].task.id);
                    let j = order_v.index_of(rows[i as int].task.id);
                    assert(order_v[j] == rows[i as int].task.id);
                    assert(j == q);
                }
                row.sort_order = q as i64;
            } else {
                proof {
                    assert(!order_v.contains(rows[i as int].task.id));
                }
            }
            let ghost before_rows = renumbered@;
            renumbered.push(row);
            proof {
                assert(row_views(renumbered@) =~= row_views(before_rows).push(row@));
                assert(repositioned(rows, key@, column, bv).take(i + 1) =~= repositioned(
                    rows,
                    key@,
                    column,
                    bv,
                ).take(i as int).push(row@));
            }
            i += 1;
        }
        proof {
            assert(repositioned(rows, key@, column, bv).take(i as int) =~= repositioned(
                rows,
                key@,
                column,
                bv,
            ));
        }
        renumbered
    }

    /// Moves `id` into `column`, directly above `before` (or to the end when
    /// `before` is `None` or not an open task of that column), and renumbers
    /// that column.
    pub fn reposition_task(&mut self, id: &str, column: ColumnType, before: Option<&str>) -> (r:
        Result<(), DbError>)
        requires
            old(self).wf(),
        ensures
            final(self).wf(),
            r is Ok,
            final(self)@ == repositioned(old(self)@, id@, column, opt_str_view(before)),
            final(self)@.len() == old(self)@.len(),
            forall|i: int|
                0 <= i < old(self)@.len() ==> (#[trigger] final(self)@[i]).task == (TaskView {
                    column: if old(self)@[i].task.id == id@ && opt_str_view(before) != Some(id@) {
                        column
                    } else {
                        old(self)@[i].task.column
                    },
                    ..old(self)@[i].task
                }),
    {
        proof {
            lemma_reposition_keeps_tasks(old(self)@, id@, column, opt_str_view(before));
        }
        let key = id.to_owned();
        if let Some(anchor) = before {
            if anchor.to_owned() == key {
                return Ok(());
            }
        }
        let ghost rows = self@;
        let ghost bv = opt_str_view(before);
        let ids = self.section_ids(column);
        let ghost all_ids = open_ids(rows, column);
        proof {
            lemma_open_ids_distinct(rows, column);
        }
        let rest = without_id(&ids, &key);
        proof {
            crate::listing::lemma_filter_no_duplicates(all_ids, not_id(id@));
            all_ids.lemma_filter_len(not_id(id@));
        }
        let ghost rest_v = all_ids.filter(not_id(id@));
        let index = anchor_index(&rest, before);
        let ghost order_v = new_order(rows, id@, column, bv);
        let mut order = rest;
        order.insert(index, key.clone());
        proof {
            assert(str_views(order@) =~= order_v);
            assert(!rest_v.contains(id@));
            assert forall|a: int, b: int|
                0 <= a < order_v.len() && 0 <= b < order_v.len() && a != b implies order_v[a]
                != order_v[b] by {
                if a == index as int {
                    assert(rest_v.contains(order_v[b]));
                } else if b == index as int {
                    assert(rest_v.contains(order_v[a]));
                }
            }
        }
        let renumbered = self.renumbered_rows(&key, column, &order, Ghost(bv));
        self.rows = renumbered;
        proof {
            assert forall|a: int, b: int|
                0 <= a < self@.len() && 0 <= b < self@.len() && a != b implies #[trigger] self@[a].task.id
                != #[trigger] self@[b].task.id by {
                assert(self@[a].task.id == rows[a].task.id);
                assert(self@[b].task.id == rows[b].task.id);
            }
        }
        Ok(())
    }

    /// Moves `id` to the end of `target`.
    pub fn move_task_column(&mut self, id: &str, target_column: ColumnType) -> (r: Result<
        (),
        DbError,
    >)
        requires
            old(self).wf(),
        ensures
            final(self).wf(),
            r is Ok,
            final(self)@ == repositioned(old(self)@, id@, target_column, None),
            final(self)@.len() == old(self)@.len(),
            forall|i: int|
                0 <= i < old(self)@.len() ==> (#[trigger] final(self)@[i]).task == (TaskView {
                    column: if old(self)@[i].task.id == id@ {
                        target_column
                    } else {
                        old(self)@[i].task.column
                    },
                    ..old(self)@[i].task
                }),
    {
        self.reposition_task(id, target_column, None)
    }

    /// Marks `id` done at the time `now`. An id that is not stored changes nothing.
    pub fn complete_task_at(&mut self, id: &str, now: i64) -> (r: Result<(), DbError>)
        requires
            old(self).wf(),
        ensures
            final(self).wf(),
            r is Ok,
            final(self)@ == completed_in(old(self)@, id@, now),
    {
        let key = id.to_owned();
        match self.find_task(&key) {
            Some(i) => {
                let mut row = self.rows[i].duplicate();
                row.task.is_completed = true;
                row.task.completed_at = Some(now);
                self.rows[i] = row;
                proof {
                    assert(self@ =~= completed_in(old(self)@, id@, now));
                }
            },
            None => {
                proof {
                    assert(self@ =~= completed_in(old(self)@, id@, now));
                }
            },
        }
        Ok(())
    }

    /// Marks `id` done, stamped with the current time.
    pub fn complete_task(&mut self, id: &str) -> (r: Result<(), DbError>)
        requires
            old(self).wf(),
        ensures
            final(self).wf(),
            r is Ok,
            exists|now: i64| now >= 0 && final(self)@ == completed_in(old(self)@, id@, now),
    {
        let now = crate::external::current_time_millis();
        self.complete_task_at(id, now)
    }

    /// Puts `id` back among the open tasks, clearing its completion time.
    pub fn restore_task(&mut self, id: &str) -> (r: Result<(), DbError>)
        requires
            old(self).wf(),
        ensures
            final(self).wf(),
            r is Ok,
            final(self)@ == restored_in(old(self)@, id@),
    {
        let key = id.to_owned();
        match self.find_task(&key) {
            Some(i) => {
                let mut row = self.rows[i].duplicate();
                row.task.is_completed = false;
                row.task.completed_at = None;
                self.rows[i] = row;
            },
            None => {},
        }
        proof {
            assert(self@ =~= restored_in(old(self)@, id@));
        }
        Ok(())
    }

    /// Flips the priority flag of `id` and returns the new value.
    pub fn toggle_task_priority(&mut self, id: &str) -> (r: Result<bool, DbError>)
        requires
            old(self).wf(),
        ensures
            final(self).wf(),
            match priority_of(old(self)@, id@) {
                None => r == Err::<bool, DbError>(DbError::NotFound) && final(self)@ == old(self)@,
                Some(p) => r == Ok::<bool, DbError>(!p) && final(self)@ == priority_toggled_in(
                    old(self)@,
                    id@,
                ),
            },
            final(self)@.len() == old(self)@.len(),
            forall|i: int| 0 <= i < old(self)@.len() ==> same_place(#[trigger] old(self)@[i], final(self)@[i]),
            forall|which: Listing| #[trigger] read_ids(final(self)@, which) == read_ids(old(self)@, which),
    {
        let key = id.to_owned();
        match self.find_task(&key) {
            Some(i) => {
                let mut row = self.rows[i].duplicate();
                let now_priority = !row.task.is_priority;
                row.task.is_priority = now_priority;
                self.rows[i] = row;
                proof {
                    let j = choose|j: int| 0 <= j < old(self)@.len() && old(self)@[j].task.id == id@;
                    assert(j == i);
                    assert(self@ =~= priority_toggled_in(old(self)@, id@));
                    assert forall|which: Listing| #[trigger] read_ids(self@, which) == read_ids(old(self)@, which) by {
                        lemma_priority_toggle_keeps_reads(old(self)@, id@, which);
                    }
                }
                Ok(now_priority)
            },
            None => Err(DbError::NotFound),
        }
    }

    /// Renames `id`. An id that is not stored changes nothing.
    pub fn update_task_title(&mut self, id: &str, title: &str) -> (r: Result<(), DbError>)
        requires
            old(self).wf(),
        ensures
            final(self).wf(),
            r is Ok,
            final(self)@ == retitled_in(old(self)@, id@, title@),
            final(self)@.len() == old(self)@.len(),
            forall|i: int| 0 <= i < old(self)@.len() ==> same_place(#[trigger] old(self)@[i], final(self)@[i]),
            forall|which: Listing| #[trigger] read_ids(final(self)@, which) == read_ids(old(self)@, which),
    {
        let key = id.to_owned();
        match self.find_task(&key) {
            Some(i) => {
                let mut row = self.rows[i].duplicate();
                row.task.title = title.to_owned();
                self.rows[i] = row;
            },
            None => {},
        }
        proof {
            assert(self@ =~= retitled_in(old(self)@, id@, title@));
            assert forall|which: Listing| #[trigger] read_ids(self@, which) == read_ids(old(self)@, which) by {
                lemma_retitle_keeps_reads(old(self)@, id@, title@, which);
            }
        }
        Ok(())
    }

    /// Removes `id`. An id that is not stored changes nothing.
    pub fn delete_task(&mut self, id: &str) -> (r: Result<(), DbError>)
        requires
            old(self).wf(),
        ensures
            final(self).wf(),
            r is Ok,
            final(self)@ == without_task(old(self)@, id@),
    {
        let key = id.to_owned();
        let mut kept: Vec<TaskRow> = Vec::new();
        let mut i: usize = 0;
        while i < self.rows.len()
            invariant
                i <= self.rows.len(),
                self@ == old(self)@,
                key@ == id@,
                row_views(kept@) == old(self)@.take(i as int).filter(other_id(id@)),
            decreases self.rows.len() - i,
        {
            proof {
                assert(old(self)@.take(i + 1) =~= old(self)@.take(i as int).push(old(self)@[i as int]));
                old(self)@.take(i as int).lemma_filter_push(old(self)@[i as int], other_id(id@));
                assert(self@[i as int] == self.rows@[i as int]@);
            }
            if self.rows[i].task.id != key {
                let ghost before = kept@;
                kept.push(self.rows[i].duplicate());
                proof {
                    assert(row_views(kept@) =~= row_views(before).push(self.rows@[i as int]@));
                }
            }
            i += 1;
        }
        proof {
            assert(old(self)@.take(i as int) =~= old(self)@);
            lemma_filter_table_wf(old(self)@, other_id(id@));
        }
        self.rows = kept;
        Ok(())
    }

    /// Removes every completed task.
    pub fn clear_completed_tasks(&mut self) -> (r: Result<(), DbError>)
        requires
            old(self).wf(),
        ensures
            final(self).wf(),
            r is Ok,
            final(self)@ == without_completed(old(self)@),
    {
        let mut kept: Vec<TaskRow> = Vec::new();
        let mut i: usize = 0;
        while i < self.rows.len()
            invariant
                i <= self.rows.len(),
                self@ == old(self)@,
                row_views(kept@) == old(self)@.take(i as int).filter(still_open()),
            decreases self.rows.len() - i,
        {
            proof {
                assert(old(self)@.take(i + 1) =~= old(self)@.take(i as int).push(old(self)@[i as int]));
                old(self)@.take(i as int).lemma_filter_push(old(self)@[i as int], still_open());
                assert(self@[i as int] == self.rows@[i as int]@);
            }
            if !self.rows[i].task.is_completed {
                let ghost before = kept@;
                kept.push(self.rows[i].duplicate());
                proof {
                    assert(row_views(kept@) =~= row_views(before).push(self.rows@[i as int]@));
                }
            }
            i += 1;
        }
        proof {
            assert(old(self)@.take(i as int) =~= old(self)@);
            lemma_filter_table_wf(old(self)@, still_open());
        }
        self.rows = kept;
        Ok(())
    }

    /// The open tasks of `column`, top of the section first.
    pub fn get_active_tasks(&self, column: ColumnType) -> (r: Result<Vec<Task>, DbError>)
        requires
            self.wf(),
        ensures
            r matches Ok(tasks) && task_views(tasks@) == listing(self@, Listing::Active(column)),
    {
        Ok(self.read_listing(Listing::Active(column)))
    }

    /// The completed tasks, most recently completed first.
    pub fn get_completed_tasks(&self) -> (r: Result<Vec<Task>, DbError>)
        requires
            self.wf(),
        ensures
            r matches Ok(tasks) && task_views(tasks@) == listing(self@, Listing::Completed),
    {
        Ok(self.read_listing(Listing::Completed))
    }
}

} // verus!
