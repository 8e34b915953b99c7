//! The window's decisions, apart from drawing: what each click, key and
//! timer does to the sheet's state, which writes it makes, and what the
//! window has to do afterwards (repaint, move focus, start a timer).

use vstd::prelude::*;
use crate::db::{
    completed_in, has_task, inserted, opt_str_view, priority_toggled_in, repositioned, restored_in,
    retitled_in, without_completed, without_task, Database, DbError,
};
use crate::external::{is_hyphenated_uuid, trim_text, trimmed};
use crate::listing::{listing, task_views, Listing, RowView};
use crate::model::{ColumnType, Task, TaskView};

verus! {

/// Where a checked row is in its two-step exit.
#[derive(Debug, Clone, Copy, PartialEq, Eq, Structural)]
pub enum Completing {
    /// Struck through and holding still; clicking the box again puts it back.
    Held,
    /// Collapsing out of the list; past the point of return.
    Leaving,
}

/// A delay the window starts; when it runs out the window calls back the
/// method named after it.
#[derive(Debug, Clone, PartialEq, Eq)]
pub enum Timer {
    /// `completion_hold_elapsed`, after the strike-through has been shown.
    CompletionHold(String),
    /// `completion_collapse_elapsed`, once the row has folded shut.
    CompletionCollapse(String),
    /// `delete_confirm_expired`: an armed delete forgets it was armed.
    DeleteConfirm(String),
    /// `clear_confirm_expired`: an armed "clear completed" forgets it was armed.
    ClearConfirm,
    /// `bounds_settled`, once a resize has stopped.
    BoundsSettle,
}

/// Something the window does after a state change.
#[derive(Debug, Clone, PartialEq, Eq)]
pub enum Effect {
    /// Repaint.
    Notify,
    /// Start a delay.
    Start(Timer),
    /// Raise the window above others, or put it back.
    SetWindowOnTop(bool),
    /// Write the window's geometry and pin state.
    PersistWindowState,
    /// Write the task table.
    SaveTasks,
    /// Give focus back to the window itself.
    FocusRoot,
    /// Empty the new-task field.
    ClearNewTaskInput,
    /// Put the cursor in the new-task field.
    FocusNewTaskInput,
    /// Scroll the inbox into view.
    ScrollToInbox,
    /// Load a title into the rename field.
    FillEditInput(String),
    /// Put the cursor in the rename field.
    FocusEditInput,
}

pub enum TimerView {
    CompletionHold(Seq<char>),
    CompletionCollapse(Seq<char>),
    DeleteConfirm(Seq<char>),
    ClearConfirm,
    BoundsSettle,
}

pub enum EffectView {
    Notify,
    Start(TimerView),
    SetWindowOnTop(bool),
    PersistWindowState,
    SaveTasks,
    FocusRoot,
    ClearNewTaskInput,
    FocusNewTaskInput,
    ScrollToInbox,
    FillEditInput(Seq<char>),
    FocusEditInput,
}

impl View for Timer {
    type V = TimerView;

    open spec fn view(&self) -> TimerView {
        match self {
            Timer::CompletionHold(id) => TimerView::CompletionHold(id@),
            Timer::CompletionCollapse(id) => TimerView::CompletionCollapse(id@),
            Timer::DeleteConfirm(id) => TimerView::DeleteConfirm(id@),
            Timer::ClearConfirm => TimerView::ClearConfirm,
            Timer::BoundsSettle => TimerView::BoundsSettle,
        }
    }
}

impl View for Effect {
    type V = EffectView;

    open spec fn view(&self) -> EffectView {
        match self {
            Effect::Notify => EffectView::Notify,
            Effect::Start(t) => EffectView::Start(t@),
            Effect::SetWindowOnTop(b) => EffectView::SetWindowOnTop(*b),
            Effect::PersistWindowState => EffectView::PersistWindowState,
            Effect::SaveTasks => EffectView::SaveTasks,
            Effect::FocusRoot => EffectView::FocusRoot,
            Effect::ClearNewTaskInput => EffectView::ClearNewTaskInput,
            Effect::FocusNewTaskInput => EffectView::FocusNewTaskInput,
            Effect::ScrollToInbox => EffectView::ScrollToInbox,
            Effect::FillEditInput(t) => EffectView::FillEditInput(t@),
            Effect::FocusEditInput => EffectView::FocusEditInput,
        }
    }
}

pub open spec fn effect_views(fx: Seq<Effect>) -> Seq<EffectView> {
    fx.map_values(|e: Effect| e@)
}

/// The sheet's state as plain values.
pub struct AppView {
    pub table: Seq<RowView>,
    pub inbox: Seq<TaskView>,
    pub ongoing: Seq<TaskView>,
    pub completed: Seq<TaskView>,
    pub is_pinned: bool,
    pub is_history_open: bool,
    pub is_creating: bool,
    pub editing_id: Option<Seq<char>>,
    pub hovered_id: Option<Seq<char>>,
    pub confirm_delete: Option<Seq<char>>,
    pub completing: Map<Seq<char>, Completing>,
    pub confirm_clear: bool,
    pub bounds_write_queued: bool,
}

pub open spec fn opt_string_view(o: Option<String>) -> Option<Seq<char>> {
    match o {
        Some(s) => Some(s@),
        None => None,
    }
}

/// The phase each row id is in, read off the list of pairs.
pub open spec fn phase_map(pairs: Seq<(String, Completing)>) -> Map<Seq<char>, Completing> {
    Map::new(
        |x: Seq<char>| exists|i: int| 0 <= i < pairs.len() && (#[trigger] pairs[i]).0@ == x,
        |x: Seq<char>| pairs[choose|i: int| 0 <= i < pairs.len() && (#[trigger] pairs[i]).0@ == x].1,
    )
}

pub open spec fn keys_distinct(pairs: Seq<(String, Completing)>) -> bool {
    forall|i: int, j: int|
        0 <= i < pairs.len() && 0 <= j < pairs.len() && i != j ==> (#[trigger] pairs[i]).0@
            != (#[trigger] pairs[j]).0@
}

/// The three lists the sheet shows, read from `table`.
pub open spec fn with_table(v: AppView, table: Seq<RowView>) -> AppView {
    AppView {
        table,
        inbox: listing(table, Listing::Active(ColumnType::Inbox)),
        ongoing: listing(table, Listing::Active(ColumnType::Ongoing)),
        completed: listing(table, Listing::Completed),
        ..v
    }
}

/// The sheet after the rename field is closed with `text` in it: a title
/// that is empty once trimmed leaves the old one standing.
pub open spec fn after_commit_edit(v: AppView, text: Seq<char>) -> AppView {
    match v.editing_id {
        None => v,
        Some(id) => {
            let closed = AppView { editing_id: None, ..v };
            if trimmed(text).len() > 0 {
                with_table(closed, retitled_in(v.table, id, trimmed(text)))
            } else {
                closed
            }
        },
    }
}

pub open spec fn commit_edit_effects(v: AppView, text: Seq<char>) -> Seq<EffectView> {
    match v.editing_id {
        None => Seq::empty(),
        Some(_) => if trimmed(text).len() > 0 {
            seq![EffectView::SaveTasks, EffectView::FocusRoot, EffectView::Notify]
        } else {
            seq![EffectView::FocusRoot, EffectView::Notify]
        },
    }
}

/// Closing the new-task field, if it is open.
pub open spec fn after_closing_new_task(v: AppView) -> AppView {
    AppView { is_creating: false, ..v }
}

pub open spec fn closing_new_task_effects(v: AppView) -> Seq<EffectView> {
    if v.is_creating {
        seq![EffectView::FocusRoot, EffectView::Notify]
    } else {
        Seq::empty()
    }
}

/// The title of the first open task named `id`, inbox before ongoing.
#[verifier::opaque]
pub open spec fn title_in(v: AppView, id: Seq<char>) -> Option<Seq<char>> {
    let ts = v.inbox + v.ongoing;
    if exists|k: int| 0 <= k < ts.len() && (#[trigger] ts[k]).id == id {
        let k = choose|k: int|
            0 <= k < ts.len() && (#[trigger] ts[k]).id == id && forall|j: int|
                0 <= j < k ==> ts[j].id != id;
        Some(ts[k].title)
    } else {
        None
    }
}

/// The sheet after the completed-tasks popover is toggled: what was being
/// renamed is kept, a half-written new task is dropped, everything armed is
/// disarmed, and opening it reads the lists again.
pub open spec fn after_toggle_history(v: AppView, text: Seq<char>) -> AppView {
    let v1 = after_commit_edit(v, text);
    let v2 = after_closing_new_task(v1);
    let v3 = AppView {
        is_history_open: !v2.is_history_open,
        confirm_clear: false,
        confirm_delete: None,
        hovered_id: None,
        ..v2
    };
    if v3.is_history_open {
        with_table(v3, v3.table)
    } else {
        v3
    }
}

pub open spec fn toggle_history_effects(v: AppView, text: Seq<char>) -> Seq<EffectView> {
    commit_edit_effects(v, text) + closing_new_task_effects(after_commit_edit(v, text)) + seq![
        EffectView::Notify,
    ]
}

/// Opening or closing the history finishes a rename: text that is not
/// blank once trimmed becomes the task's title and the table is written;
/// blank text, or no rename at all, leaves the table as it was and writes
/// nothing. The rename field is closed either way.
pub proof fn lemma_history_keeps_rename(v: AppView, text: Seq<char>)
    ensures
        after_toggle_history(v, text).editing_id is None,
        after_toggle_history(v, text).is_history_open == !v.is_history_open,
        (match v.editing_id {
            Some(e) => if trimmed(text).len() > 0 {
                &&& after_toggle_history(v, text).table == retitled_in(v.table, e, trimmed(text))
                &&& toggle_history_effects(v, text).contains(EffectView::SaveTasks)
            } else {
                &&& after_toggle_history(v, text).table == v.table
                &&& !toggle_history_effects(v, text).contains(EffectView::SaveTasks)
            },
            None => {
                &&& after_toggle_history(v, text).table == v.table
                &&& !toggle_history_effects(v, text).contains(EffectView::SaveTasks)
            },
        }),
{
    let fx = toggle_history_effects(v, text);
    match v.editing_id {
        Some(e) => {
            if trimmed(text).len() > 0 {
                assert(fx[0] == EffectView::SaveTasks);
            } else {
                assert forall|k: int| 0 <= k < fx.len() implies fx[k] != EffectView::SaveTasks by {}
            }
        },
        None => {
            assert forall|k: int| 0 <= k < fx.len() implies fx[k] != EffectView::SaveTasks by {}
        },
    }
}

/// A click on a row's box: an unchecked row is struck through and held, a
/// held one is taken back, a leaving one is past return.
pub open spec fn after_box_click(v: AppView, id: Seq<char>) -> AppView {
    if v.completing.contains_key(id) {
        if v.completing[id] == Completing::Held {
            AppView { completing: v.completing.remove(id), ..v }
        } else {
            v
        }
    } else {
        AppView { completing: v.completing.insert(id, Completing::Held), ..v }
    }
}

pub open spec fn box_click_effects(v: AppView, id: Seq<char>) -> Seq<EffectView> {
    if v.completing.contains_key(id) {
        if v.completing[id] == Completing::Held {
            seq![EffectView::Notify]
        } else {
            Seq::empty()
        }
    } else {
        seq![EffectView::Notify, EffectView::Start(TimerView::CompletionHold(id))]
    }
}

/// The end of the hold: a row still held starts leaving.
pub open spec fn after_hold(v: AppView, id: Seq<char>) -> AppView {
    if v.completing.contains_key(id) && v.completing[id] == Completing::Held {
        AppView { completing: v.completing.insert(id, Completing::Leaving), ..v }
    } else {
        v
    }
}

/// The sheet after `id` is deleted.
pub open spec fn after_delete(v: AppView, id: Seq<char>) -> AppView {
    with_table(
        AppView {
            hovered_id: if v.hovered_id == Some(id) {
                None
            } else {
                v.hovered_id
            },
            ..v
        },
        without_task(v.table, id),
    )
}

/// A click on a row's delete button: the first arms it, a second on the
/// same row deletes.
pub open spec fn after_delete_click(v: AppView, id: Seq<char>) -> AppView {
    if v.confirm_delete == Some(id) {
        after_delete(AppView { confirm_delete: None, ..v }, id)
    } else {
        AppView { confirm_delete: Some(id), ..v }
    }
}

pub open spec fn delete_click_effects(v: AppView, id: Seq<char>) -> Seq<EffectView> {
    if v.confirm_delete == Some(id) {
        seq![EffectView::SaveTasks, EffectView::Notify]
    } else {
        seq![EffectView::Notify, EffectView::Start(TimerView::DeleteConfirm(id))]
    }
}

/// An armed delete running out.
pub open spec fn after_delete_expiry(v: AppView, id: Seq<char>) -> AppView {
    if v.confirm_delete == Some(id) {
        AppView { confirm_delete: None, ..v }
    } else {
        v
    }
}

/// A click on "clear completed": the first arms it, the second clears.
pub open spec fn after_clear_click(v: AppView) -> AppView {
    if !v.confirm_clear {
        AppView { confirm_clear: true, ..v }
    } else {
        with_table(AppView { confirm_clear: false, ..v }, without_completed(v.table))
    }
}

pub open spec fn clear_click_effects(v: AppView) -> Seq<EffectView> {
    if !v.confirm_clear {
        seq![EffectView::Notify, EffectView::Start(TimerView::ClearConfirm)]
    } else {
        seq![EffectView::SaveTasks, EffectView::Notify]
    }
}

/// An armed "clear completed" running out.
pub open spec fn after_clear_expiry(v: AppView) -> AppView {
    AppView { confirm_clear: false, ..v }
}

/// A second click on a box while the row still holds gives the sheet back.
pub proof fn lemma_second_click_takes_back(v: AppView, id: Seq<char>)
    requires
        !v.completing.contains_key(id),
    ensures
        after_box_click(after_box_click(v, id), id) == v,
        after_hold(after_box_click(after_box_click(v, id), id), id) == v,
{
    assert(v.completing.insert(id, Completing::Held).remove(id) =~= v.completing);
}

/// A delete armed and left to run out is forgotten: the sheet is as before,
/// and a later click arms again instead of deleting.
pub proof fn lemma_expired_delete_only_rearms(v: AppView, id: Seq<char>)
    requires
        v.confirm_delete is None,
    ensures
        after_delete_expiry(after_delete_click(v, id), id) == v,
        after_delete_click(after_delete_expiry(after_delete_click(v, id), id), id).table == v.table,
{
}

/// An armed "clear completed" that runs out is forgotten: the sheet is as
/// before, and a later click arms again instead of clearing.
pub proof fn lemma_expired_clear_only_rearms(v: AppView)
    requires
        !v.confirm_clear,
    ensures
        after_clear_expiry(after_clear_click(v)) == v,
        after_clear_click(after_clear_expiry(after_clear_click(v))).table == v.table,
{
}

/// The three lists on screen are the table's three reads.
pub open spec fn shows_table(v: AppView) -> bool {
    &&& v.inbox == listing(v.table, Listing::Active(ColumnType::Inbox))
    &&& v.ongoing == listing(v.table, Listing::Active(ColumnType::Ongoing))
    &&& v.completed == listing(v.table, Listing::Completed)
}

/// How long each delay runs, in milliseconds: the struck-through row holds
/// for 240 ms, folds shut over 160 ms, an armed delete or clear disarms after
/// 3 s, and a resize has 500 ms to settle before it is written.
pub open spec fn timer_delay_ms(t: TimerView) -> u64 {
    match t {
        TimerView::CompletionHold(_) => 240,
        TimerView::CompletionCollapse(_) => 160,
        TimerView::DeleteConfirm(_) => 3000,
        TimerView::ClearConfirm => 3000,
        TimerView::BoundsSettle => 500,
    }
}

impl Timer {
    /// How long this delay runs before the window calls back.
    pub fn delay_millis(&self) -> (ms: u64)
        ensures
            ms == timer_delay_ms(self@),
    {
        match self {
            Timer::CompletionHold(_) => 240,
            Timer::CompletionCollapse(_) => 160,
            Timer::DeleteConfirm(_) => 3000,
            Timer::ClearConfirm => 3000,
            Timer::BoundsSettle => 500,
        }
    }
}

pub struct VibeTodoApp {
    db: Database,
    inbox_tasks: Vec<Task>,
    ongoing_tasks: Vec<Task>,
    completed_tasks: Vec<Task>,
    pub is_pinned: bool,
    pub is_history_open: bool,
    pub is_creating: bool,
    /// Whose title is open for editing.
    editing_id: Option<String>,
    /// The row under the pointer; only the delete shortcut reads it.
    hovered_id: Option<String>,
    /// A delete armed by a first click, waiting for the second.
    confirm_delete: Option<String>,
    /// Rows that have been checked and are playing out their exit.
    completing: Vec<(String, Completing)>,
    /// "Clear completed" is armed by a first click and fires on the second.
    confirm_clear: bool,
    bounds_write_queued: bool,
}

impl View for VibeTodoApp {
    type V = AppView;

    closed spec fn view(&self) -> AppView {
        AppView {
            table: self.db@,
            inbox: task_views(self.inbox_tasks@),
            ongoing: task_views(self.ongoing_tasks@),
            completed: task_views(self.completed_tasks@),
            is_pinned: self.is_pinned,
            is_history_open: self.is_history_open,
            is_creating: self.is_creating,
            editing_id: opt_string_view(self.editing_id),
            hovered_id: opt_string_view(self.hovered_id),
            confirm_delete: opt_string_view(self.confirm_delete),
            completing: phase_map(self.completing@),
            confirm_clear: self.confirm_clear,
            bounds_write_queued: self.bounds_write_queued,
        }
    }
}

impl VibeTodoApp {
    pub closed spec fn wf(&self) -> bool {
        &&& self.db.wf()
        &&& keys_distinct(self.completing@)
        &&& shows_table(self@)
    }

    /// A well-formed sheet stands on a well-formed table: no two stored
    /// tasks share an id.
    pub proof fn lemma_wf_table(&self)
        requires
            self.wf(),
        ensures
            crate::db::table_wf(self@.table),
    {
    }

    /// A well-formed sheet shows exactly what its table holds.
    pub proof fn lemma_wf_shows_table(&self)
        requires
            self.wf(),
        ensures
            shows_table(self@),
    {
    }

    /// The table behind the sheet.
    pub fn database(&self) -> (db: &Database)
        ensures
            db@ == self@.table,
    {
        &self.db
    }

    pub fn inbox_tasks(&self) -> (t: &Vec<Task>)
        ensures
            task_views(t@) == self@.inbox,
    {
        &self.inbox_tasks
    }

    pub fn ongoing_tasks(&self) -> (t: &Vec<Task>)
        ensures
            task_views(t@) == self@.ongoing,
    {
        &self.ongoing_tasks
    }

    pub fn completed_tasks(&self) -> (t: &Vec<Task>)
        ensures
            task_views(t@) == self@.completed,
    {
        &self.completed_tasks
    }

    pub fn editing_id(&self) -> (id: Option<&String>)
        ensures
            match id {
                Some(s) => self@.editing_id == Some(s@),
                None => self@.editing_id is None,
            },
    {
        self.editing_id.as_ref()
    }

    pub fn hovered_id(&self) -> (id: Option<&String>)
        ensures
            match id {
                Some(s) => self@.hovered_id == Some(s@),
                None => self@.hovered_id is None,
            },
    {
        self.hovered_id.as_ref()
    }

    pub fn confirm_delete(&self) -> (id: Option<&String>)
        ensures
            match id {
                Some(s) => self@.confirm_delete == Some(s@),
                None => self@.confirm_delete is None,
            },
    {
        self.confirm_delete.as_ref()
    }

    pub fn confirm_clear(&self) -> (b: bool)
        ensures
            b == self@.confirm_clear,
    {
        self.confirm_clear
    }

    /// The exit phase of a row, if it has been checked.
    pub fn completion_phase(&self, id: &str) -> (p: Option<Completing>)
        requires
            self.wf(),
        ensures
            p == (if self@.completing.contains_key(id@) {
                Some(self@.completing[id@])
            } else {
                None
            }),
    {
        let key = id.to_owned();
        match find_phase(&self.completing, &key) {
            Some(i) => Some(self.completing[i].1),
            None => None,
        }
    }

    /// The new-task field stands at the top of the inbox while it is open.
    pub fn shows_add_row(&self, column: ColumnType) -> (b: bool)
        ensures
            b == (column == ColumnType::Inbox && self@.is_creating),
    {
        column == ColumnType::Inbox && self.is_creating
    }

    /// A section with no task and no open field says what to do instead.
    pub fn shows_empty_copy(&self, column: ColumnType) -> (b: bool)
        ensures
            b == ((match column {
                ColumnType::Inbox => self@.inbox.len() == 0,
                ColumnType::Ongoing => self@.ongoing.len() == 0,
            }) && !(column == ColumnType::Inbox && self@.is_creating)),
    {
        let empty = match column {
            ColumnType::Inbox => self.inbox_tasks.len() == 0,
            ColumnType::Ongoing => self.ongoing_tasks.len() == 0,
        };
        empty && !self.shows_add_row(column)
    }

    /// The hover tray is offered on a row that is neither checked nor being
    /// renamed.
    pub fn shows_hover_tray(&self, id: &str) -> (b: bool)
        requires
            self.wf(),
        ensures
            b == (!self@.completing.contains_key(id@) && self@.editing_id != Some(id@)),
    {
        let key = id.to_owned();
        let editing_here = match &self.editing_id {
            Some(e) => *e == key,
            None => false,
        };
        self.completion_phase(id).is_none() && !editing_here
    }

    /// Whether a text field has the keyboard.
    pub fn is_editing(&self) -> (b: bool)
        ensures
            b == (self@.is_creating || self@.editing_id is Some),
    {
        self.is_creating || self.editing_id.is_some()
    }

    /// A sheet over `db`, showing what it holds, with nothing open or armed.
    pub fn new(db: Database, is_pinned: bool) -> (app: VibeTodoApp)
        requires
            db.wf(),
        ensures
            app.wf(),
            app@ == with_table(
                AppView {
                    table: db@,
                    inbox: Seq::empty(),
                    ongoing: Seq::empty(),
                    completed: Seq::empty(),
                    is_pinned,
                    is_history_open: false,
                    is_creating: false,
                    editing_id: None,
                    hovered_id: None,
                    confirm_delete: None,
                    completing: Map::empty(),
                    confirm_clear: false,
                    bounds_write_queued: false,
                },
                db@,
            ),
    {
        let mut app = VibeTodoApp {
            db,
            inbox_tasks: Vec::new(),
            ongoing_tasks: Vec::new(),
            completed_tasks: Vec::new(),
            is_pinned,
            is_history_open: false,
            is_creating: false,
            editing_id: None,
            hovered_id: None,
            confirm_delete: None,
            completing: Vec::new(),
            confirm_clear: false,
            bounds_write_queued: false,
        };
        proof {
            assert(phase_map(app.completing@) =~= Map::empty());
        }
        app.reload_lists();
        app
    }

    /// Pinning flips, the window level follows, and the choice is written.
    pub fn toggle_pin(&mut self) -> (fx: Vec<Effect>)
        requires
            old(self).wf(),
        ensures
            final(self).wf(),
            final(self)@ == (AppView { is_pinned: !old(self)@.is_pinned, ..old(self)@ }),
            effect_views(fx@) == seq![
                EffectView::SetWindowOnTop(!old(self)@.is_pinned),
                EffectView::PersistWindowState,
                EffectView::Notify,
            ],
    {
        self.is_pinned = !self.is_pinned;
        let mut fx = Vec::new();
        fx.push(Effect::SetWindowOnTop(self.is_pinned));
        fx.push(Effect::PersistWindowState);
        fx.push(Effect::Notify);
        proof {
            assert(effect_views(fx@) =~= seq![
                EffectView::SetWindowOnTop(!old(self)@.is_pinned),
                EffectView::PersistWindowState,
                EffectView::Notify,
            ]);
        }
        fx
    }

    /// A click on a row's box. The first click strikes the row through and
    /// holds it; a second click while it holds takes it back; once it is
    /// leaving, clicks do nothing.
    pub fn complete_task(&mut self, id: &str) -> (fx: Vec<Effect>)
        requires
            old(self).wf(),
        ensures
            final(self).wf(),
            final(self)@ == after_box_click(old(self)@, id@),
            effect_views(fx@) == box_click_effects(old(self)@, id@),
    {
        let key = id.to_owned();
        let mut fx = Vec::new();
        match find_phase(&self.completing, &key) {
            Some(i) => {
                if self.completing[i].1 == Completing::Held {
                    clear_phase(&mut self.completing, &key);
                    fx.push(Effect::Notify);
                    proof {
                        assert(effect_views(fx@) =~= seq![EffectView::Notify]);
                    }
                } else {
                    proof {
                        assert(effect_views(fx@) =~= Seq::<EffectView>::empty());
                    }
                }
            },
            None => {
                set_phase(&mut self.completing, &key, Completing::Held);
                fx.push(Effect::Notify);
                fx.push(Effect::Start(Timer::CompletionHold(key)));
                proof {
                    assert(effect_views(fx@) =~= seq![
                        EffectView::Notify,
                        EffectView::Start(TimerView::CompletionHold(id@)),
                    ]);
                }
            },
        }
        fx
    }

    /// The hold is over. A row still held starts to leave; one taken back
    /// in the meantime is left alone.
    pub fn completion_hold_elapsed(&mut self, id: &str) -> (fx: Vec<Effect>)
        requires
            old(self).wf(),
        ensures
            final(self).wf(),
            final(self)@ == after_hold(old(self)@, id@),
            effect_views(fx@) == (if old(self)@.completing.contains_key(id@) && old(self)@.completing[id@]
                == Completing::Held {
                seq![EffectView::Notify, EffectView::Start(TimerView::CompletionCollapse(id@))]
            } else {
                Seq::<EffectView>::empty()
            }),
    {
        let key = id.to_owned();
        let mut fx = Vec::new();
        match find_phase(&self.completing, &key) {
            Some(i) => {
                if self.completing[i].1 == Completing::Held {
                    set_phase(&mut self.completing, &key, Completing::Leaving);
                    fx.push(Effect::Notify);
                    fx.push(Effect::Start(Timer::CompletionCollapse(key)));
                    proof {
                        assert(effect_views(fx@) =~= seq![
                            EffectView::Notify,
                            EffectView::Start(TimerView::CompletionCollapse(id@)),
                        ]);
                    }
                    return fx;
                }
            },
            None => {},
        }
        proof {
            assert(effect_views(fx@) =~= Seq::<EffectView>::empty());
        }
        fx
    }

    /// The row has folded shut: it leaves the exit list and is written as
    /// done, stamped with the current time.
    pub fn completion_collapse_elapsed(&mut self, id: &str) -> (fx: Vec<Effect>)
        requires
            old(self).wf(),
        ensures
            final(self).wf(),
            exists|now: i64|
                now >= 0 && final(self)@ == with_table(
                    AppView { completing: old(self)@.completing.remove(id@), ..old(self)@ },
                    completed_in(old(self)@.table, id@, now),
                ),
            effect_views(fx@) == seq![EffectView::SaveTasks, EffectView::Notify],
    {
        let key = id.to_owned();
        clear_phase(&mut self.completing, &key);
        let ghost table_before = self.db@;
        let _ = self.db.complete_task(id);
        let ghost now: i64 = choose|now: i64| now >= 0 && self.db@ == completed_in(table_before, id@, now);
        self.reload_lists();
        proof {
            assert(self@ == with_table(
                AppView { completing: old(self)@.completing.remove(id@), ..old(self)@ },
                completed_in(old(self)@.table, id@, now),
            ));
        }
        let mut fx = Vec::new();
        fx.push(Effect::SaveTasks);
        fx.push(Effect::Notify);
        proof {
            assert(effect_views(fx@) =~= seq![EffectView::SaveTasks, EffectView::Notify]);
        }
        fx
    }

    /// Brings a completed task back.
    pub fn restore_task(&mut self, id: &str) -> (fx: Vec<Effect>)
        requires
            old(self).wf(),
        ensures
            final(self).wf(),
            final(self)@ == with_table(old(self)@, restored_in(old(self)@.table, id@)),
            effect_views(fx@) == seq![EffectView::SaveTasks, EffectView::Notify],
    {
        let _ = self.db.restore_task(id);
        self.reload_lists();
        save_and_notify()
    }

    /// Removes a task; the delete shortcut no longer aims at it.
    pub fn delete_task(&mut self, id: &str) -> (fx: Vec<Effect>)
        requires
            old(self).wf(),
        ensures
            final(self).wf(),
            final(self)@ == after_delete(old(self)@, id@),
            effect_views(fx@) == seq![EffectView::SaveTasks, EffectView::Notify],
    {
        let _ = self.db.delete_task(id);
        let key = id.to_owned();
        let hovered_here = match &self.hovered_id {
            Some(h) => *h == key,
            None => false,
        };
        if hovered_here {
            self.hovered_id = None;
        }
        self.reload_lists();
        save_and_notify()
    }

    /// The first click arms a delete; a second click on the same row
    /// deletes it.
    pub fn request_delete(&mut self, id: &str) -> (fx: Vec<Effect>)
        requires
            old(self).wf(),
        ensures
            final(self).wf(),
            final(self)@ == after_delete_click(old(self)@, id@),
            effect_views(fx@) == delete_click_effects(old(self)@, id@),
    {
        let key = id.to_owned();
        let armed_here = match &self.confirm_delete {
            Some(c) => *c == key,
            None => false,
        };
        if armed_here {
            self.confirm_delete = None;
            return self.delete_task(id);
        }
        self.confirm_delete = Some(key.clone());
        let mut fx = Vec::new();
        fx.push(Effect::Notify);
        fx.push(Effect::Start(Timer::DeleteConfirm(key)));
        proof {
            assert(effect_views(fx@) =~= seq![
                EffectView::Notify,
                EffectView::Start(TimerView::DeleteConfirm(id@)),
            ]);
        }
        fx
    }

    /// An armed delete runs out: if that row is still armed, it is disarmed.
    pub fn delete_confirm_expired(&mut self, id: &str) -> (fx: Vec<Effect>)
        requires
            old(self).wf(),
        ensures
            final(self).wf(),
            final(self)@ == after_delete_expiry(old(self)@, id@),
            effect_views(fx@) == (if old(self)@.confirm_delete == Some(id@) {
                seq![EffectView::Notify]
            } else {
                Seq::<EffectView>::empty()
            }),
    {
        let key = id.to_owned();
        let armed_here = match &self.confirm_delete {
            Some(c) => *c == key,
            None => false,
        };
        let mut fx = Vec::new();
        if armed_here {
            self.confirm_delete = None;
            fx.push(Effect::Notify);
        }
        proof {
            if armed_here {
                assert(effect_views(fx@) =~= seq![EffectView::Notify]);
            } else {
                assert(effect_views(fx@) =~= Seq::<EffectView>::empty());
            }
        }
        fx
    }

    /// Moves a task into `column`, above `before`, or to the end.
    pub fn reposition_task(&mut self, id: &str, column: ColumnType, before: Option<&str>) -> (fx:
        Vec<Effect>)
        requires
            old(self).wf(),
        ensures
            final(self).wf(),
            final(self)@ == with_table(
                old(self)@,
                repositioned(old(self)@.table, id@, column, opt_str_view(before)),
            ),
            effect_views(fx@) == seq![EffectView::SaveTasks, EffectView::Notify],
    {
        let _ = self.db.reposition_task(id, column, before);
        self.reload_lists();
        save_and_notify()
    }

    /// Sends a task to the end of the other section.
    pub fn move_task(&mut self, id: &str, target: ColumnType) -> (fx: Vec<Effect>)
        requires
            old(self).wf(),
        ensures
            final(self).wf(),
            final(self)@ == with_table(old(self)@, repositioned(old(self)@.table, id@, target, None)),
            effect_views(fx@) == seq![EffectView::SaveTasks, EffectView::Notify],
    {
        let _ = self.db.move_task_column(id, target);
        self.reload_lists();
        save_and_notify()
    }

    /// Flips a task's priority; an unknown id changes nothing.
    pub fn toggle_priority(&mut self, id: &str) -> (fx: Vec<Effect>)
        requires
            old(self).wf(),
        ensures
            final(self).wf(),
            final(self)@ == with_table(
                old(self)@,
                if has_task(old(self)@.table, id@) {
                    priority_toggled_in(old(self)@.table, id@)
                } else {
                    old(self)@.table
                },
            ),
            effect_views(fx@) == seq![EffectView::SaveTasks, EffectView::Notify],
    {
        let _ = self.db.toggle_task_priority(id);
        self.reload_lists();
        save_and_notify()
    }

    /// The first click arms "clear completed"; a second one clears.
    pub fn clear_completed(&mut self) -> (fx: Vec<Effect>)
        requires
            old(self).wf(),
        ensures
            final(self).wf(),
            final(self)@ == after_clear_click(old(self)@),
            effect_views(fx@) == clear_click_effects(old(self)@),
    {
        if !self.confirm_clear {
            self.confirm_clear = true;
            let mut fx = Vec::new();
            fx.push(Effect::Notify);
            fx.push(Effect::Start(Timer::ClearConfirm));
            proof {
                assert(effect_views(fx@) =~= seq![
                    EffectView::Notify,
                    EffectView::Start(TimerView::ClearConfirm),
                ]);
            }
            return fx;
        }
        let _ = self.db.clear_completed_tasks();
        self.confirm_clear = false;
        self.reload_lists();
        save_and_notify()
    }

    /// An armed "clear completed" runs out.
    pub fn clear_confirm_expired(&mut self) -> (fx: Vec<Effect>)
        requires
            old(self).wf(),
        ensures
            final(self).wf(),
            final(self)@ == after_clear_expiry(old(self)@),
            effect_views(fx@) == (if old(self)@.confirm_clear {
                seq![EffectView::Notify]
            } else {
                Seq::<EffectView>::empty()
            }),
    {
        let mut fx = Vec::new();
        if self.confirm_clear {
            self.confirm_clear = false;
            fx.push(Effect::Notify);
        }
        proof {
            if old(self)@.confirm_clear {
                assert(effect_views(fx@) =~= seq![EffectView::Notify]);
            } else {
                assert(effect_views(fx@) =~= Seq::<EffectView>::empty());
            }
        }
        fx
    }

    /// Closes the rename field, writing the trimmed title unless it is empty.
    pub fn commit_edit(&mut self, edit_text: &str) -> (fx: Vec<Effect>)
        requires
            old(self).wf(),
        ensures
            final(self).wf(),
            final(self)@ == after_commit_edit(old(self)@, edit_text@),
            effect_views(fx@) == commit_edit_effects(old(self)@, edit_text@),
    {
        let mut fx = Vec::new();
        let id = match self.editing_id.take() {
            Some(id) => id,
            None => {
                proof {
                    assert(effect_views(fx@) =~= Seq::<EffectView>::empty());
                }
                return fx;
            },
        };
        let title = trim_text(edit_text);
        if !title.as_str().is_empty() {
            let _ = self.db.update_task_title(id.as_str(), title.as_str());
            self.reload_lists();
            fx.push(Effect::SaveTasks);
        }
        fx.push(Effect::FocusRoot);
        fx.push(Effect::Notify);
        proof {
            assert(effect_views(fx@) =~= commit_edit_effects(old(self)@, edit_text@));
        }
        fx
    }

    /// Closes the rename field without writing.
    pub fn cancel_edit(&mut self) -> (fx: Vec<Effect>)
        requires
            old(self).wf(),
        ensures
            final(self).wf(),
            final(self)@ == (AppView { editing_id: None, ..old(self)@ }),
            effect_views(fx@) == seq![EffectView::FocusRoot, EffectView::Notify],
    {
        self.editing_id = None;
        focus_root_and_notify()
    }

    /// Closes the new-task field.
    pub fn cancel_new_task(&mut self) -> (fx: Vec<Effect>)
        requires
            old(self).wf(),
        ensures
            final(self).wf(),
            final(self)@ == after_closing_new_task(old(self)@),
            effect_views(fx@) == seq![EffectView::FocusRoot, EffectView::Notify],
    {
        self.is_creating = false;
        focus_root_and_notify()
    }

    fn close_new_task_if_open(&mut self) -> (fx: Vec<Effect>)
        requires
            old(self).wf(),
        ensures
            final(self).wf(),
            final(self)@ == after_closing_new_task(old(self)@),
            effect_views(fx@) == closing_new_task_effects(old(self)@),
    {
        if self.is_creating {
            self.cancel_new_task()
        } else {
            let fx = Vec::new();
            proof {
                assert(effect_views(fx@) =~= Seq::<EffectView>::empty());
                assert(self@ =~= after_closing_new_task(old(self)@));
            }
            fx
        }
    }

    /// Opens or closes the completed-tasks popover.
    pub fn toggle_history(&mut self, edit_text: &str) -> (fx: Vec<Effect>)
        requires
            old(self).wf(),
        ensures
            final(self).wf(),
            final(self)@ == after_toggle_history(old(self)@, edit_text@),
            effect_views(fx@) == toggle_history_effects(old(self)@, edit_text@),
            final(self)@.editing_id is None,
            final(self)@.is_history_open == !old(self)@.is_history_open,
            (match old(self)@.editing_id {
                Some(e) => if trimmed(edit_text@).len() > 0 {
                    &&& final(self)@.table == retitled_in(old(self)@.table, e, trimmed(edit_text@))
                    &&& effect_views(fx@).contains(EffectView::SaveTasks)
                } else {
                    &&& final(self)@.table == old(self)@.table
                    &&& !effect_views(fx@).contains(EffectView::SaveTasks)
                },
                None => {
                    &&& final(self)@.table == old(self)@.table
                    &&& !effect_views(fx@).contains(EffectView::SaveTasks)
                },
            }),
    {
        let mut fx = self.commit_edit(edit_text);
        let mut more = self.close_new_task_if_open();
        fx.append(&mut more);
        self.is_history_open = !self.is_history_open;
        self.confirm_clear = false;
        self.confirm_delete = None;
        self.hovered_id = None;
        if self.is_history_open {
            self.reload_lists();
        }
        fx.push(Effect::Notify);
        proof {
            assert(effect_views(fx@) =~= toggle_history_effects(old(self)@, edit_text@));
            lemma_history_keeps_rename(old(self)@, edit_text@);
        }
        fx
    }

    /// Opens the new-task field at the top of the inbox, unless it is open
    /// already (re-opening would wipe what is in it).
    pub fn start_creating(&mut self, edit_text: &str) -> (fx: Vec<Effect>)
        requires
            old(self).wf(),
        ensures
            final(self).wf(),
            if old(self)@.is_creating {
                &&& final(self)@ == old(self)@
                &&& effect_views(fx@) == Seq::<EffectView>::empty()
            } else {
                &&& final(self)@ == (AppView {
                    is_creating: true,
                    is_history_open: false,
                    ..after_commit_edit(old(self)@, edit_text@)
                })
                &&& effect_views(fx@) == commit_edit_effects(old(self)@, edit_text@) + seq![
                    EffectView::ClearNewTaskInput,
                    EffectView::ScrollToInbox,
                    EffectView::FocusNewTaskInput,
                    EffectView::Notify,
                ]
            },
    {
        if self.is_creating {
            let fx = Vec::new();
            proof {
                assert(effect_views(fx@) =~= Seq::<EffectView>::empty());
            }
            return fx;
        }
        let mut fx = self.commit_edit(edit_text);
        let ghost fx1 = fx@;
        self.is_creating = true;
        self.is_history_open = false;
        fx.push(Effect::ClearNewTaskInput);
        fx.push(Effect::ScrollToInbox);
        fx.push(Effect::FocusNewTaskInput);
        fx.push(Effect::Notify);
        proof {
            assert(effect_views(fx@) =~= effect_views(fx1) + seq![
                EffectView::ClearNewTaskInput,
                EffectView::ScrollToInbox,
                EffectView::FocusNewTaskInput,
                EffectView::Notify,
            ]);
        }
        fx
    }

    /// Closes the new-task field, adding the trimmed text as a new inbox task
    /// unless it is empty.
    pub fn commit_new_task(&mut self, input_text: &str) -> (fx: Vec<Effect>)
        requires
            old(self).wf(),
        ensures
            final(self).wf(),
            if trimmed(input_text@).len() > 0 && old(self)@.table.len() + 1 < i64::MAX {
                &&& exists|id: Seq<char>, now: i64, r: Result<TaskView, DbError>|
                    {
                        &&& is_hyphenated_uuid(id)
                        &&& now >= 0
                        &&& inserted(
                            old(self)@.table,
                            final(self)@.table,
                            r,
                            id,
                            now,
                            trimmed(input_text@),
                            false,
                            ColumnType::Inbox,
                        )
                        &&& final(self)@ == with_table(
                            after_closing_new_task(old(self)@),
                            final(self)@.table,
                        )
                    }
                &&& effect_views(fx@) == seq![
                    EffectView::SaveTasks,
                    EffectView::ClearNewTaskInput,
                    EffectView::FocusRoot,
                    EffectView::Notify,
                ]
            } else {
                &&& final(self)@ == after_closing_new_task(old(self)@)
                &&& effect_views(fx@) == seq![
                    EffectView::ClearNewTaskInput,
                    EffectView::FocusRoot,
                    EffectView::Notify,
                ]
            },
    {
        let title = trim_text(input_text);
        let t = title.as_str();
        let mut fx = Vec::new();
        let ghost table_before = self.db@;
        let ghost mut cid: Seq<char> = Seq::empty();
        let ghost mut cnow: i64 = 0;
        let ghost mut crv: Result<TaskView, DbError> = Err(DbError::NotFound);
        let adding = !t.is_empty() && (self.db.task_count() as u64) < 0x7fff_ffff_ffff_fffe;
        if adding {
            let r = self.db.insert_task(t, false, ColumnType::Inbox);
            proof {
                let (a, b) = choose|id: Seq<char>, now: i64|
                    {
                        &&& is_hyphenated_uuid(id)
                        &&& now >= 0
                        &&& inserted(
                            table_before,
                            self.db@,
                            crate::db::result_view(r),
                            id,
                            now,
                            t@,
                            false,
                            ColumnType::Inbox,
                        )
                    };
                cid = a;
                cnow = b;
                crv = crate::db::result_view(r);
            }
            self.reload_lists();
            fx.push(Effect::SaveTasks);
        }
        let ghost fx1 = fx@;
        fx.push(Effect::ClearNewTaskInput);
        let ghost fx2 = fx@;
        let mut more = self.cancel_new_task();
        let ghost fx3 = more@;
        fx.append(&mut more);
        proof {
            lemma_effect_views_concat(fx2, fx3);
            assert(fx2 == fx1.push(Effect::ClearNewTaskInput));
            assert(effect_views(fx2) =~= effect_views(fx1).push(EffectView::ClearNewTaskInput));
            assert(effect_views(fx@) =~= effect_views(fx1) + seq![
                EffectView::ClearNewTaskInput,
                EffectView::FocusRoot,
                EffectView::Notify,
            ]);
            if adding {
                assert(is_hyphenated_uuid(cid) && cnow >= 0 && inserted(
                    old(self)@.table,
                    self@.table,
                    crv,
                    cid,
                    cnow,
                    trimmed(input_text@),
                    false,
                    ColumnType::Inbox,
                ) && self@ == with_table(after_closing_new_task(old(self)@), self@.table));
            }
        }
        fx
    }

    /// The title of an open task, looked up inbox first.
    pub fn find_task_title(&self, id: &str) -> (t: Option<String>)
        ensures
            opt_string_view(t) == title_in(self@, id@),
    {
        reveal(title_in);
        let key = id.to_owned();
        let ghost ts = self@.inbox + self@.ongoing;
        let mut k: usize = 0;
        while k < self.inbox_tasks.len()
            invariant
                k <= self.inbox_tasks.len(),
                ts == self@.inbox + self@.ongoing,
                key@ == id@,
                forall|j: int| 0 <= j < k ==> (#[trigger] ts[j]).id != id@,
            decreases self.inbox_tasks.len() - k,
        {
            proof {
                assert(ts[k as int] == self.inbox_tasks@[k as int]@);
            }
            if self.inbox_tasks[k].id == key {
                proof {
                    reveal(title_in);
                    lemma_first_title(ts, id@, k as int);
                }
                return Some(self.inbox_tasks[k].title.clone());
            }
            k += 1;
        }
        let n = self.inbox_tasks.len();
        let mut k: usize = 0;
        while k < self.ongoing_tasks.len()
            invariant
                k <= self.ongoing_tasks.len(),
                n == self@.inbox.len(),
                ts == self@.inbox + self@.ongoing,
                key@ == id@,
                forall|j: int| 0 <= j < n + k ==> (#[trigger] ts[j]).id != id@,
            decreases self.ongoing_tasks.len() - k,
        {
            proof {
                assert(ts[n + k] == self.ongoing_tasks@[k as int]@);
            }
            if self.ongoing_tasks[k].id == key {
                proof {
                    reveal(title_in);
                    lemma_first_title(ts, id@, n + k);
                }
                return Some(self.ongoing_tasks[k].title.clone());
            }
            k += 1;
        }
        None
    }

    /// Opens a title for renaming. Whatever was being renamed is kept, a
    /// half-written new task is dropped.
    #[verifier::rlimit(30)]
    pub fn start_editing(&mut self, id: &str, edit_text: &str) -> (fx: Vec<Effect>)
        requires
            old(self).wf(),
        ensures
            final(self).wf(),
            ({
                let v2 = after_closing_new_task(after_commit_edit(old(self)@, edit_text@));
                let fx12 = commit_edit_effects(old(self)@, edit_text@) + closing_new_task_effects(
                    after_commit_edit(old(self)@, edit_text@),
                );
                if old(self)@.editing_id == Some(id@) {
                    &&& final(self)@ == old(self)@
                    &&& effect_views(fx@) == Seq::<EffectView>::empty()
                } else {
                    match title_in(v2, id@) {
                        None => final(self)@ == v2 && effect_views(fx@) == fx12,
                        Some(title) => {
                            &&& final(self)@ == (AppView {
                                is_history_open: false,
                                confirm_delete: None,
                                editing_id: Some(id@),
                                ..v2
                            })
                            &&& effect_views(fx@) == fx12 + seq![
                                EffectView::FillEditInput(title),
                                EffectView::FocusEditInput,
                                EffectView::Notify,
                            ]
                        },
                    }
                }
            }),
    {
        let key = id.to_owned();
        let already = match &self.editing_id {
            Some(e) => *e == key,
            None => false,
        };
        if already {
            let fx = Vec::new();
            proof {
                assert(effect_views(fx@) =~= Seq::<EffectView>::empty());
            }
            return fx;
        }
        let mut fx = self.commit_edit(edit_text);
        let mut more = self.close_new_task_if_open();
        fx.append(&mut more);
        let ghost fx12 = fx@;
        let title = match self.find_task_title(id) {
            Some(t) => t,
            None => {
                return fx;
            },
        };
        self.is_history_open = false;
        self.confirm_delete = None;
        self.editing_id = Some(key);
        fx.push(Effect::FillEditInput(title));
        fx.push(Effect::FocusEditInput);
        fx.push(Effect::Notify);
        proof {
            assert(effect_views(fx@) =~= effect_views(fx12) + seq![
                EffectView::FillEditInput(title@),
                EffectView::FocusEditInput,
                EffectView::Notify,
            ]);
        }
        fx
    }

    /// Escape: closes the rename field, else the new-task field, else the
    /// popover.
    pub fn cancel_action(&mut self) -> (fx: Vec<Effect>)
        requires
            old(self).wf(),
        ensures
            final(self).wf(),
            if old(self)@.editing_id is Some {
                &&& final(self)@ == (AppView { editing_id: None, ..old(self)@ })
                &&& effect_views(fx@) == seq![EffectView::FocusRoot, EffectView::Notify]
            } else if old(self)@.is_creating {
                &&& final(self)@ == after_closing_new_task(old(self)@)
                &&& effect_views(fx@) == seq![EffectView::FocusRoot, EffectView::Notify]
            } else if old(self)@.is_history_open {
                &&& final(self)@ == after_toggle_history(old(self)@, Seq::empty())
                &&& effect_views(fx@) == seq![EffectView::Notify]
            } else {
                &&& final(self)@ == old(self)@
                &&& effect_views(fx@) == Seq::<EffectView>::empty()
            },
    {
        if self.editing_id.is_some() {
            self.cancel_edit()
        } else if self.is_creating {
            self.cancel_new_task()
        } else if self.is_history_open {
            let fx = self.toggle_history("");
            proof {
                assert(effect_views(fx@) =~= seq![EffectView::Notify]);
            }
            fx
        } else {
            let fx = Vec::new();
            proof {
                assert(effect_views(fx@) =~= Seq::<EffectView>::empty());
            }
            fx
        }
    }

    /// The delete shortcut: removes the task under the pointer, if any.
    pub fn delete_hovered(&mut self) -> (fx: Vec<Effect>)
        requires
            old(self).wf(),
        ensures
            final(self).wf(),
            match old(self)@.hovered_id {
                Some(id) => {
                    &&& final(self)@ == after_delete(old(self)@, id)
                    &&& effect_views(fx@) == seq![EffectView::SaveTasks, EffectView::Notify]
                },
                None => final(self)@ == old(self)@ && effect_views(fx@) == Seq::<EffectView>::empty(),
            },
    {
        match self.hovered_id.clone() {
            Some(id) => self.delete_task(id.as_str()),
            None => {
                let fx = Vec::new();
                proof {
                    assert(effect_views(fx@) =~= Seq::<EffectView>::empty());
                }
                fx
            },
        }
    }

    /// The pointer enters or leaves a row. Leaving also disarms a delete
    /// armed on it, so an armed button scrolled out of reach is no trap.
    pub fn row_hover_changed(&mut self, id: &str, hovered: bool) -> (fx: Vec<Effect>)
        requires
            old(self).wf(),
        ensures
            final(self).wf(),
            final(self)@ == (if hovered {
                AppView { hovered_id: Some(id@), ..old(self)@ }
            } else {
                AppView {
                    hovered_id: if old(self)@.hovered_id == Some(id@) {
                        None
                    } else {
                        old(self)@.hovered_id
                    },
                    confirm_delete: if old(self)@.confirm_delete == Some(id@) {
                        None
                    } else {
                        old(self)@.confirm_delete
                    },
                    ..old(self)@
                }
            }),
            effect_views(fx@) == seq![EffectView::Notify],
    {
        let key = id.to_owned();
        if hovered {
            self.hovered_id = Some(key);
        } else {
            let on_this = match &self.hovered_id {
                Some(h) => *h == key,
                None => false,
            };
            if on_this {
                self.hovered_id = None;
            }
            let armed_here = match &self.confirm_delete {
                Some(c) => *c == key,
                None => false,
            };
            if armed_here {
                self.confirm_delete = None;
            }
        }
        let mut fx = Vec::new();
        fx.push(Effect::Notify);
        proof {
            assert(effect_views(fx@) =~= seq![EffectView::Notify]);
        }
        fx
    }

    /// The pointer leaves a completed row: a delete armed on it is disarmed.
    pub fn completed_row_hover_changed(&mut self, id: &str, hovered: bool) -> (fx: Vec<Effect>)
        requires
            old(self).wf(),
        ensures
            final(self).wf(),
            if !hovered && old(self)@.confirm_delete == Some(id@) {
                &&& final(self)@ == (AppView { confirm_delete: None, ..old(self)@ })
                &&& effect_views(fx@) == seq![EffectView::Notify]
            } else {
                &&& final(self)@ == old(self)@
                &&& effect_views(fx@) == Seq::<EffectView>::empty()
            },
    {
        if hovered {
            let fx = Vec::new();
            proof {
                assert(effect_views(fx@) =~= Seq::<EffectView>::empty());
            }
            return fx;
        }
        self.delete_confirm_expired(id)
    }

    /// The pointer leaves "clear completed": an armed clear is disarmed.
    pub fn clear_button_hover_changed(&mut self, hovered: bool) -> (fx: Vec<Effect>)
        requires
            old(self).wf(),
        ensures
            final(self).wf(),
            if !hovered && old(self)@.confirm_clear {
                &&& final(self)@ == (AppView { confirm_clear: false, ..old(self)@ })
                &&& effect_views(fx@) == seq![EffectView::Notify]
            } else {
                &&& final(self)@ == old(self)@
                &&& effect_views(fx@) == Seq::<EffectView>::empty()
            },
    {
        if hovered {
            let fx = Vec::new();
            proof {
                assert(effect_views(fx@) =~= Seq::<EffectView>::empty());
            }
            return fx;
        }
        self.clear_confirm_expired()
    }

    /// The window was drawn; `moved` says whether its geometry differs from
    /// the last one seen. The first change starts the settle delay; further
    /// changes while it runs only wait for it.
    pub fn note_window_bounds(&mut self, moved: bool) -> (fx: Vec<Effect>)
        requires
            old(self).wf(),
        ensures
            final(self).wf(),
            if moved && !old(self)@.bounds_write_queued {
                &&& final(self)@ == (AppView { bounds_write_queued: true, ..old(self)@ })
                &&& effect_views(fx@) == seq![EffectView::Start(TimerView::BoundsSettle)]
            } else {
                &&& final(self)@ == old(self)@
                &&& effect_views(fx@) == Seq::<EffectView>::empty()
            },
    {
        let mut fx = Vec::new();
        if !moved || self.bounds_write_queued {
            proof {
                assert(effect_views(fx@) =~= Seq::<EffectView>::empty());
            }
            return fx;
        }
        self.bounds_write_queued = true;
        fx.push(Effect::Start(Timer::BoundsSettle));
        proof {
            assert(effect_views(fx@) =~= seq![EffectView::Start(TimerView::BoundsSettle)]);
        }
        fx
    }

    /// The resize has settled: the geometry is written.
    pub fn bounds_settled(&mut self) -> (fx: Vec<Effect>)
        requires
            old(self).wf(),
        ensures
            final(self).wf(),
            final(self)@ == (AppView { bounds_write_queued: false, ..old(self)@ }),
            effect_views(fx@) == seq![EffectView::PersistWindowState],
    {
        self.bounds_write_queued = false;
        let mut fx = Vec::new();
        fx.push(Effect::PersistWindowState);
        proof {
            assert(effect_views(fx@) =~= seq![EffectView::PersistWindowState]);
        }
        fx
    }

    /// Reads the three lists again from the table.
    pub fn refresh_tasks(&mut self)
        requires
            old(self).wf(),
        ensures
            final(self).wf(),
            final(self)@ == with_table(old(self)@, old(self)@.table),
    {
        self.reload_lists();
    }

    /// Reads the three lists from the table, whatever they showed before.
    fn reload_lists(&mut self)
        requires
            old(self).db.wf(),
            keys_distinct(old(self).completing@),
        ensures
            final(self).wf(),
            final(self)@ == with_table(old(self)@, old(self)@.table),
    {
        if let Ok(tasks) = self.db.get_active_tasks(ColumnType::Inbox) {
            self.inbox_tasks = tasks;
        }
        if let Ok(tasks) = self.db.get_active_tasks(ColumnType::Ongoing) {
            self.ongoing_tasks = tasks;
        }
        if let Ok(tasks) = self.db.get_completed_tasks() {
            self.completed_tasks = tasks;
        }
    }
}

fn focus_root_and_notify() -> (fx: Vec<Effect>)
    ensures
        effect_views(fx@) == seq![EffectView::FocusRoot, EffectView::Notify],
{
    let mut fx = Vec::new();
    fx.push(Effect::FocusRoot);
    fx.push(Effect::Notify);
    proof {
        assert(effect_views(fx@) =~= seq![EffectView::FocusRoot, EffectView::Notify]);
    }
    fx
}

/// The first task named `id` at position `k` gives the looked-up title.
proof fn lemma_first_title(ts: Seq<TaskView>, id: Seq<char>, k: int)
    requires
        0 <= k < ts.len(),
        ts[k].id == id,
        forall|j: int| 0 <= j < k ==> (#[trigger] ts[j]).id != id,
    ensures
        ({
            let c = choose|c: int|
                0 <= c < ts.len() && (#[trigger] ts[c]).id == id && forall|j: int|
                    0 <= j < c ==> ts[j].id != id;
            c == k
        }),
{
    let c = choose|c: int|
        0 <= c < ts.len() && (#[trigger] ts[c]).id == id && forall|j: int| 0 <= j < c ==> ts[j].id != id;
    assert(0 <= c < ts.len() && ts[c].id == id && forall|j: int| 0 <= j < c ==> ts[j].id != id);
    if c < k {
        assert(ts[c].id != id);
    } else if c > k {
        assert(ts[k].id != id);
    }
}

proof fn lemma_effect_views_concat(a: Seq<Effect>, b: Seq<Effect>)
    ensures
        effect_views(a + b) == effect_views(a) + effect_views(b),
{
    assert(effect_views(a + b) =~= effect_views(a) + effect_views(b));
}

fn save_and_notify() -> (fx: Vec<Effect>)
    ensures
        effect_views(fx@) == seq![EffectView::SaveTasks, EffectView::Notify],
{
    let mut fx = Vec::new();
    fx.push(Effect::SaveTasks);
    fx.push(Effect::Notify);
    proof {
        assert(effect_views(fx@) =~= seq![EffectView::SaveTasks, EffectView::Notify]);
    }
    fx
}

/// Where `key` is among the pairs.
fn find_phase(pairs: &Vec<(String, Completing)>, key: &String) -> (r: Option<usize>)
    requires
        keys_distinct(pairs@),
    ensures
        match r {
            Some(i) => i < pairs@.len() && pairs@[i as int].0@ == key@ && phase_map(pairs@).contains_key(
                key@,
            ) && phase_map(pairs@)[key@] == pairs@[i as int].1,
            None => !phase_map(pairs@).contains_key(key@),
        },
{
    let mut i: usize = 0;
    while i < pairs.len()
        invariant
            i <= pairs.len(),
            keys_distinct(pairs@),
            forall|j: int| 0 <= j < i ==> (#[trigger] pairs@[j]).0@ != key@,
        decreases pairs.len() - i,
    {
        if pairs[i].0 == *key {
            proof {
                assert(pairs@[i as int].0@ == key@);
                assert(phase_map(pairs@).contains_key(key@));
                let c = choose|j: int| 0 <= j < pairs@.len() && (#[trigger] pairs@[j]).0@ == key@;
                assert(pairs@[c].0@ == pairs@[i as int].0@);
                assert(c == i);
            }
            return Some(i);
        }
        i += 1;
    }
    None
}

/// Sets the phase of `key`, adding it when absent.
fn set_phase(pairs: &mut Vec<(String, Completing)>, key: &String, phase: Completing)
    requires
        keys_distinct(old(pairs)@),
    ensures
        keys_distinct(final(pairs)@),
        phase_map(final(pairs)@) == phase_map(old(pairs)@).insert(key@, phase),
{
    match find_phase(pairs, key) {
        Some(i) => {
            pairs.set(i, (key.clone(), phase));
        },
        None => {
            pairs.push((key.clone(), phase));
        },
    }
    proof {
        let o = old(pairs)@;
        let n = pairs@;
        assert forall|a: int, b: int| 0 <= a < n.len() && 0 <= b < n.len() && a != b implies (#[trigger] n[a]).0@
            != (#[trigger] n[b]).0@ by {
            if a < o.len() && b < o.len() && n[a] != o[a] {
                assert(n[a].0@ == key@);
                assert(o[a].0@ == key@);
                assert(n[b] == o[b]);
            } else if a < o.len() && b < o.len() && n[b] != o[b] {
                assert(n[b].0@ == key@);
                assert(o[b].0@ == key@);
                assert(n[a] == o[a]);
            } else if a < o.len() && b < o.len() {
            } else if a == o.len() {
                assert(n[b] == o[b]);
            } else {
                assert(n[a] == o[a]);
            }
        }
        assert forall|x: Seq<char>| #[trigger] phase_map(n).contains_key(x) == phase_map(
            o,
        ).insert(key@, phase).contains_key(x) by {
            if phase_map(o).contains_key(x) {
                let i = choose|i: int| 0 <= i < o.len() && (#[trigger] o[i]).0@ == x;
                if x != key@ {
                    assert(n[i] == o[i]);
                }
            }
            if phase_map(n).contains_key(x) {
                let i = choose|i: int| 0 <= i < n.len() && (#[trigger] n[i]).0@ == x;
                if x != key@ {
                    assert(n[i] == o[i]);
                }
            }
            if x == key@ {
                let i = if n.len() > o.len() { o.len() as int } else { choose|i: int| 0 <= i < o.len() && (#[trigger] o[i]).0@ == key@ };
                assert(n[i].0@ == key@);
            }
        }
        assert forall|x: Seq<char>| #[trigger] phase_map(n).contains_key(x) implies phase_map(n)[x]
            == phase_map(o).insert(key@, phase)[x] by {
            let i = choose|i: int| 0 <= i < n.len() && (#[trigger] n[i]).0@ == x;
            if x == key@ {
                assert(n[i].1 == phase);
            } else {
                assert(n[i] == o[i]);
                let j = choose|j: int| 0 <= j < o.len() && (#[trigger] o[j]).0@ == x;
                assert(n[j] == o[j]);
                assert(i == j);
            }
        }
        assert(phase_map(n) =~= phase_map(o).insert(key@, phase));
    }
}

/// Forgets the phase of `key`.
fn clear_phase(pairs: &mut Vec<(String, Completing)>, key: &String)
    requires
        keys_distinct(old(pairs)@),
    ensures
        keys_distinct(final(pairs)@),
        phase_map(final(pairs)@) == phase_map(old(pairs)@).remove(key@),
{
    match find_phase(pairs, key) {
        Some(i) => {
            pairs.remove(i);
            proof {
                let o = old(pairs)@;
                let n = pairs@;
                assert forall|a: int| 0 <= a < n.len() implies n[a] == (if a < i {
                    o[a]
                } else {
                    o[a + 1]
                }) by {}
                assert forall|a: int, b: int|
                    0 <= a < n.len() && 0 <= b < n.len() && a != b implies (#[trigger] n[a]).0@
                    != (#[trigger] n[b]).0@ by {
                    let oa = if a < i { a } else { a + 1 };
                    let ob = if b < i { b } else { b + 1 };
                    assert(n[a] == o[oa]);
                    assert(n[b] == o[ob]);
                }
                assert forall|x: Seq<char>| #[trigger] phase_map(n).contains_key(x) == phase_map(
                    o,
                ).remove(key@).contains_key(x) by {
                    if phase_map(n).contains_key(x) {
                        let a = choose|a: int| 0 <= a < n.len() && (#[trigger] n[a]).0@ == x;
                        let oa = if a < i { a } else { a + 1 };
                        assert(n[a] == o[oa]);
                        assert(oa != i);
                    }
                    if phase_map(o).contains_key(x) && x != key@ {
                        let c = choose|c: int| 0 <= c < o.len() && (#[trigger] o[c]).0@ == x;
                        assert(c != i);
                        let a = if c < i { c } else { c - 1 };
                        assert(n[a] == o[c]);
                    }
                }
                assert forall|x: Seq<char>| #[trigger] phase_map(n).contains_key(x) implies phase_map(
                    n,
                )[x] == phase_map(o).remove(key@)[x] by {
                    let a = choose|a: int| 0 <= a < n.len() && (#[trigger] n[a]).0@ == x;
                    let oa = if a < i { a } else { a + 1 };
                    assert(n[a] == o[oa]);
                    let c = choose|c: int| 0 <= c < o.len() && (#[trigger] o[c]).0@ == x;
                    assert(c == oa);
                }
                assert(phase_map(n) =~= phase_map(o).remove(key@));
            }
        },
        None => {
            proof {
                assert(phase_map(pairs@) =~= phase_map(old(pairs)@).remove(key@));
            }
        },
    }
}

} // verus!
