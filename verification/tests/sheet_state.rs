use vibe_todo::db::Database;
use vibe_todo::model::ColumnType;
use vibe_todo::ui::{Completing, Effect, Timer, VibeTodoApp};

fn app_with(tasks: &[(&str, &str, ColumnType)]) -> VibeTodoApp {
    let mut db = Database::new_in_memory().unwrap();
    for (id, title, column) in tasks {
        db.insert_task_at(id.to_string(), 1, title, false, *column).unwrap();
    }
    VibeTodoApp::new(db, false)
}

fn titles(tasks: &Vec<vibe_todo::model::Task>) -> Vec<String> {
    tasks.iter().map(|t| t.title.clone()).collect()
}

#[test]
fn new_sheet_shows_the_table() {
    let app = app_with(&[("a", "A", ColumnType::Inbox), ("b", "B", ColumnType::Ongoing)]);
    assert_eq!(titles(app.inbox_tasks()), vec!["A"]);
    assert_eq!(titles(app.ongoing_tasks()), vec!["B"]);
    assert!(app.completed_tasks().is_empty());
    assert!(!app.is_pinned && !app.is_history_open && !app.is_creating);
}

#[test]
fn second_click_while_held_takes_it_back() {
    let mut app = app_with(&[("a", "A", ColumnType::Inbox)]);
    let fx = app.complete_task("a");
    assert_eq!(fx, vec![Effect::Notify, Effect::Start(Timer::CompletionHold("a".to_string()))]);
    assert_eq!(app.completion_phase("a"), Some(Completing::Held));
    let fx = app.complete_task("a");
    assert_eq!(fx, vec![Effect::Notify]);
    assert_eq!(app.completion_phase("a"), None);
    // The hold timer that was already running finds nothing to do.
    assert!(app.completion_hold_elapsed("a").is_empty());
    assert_eq!(titles(app.inbox_tasks()), vec!["A"]);
}

#[test]
fn check_off_holds_then_folds_then_writes() {
    let mut app = app_with(&[("a", "A", ColumnType::Inbox)]);
    app.complete_task("a");
    let fx = app.completion_hold_elapsed("a");
    assert_eq!(fx, vec![Effect::Notify, Effect::Start(Timer::CompletionCollapse("a".to_string()))]);
    assert_eq!(app.completion_phase("a"), Some(Completing::Leaving));
    // Clicks while leaving do nothing.
    assert!(app.complete_task("a").is_empty());
    assert_eq!(titles(app.inbox_tasks()), vec!["A"]);
    let fx = app.completion_collapse_elapsed("a");
    assert_eq!(fx, vec![Effect::SaveTasks, Effect::Notify]);
    assert_eq!(app.completion_phase("a"), None);
    assert!(app.inbox_tasks().is_empty());
    assert_eq!(titles(app.completed_tasks()), vec!["A"]);
    let fx = app.restore_task("a");
    assert_eq!(fx, vec![Effect::SaveTasks, Effect::Notify]);
    assert_eq!(titles(app.inbox_tasks()), vec!["A"]);
}

#[test]
fn delete_needs_two_clicks() {
    let mut app = app_with(&[("a", "A", ColumnType::Inbox), ("b", "B", ColumnType::Inbox)]);
    let fx = app.request_delete("a");
    assert_eq!(fx, vec![Effect::Notify, Effect::Start(Timer::DeleteConfirm("a".to_string()))]);
    assert_eq!(app.confirm_delete().map(|s| s.as_str()), Some("a"));
    // A click on another row moves the arming there.
    app.request_delete("b");
    assert_eq!(app.confirm_delete().map(|s| s.as_str()), Some("b"));
    let fx = app.request_delete("b");
    assert_eq!(fx, vec![Effect::SaveTasks, Effect::Notify]);
    assert_eq!(app.confirm_delete(), None);
    assert_eq!(titles(app.inbox_tasks()), vec!["A"]);
}

#[test]
fn armed_delete_expires() {
    let mut app = app_with(&[("a", "A", ColumnType::Inbox)]);
    app.request_delete("a");
    assert!(app.delete_confirm_expired("b").is_empty());
    assert_eq!(app.delete_confirm_expired("a"), vec![Effect::Notify]);
    assert_eq!(app.confirm_delete(), None);
    // A later click arms again instead of deleting.
    app.request_delete("a");
    assert_eq!(titles(app.inbox_tasks()), vec!["A"]);
}

#[test]
fn leaving_a_row_disarms_its_delete() {
    let mut app = app_with(&[("a", "A", ColumnType::Inbox)]);
    app.row_hover_changed("a", true);
    assert_eq!(app.hovered_id().map(|s| s.as_str()), Some("a"));
    app.request_delete("a");
    let fx = app.row_hover_changed("a", false);
    assert_eq!(fx, vec![Effect::Notify]);
    assert_eq!(app.hovered_id(), None);
    assert_eq!(app.confirm_delete(), None);
}

#[test]
fn delete_shortcut_removes_hovered_row() {
    let mut app = app_with(&[("a", "A", ColumnType::Inbox), ("b", "B", ColumnType::Inbox)]);
    assert!(app.delete_hovered().is_empty());
    app.row_hover_changed("b", true);
    let fx = app.delete_hovered();
    assert_eq!(fx, vec![Effect::SaveTasks, Effect::Notify]);
    assert_eq!(app.hovered_id(), None);
    assert_eq!(titles(app.inbox_tasks()), vec!["A"]);
}

#[test]
fn clear_completed_needs_two_clicks_and_expires() {
    let mut app = app_with(&[("a", "A", ColumnType::Inbox), ("b", "B", ColumnType::Inbox)]);
    app.complete_task("a");
    app.completion_hold_elapsed("a");
    app.completion_collapse_elapsed("a");
    let fx = app.clear_completed();
    assert_eq!(fx, vec![Effect::Notify, Effect::Start(Timer::ClearConfirm)]);
    assert!(app.confirm_clear());
    assert_eq!(app.clear_confirm_expired(), vec![Effect::Notify]);
    assert!(!app.confirm_clear());
    assert!(app.clear_confirm_expired().is_empty());
    app.clear_completed();
    assert_eq!(app.clear_button_hover_changed(false), vec![Effect::Notify]);
    assert!(!app.confirm_clear());
    app.clear_completed();
    let fx = app.clear_completed();
    assert_eq!(fx, vec![Effect::SaveTasks, Effect::Notify]);
    assert!(app.completed_tasks().is_empty());
    assert_eq!(titles(app.inbox_tasks()), vec!["B"]);
}

#[test]
fn new_task_field_trims_and_drops_empty_text() {
    let mut app = app_with(&[]);
    let fx = app.start_creating("");
    assert_eq!(
        fx,
        vec![
            Effect::ClearNewTaskInput,
            Effect::ScrollToInbox,
            Effect::FocusNewTaskInput,
            Effect::Notify
        ]
    );
    assert!(app.is_creating);
    // Opening it again would wipe what is in it, so it does nothing.
    assert!(app.start_creating("").is_empty());
    let fx = app.commit_new_task("   \t ");
    assert_eq!(fx, vec![Effect::ClearNewTaskInput, Effect::FocusRoot, Effect::Notify]);
    assert!(!app.is_creating);
    assert!(app.inbox_tasks().is_empty());
    app.start_creating("");
    let fx = app.commit_new_task("  buy milk  ");
    assert_eq!(
        fx,
        vec![Effect::SaveTasks, Effect::ClearNewTaskInput, Effect::FocusRoot, Effect::Notify]
    );
    assert_eq!(titles(app.inbox_tasks()), vec!["buy milk"]);
}

#[test]
fn renaming_keeps_old_title_when_emptied() {
    let mut app = app_with(&[("a", "A", ColumnType::Ongoing)]);
    let fx = app.start_editing("a", "");
    assert_eq!(
        fx,
        vec![Effect::FillEditInput("A".to_string()), Effect::FocusEditInput, Effect::Notify]
    );
    assert_eq!(app.editing_id().map(|s| s.as_str()), Some("a"));
    assert!(app.is_editing());
    assert!(app.start_editing("a", "whatever").is_empty());
    let fx = app.commit_edit("   ");
    assert_eq!(fx, vec![Effect::FocusRoot, Effect::Notify]);
    assert_eq!(titles(app.ongoing_tasks()), vec!["A"]);
    app.start_editing("a", "");
    let fx = app.commit_edit(" New ");
    assert_eq!(fx, vec![Effect::SaveTasks, Effect::FocusRoot, Effect::Notify]);
    assert_eq!(titles(app.ongoing_tasks()), vec!["New"]);
    assert_eq!(app.find_task_title("a"), Some("New".to_string()));
    assert_eq!(app.find_task_title("zz"), None);
    assert!(app.commit_edit("ignored").is_empty());
}

#[test]
fn switching_rows_while_renaming_keeps_the_first_edit() {
    let mut app = app_with(&[("a", "A", ColumnType::Inbox), ("b", "B", ColumnType::Inbox)]);
    app.start_editing("a", "");
    let fx = app.start_editing("b", "A2");
    assert_eq!(
        fx,
        vec![
            Effect::SaveTasks,
            Effect::FocusRoot,
            Effect::Notify,
            Effect::FillEditInput("B".to_string()),
            Effect::FocusEditInput,
            Effect::Notify
        ]
    );
    assert_eq!(titles(app.inbox_tasks()), vec!["B", "A2"]);
    assert_eq!(app.editing_id().map(|s| s.as_str()), Some("b"));
}

#[test]
fn opening_history_finishes_and_disarms() {
    let mut app = app_with(&[("a", "A", ColumnType::Inbox)]);
    app.start_creating("");
    app.request_delete("a");
    app.row_hover_changed("a", true);
    let fx = app.toggle_history("");
    assert_eq!(fx, vec![Effect::FocusRoot, Effect::Notify, Effect::Notify]);
    assert!(app.is_history_open);
    assert!(!app.is_creating);
    assert_eq!(app.confirm_delete(), None);
    assert_eq!(app.hovered_id(), None);
    let fx = app.cancel_action();
    assert_eq!(fx, vec![Effect::Notify]);
    assert!(!app.is_history_open);
    assert!(app.cancel_action().is_empty());
}

#[test]
fn escape_closes_rename_before_anything_else() {
    let mut app = app_with(&[("a", "A", ColumnType::Inbox)]);
    app.start_editing("a", "");
    let fx = app.cancel_action();
    assert_eq!(fx, vec![Effect::FocusRoot, Effect::Notify]);
    assert_eq!(app.editing_id(), None);
    assert_eq!(titles(app.inbox_tasks()), vec!["A"]);
    app.start_creating("");
    assert_eq!(app.cancel_action(), vec![Effect::FocusRoot, Effect::Notify]);
    assert!(!app.is_creating);
}

#[test]
fn pin_flips_and_is_written() {
    let mut app = app_with(&[]);
    let fx = app.toggle_pin();
    assert_eq!(
        fx,
        vec![Effect::SetWindowOnTop(true), Effect::PersistWindowState, Effect::Notify]
    );
    assert!(app.is_pinned);
    assert_eq!(app.toggle_pin()[0], Effect::SetWindowOnTop(false));
}

#[test]
fn window_geometry_is_written_once_it_settles() {
    let mut app = app_with(&[]);
    assert!(app.note_window_bounds(false).is_empty());
    assert_eq!(app.note_window_bounds(true), vec![Effect::Start(Timer::BoundsSettle)]);
    assert!(app.note_window_bounds(true).is_empty());
    assert_eq!(app.bounds_settled(), vec![Effect::PersistWindowState]);
    assert_eq!(app.note_window_bounds(true), vec![Effect::Start(Timer::BoundsSettle)]);
}

#[test]
fn sheet_actions_reorder_and_move() {
    let mut app = app_with(&[
        ("a", "A", ColumnType::Inbox),
        ("b", "B", ColumnType::Inbox),
        ("c", "C", ColumnType::Ongoing),
    ]);
    app.reposition_task("a", ColumnType::Ongoing, Some("c"));
    assert_eq!(titles(app.ongoing_tasks()), vec!["A", "C"]);
    assert_eq!(titles(app.inbox_tasks()), vec!["B"]);
    app.move_task("c", ColumnType::Inbox);
    assert_eq!(titles(app.inbox_tasks()), vec!["B", "C"]);
    app.toggle_priority("b");
    assert!(app.inbox_tasks()[0].is_priority);
    assert_eq!(app.completed_row_hover_changed("a", false), Vec::<Effect>::new());
}

#[test]
fn delays_are_the_documented_ones() {
    assert_eq!(Timer::CompletionHold("a".to_string()).delay_millis(), 240);
    assert_eq!(Timer::CompletionCollapse("a".to_string()).delay_millis(), 160);
    assert_eq!(Timer::DeleteConfirm("a".to_string()).delay_millis(), 3000);
    assert_eq!(Timer::ClearConfirm.delay_millis(), 3000);
    assert_eq!(Timer::BoundsSettle.delay_millis(), 500);
}

#[test]
fn trimming_removes_unicode_white_space_only_at_the_ends() {
    let mut app = app_with(&[]);
    app.start_creating("");
    app.commit_new_task("\u{3000}\u{a0} a\u{2003}b\t\u{85}\n");
    assert_eq!(titles(app.inbox_tasks()), vec!["a\u{2003}b"]);
    app.start_creating("");
    app.commit_new_task("\u{200b}x");
    // U+200B is not white space, so it stays.
    assert_eq!(titles(app.inbox_tasks())[0], "\u{200b}x");
}

#[test]
fn drawing_decisions_follow_the_sheet() {
    let mut app = app_with(&[("b", "B", ColumnType::Ongoing)]);
    assert!(!app.shows_add_row(ColumnType::Inbox));
    assert!(app.shows_empty_copy(ColumnType::Inbox));
    assert!(!app.shows_empty_copy(ColumnType::Ongoing));
    app.start_creating("");
    assert!(app.shows_add_row(ColumnType::Inbox));
    assert!(!app.shows_add_row(ColumnType::Ongoing));
    assert!(!app.shows_empty_copy(ColumnType::Inbox));
    app.cancel_new_task();
    assert!(app.shows_hover_tray("b"));
    app.start_editing("b", "B");
    assert!(!app.shows_hover_tray("b"));
    app.cancel_edit();
    app.complete_task("b");
    assert!(!app.shows_hover_tray("b"));
}
