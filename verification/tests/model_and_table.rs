use vibe_todo::db::{Database, DbError};
use vibe_todo::listing::Listing;
use vibe_todo::model::ColumnType;
use vibe_todo::window_level::set_window_always_on_top;

fn titles(db: &Database, column: ColumnType) -> Vec<String> {
    db.get_active_tasks(column)
        .unwrap()
        .iter()
        .map(|t| t.title.clone())
        .collect()
}

#[test]
fn column_names_round_trip() {
    assert_eq!(ColumnType::Inbox.as_str(), "inbox");
    assert_eq!(ColumnType::Ongoing.as_str(), "ongoing");
    assert_eq!(ColumnType::from_str(ColumnType::Inbox.as_str()), ColumnType::Inbox);
    assert_eq!(ColumnType::from_str(ColumnType::Ongoing.as_str()), ColumnType::Ongoing);
}

#[test]
fn unknown_column_falls_back_to_inbox() {
    assert_eq!(ColumnType::from_str("done"), ColumnType::Inbox);
    assert_eq!(ColumnType::from_str(""), ColumnType::Inbox);
    assert_eq!(ColumnType::from_str("Ongoing"), ColumnType::Inbox);
}

#[test]
fn fresh_ids_are_hyphenated_uuids() {
    let mut db = Database::new_in_memory().unwrap();
    let t = db.insert_task("x", false, ColumnType::Inbox).unwrap();
    assert_eq!(t.id.len(), 36);
    for (i, c) in t.id.chars().enumerate() {
        if i == 8 || i == 13 || i == 18 || i == 23 {
            assert_eq!(c, '-');
        } else {
            assert!(c.is_ascii_hexdigit() && !c.is_ascii_uppercase());
        }
    }
    // Version 4, RFC 4122 variant.
    let digits: Vec<char> = t.id.chars().collect();
    assert_eq!(digits[14], '4');
    assert!(matches!(digits[19], '8' | '9' | 'a' | 'b'));
    let u = db.insert_task("y", false, ColumnType::Inbox).unwrap();
    assert_ne!(t.id, u.id);
    // The creation time is the clock in milliseconds since 1970: after 2020.
    assert!(t.created_at > 1_577_836_800_000);
    assert_eq!(t.completed_at, None);
    assert!(!t.is_completed);
}

#[test]
fn new_task_goes_on_top_of_its_section_only() {
    let mut db = Database::new_in_memory().unwrap();
    db.insert_task_at("a".to_string(), 1, "A", false, ColumnType::Inbox).unwrap();
    db.insert_task_at("b".to_string(), 2, "B", false, ColumnType::Ongoing).unwrap();
    db.insert_task_at("c".to_string(), 3, "C", true, ColumnType::Inbox).unwrap();
    assert_eq!(titles(&db, ColumnType::Inbox), vec!["C", "A"]);
    assert_eq!(titles(&db, ColumnType::Ongoing), vec!["B"]);
}

#[test]
fn taken_id_is_refused() {
    let mut db = Database::new_in_memory().unwrap();
    db.insert_task_at("a".to_string(), 1, "A", false, ColumnType::Inbox).unwrap();
    let r = db.insert_task_at("a".to_string(), 2, "again", true, ColumnType::Ongoing);
    assert_eq!(r.err(), Some(DbError::DuplicateId));
    assert_eq!(db.task_count(), 1);
    assert_eq!(titles(&db, ColumnType::Inbox), vec!["A"]);
}

#[test]
fn priority_toggles_and_back() {
    let mut db = Database::new_in_memory().unwrap();
    db.insert_task_at("a".to_string(), 1, "A", false, ColumnType::Inbox).unwrap();
    assert_eq!(db.toggle_task_priority("a"), Ok(true));
    assert!(db.get_active_tasks(ColumnType::Inbox).unwrap()[0].is_priority);
    assert_eq!(db.toggle_task_priority("a"), Ok(false));
    assert!(!db.get_active_tasks(ColumnType::Inbox).unwrap()[0].is_priority);
    assert_eq!(db.toggle_task_priority("missing"), Err(DbError::NotFound));
}

#[test]
fn completed_list_is_newest_first() {
    let mut db = Database::new_in_memory().unwrap();
    for (id, title) in [("a", "A"), ("b", "B"), ("c", "C")] {
        db.insert_task_at(id.to_string(), 1, title, false, ColumnType::Inbox).unwrap();
    }
    db.complete_task_at("b", 50).unwrap();
    db.complete_task_at("a", 70).unwrap();
    db.complete_task_at("c", 60).unwrap();
    let done: Vec<String> = db
        .get_completed_tasks()
        .unwrap()
        .iter()
        .map(|t| t.title.clone())
        .collect();
    assert_eq!(done, vec!["A", "C", "B"]);
    assert_eq!(db.get_completed_tasks().unwrap()[0].completed_at, Some(70));
    assert!(titles(&db, ColumnType::Inbox).is_empty());
}

#[test]
fn restore_puts_task_back_in_its_place() {
    let mut db = Database::new_in_memory().unwrap();
    for (id, title) in [("a", "A"), ("b", "B"), ("c", "C")] {
        db.insert_task_at(id.to_string(), 1, title, false, ColumnType::Ongoing).unwrap();
    }
    assert_eq!(titles(&db, ColumnType::Ongoing), vec!["C", "B", "A"]);
    db.complete_task_at("b", 9).unwrap();
    assert_eq!(titles(&db, ColumnType::Ongoing), vec!["C", "A"]);
    db.restore_task("b").unwrap();
    assert_eq!(titles(&db, ColumnType::Ongoing), vec!["C", "B", "A"]);
    let b = &db.get_active_tasks(ColumnType::Ongoing).unwrap()[1];
    assert!(!b.is_completed);
    assert_eq!(b.completed_at, None);
}

#[test]
fn drag_across_sections_lands_above_anchor() {
    let mut db = Database::new_in_memory().unwrap();
    for (id, title) in [("a", "A"), ("b", "B"), ("c", "C")] {
        db.insert_task_at(id.to_string(), 1, title, false, ColumnType::Ongoing).unwrap();
    }
    db.insert_task_at("x".to_string(), 1, "X", false, ColumnType::Inbox).unwrap();
    db.insert_task_at("y".to_string(), 1, "Y", false, ColumnType::Inbox).unwrap();
    // Ongoing reads C, B, A; inbox reads Y, X.
    db.reposition_task("x", ColumnType::Ongoing, Some("b")).unwrap();
    assert_eq!(titles(&db, ColumnType::Ongoing), vec!["C", "X", "B", "A"]);
    assert_eq!(titles(&db, ColumnType::Inbox), vec!["Y"]);
    let x = &db.get_active_tasks(ColumnType::Ongoing).unwrap()[1];
    assert_eq!(x.column, ColumnType::Ongoing);
}

#[test]
fn drag_onto_unknown_anchor_goes_last() {
    let mut db = Database::new_in_memory().unwrap();
    for (id, title) in [("a", "A"), ("b", "B"), ("c", "C")] {
        db.insert_task_at(id.to_string(), 1, title, false, ColumnType::Inbox).unwrap();
    }
    db.reposition_task("c", ColumnType::Inbox, Some("nowhere")).unwrap();
    assert_eq!(titles(&db, ColumnType::Inbox), vec!["B", "A", "C"]);
    db.reposition_task("a", ColumnType::Inbox, Some("b")).unwrap();
    assert_eq!(titles(&db, ColumnType::Inbox), vec!["A", "B", "C"]);
}

#[test]
fn move_sends_task_to_end_of_other_section() {
    let mut db = Database::new_in_memory().unwrap();
    db.insert_task_at("a".to_string(), 1, "A", false, ColumnType::Ongoing).unwrap();
    db.insert_task_at("b".to_string(), 1, "B", false, ColumnType::Ongoing).unwrap();
    db.insert_task_at("x".to_string(), 1, "X", false, ColumnType::Inbox).unwrap();
    db.move_task_column("x", ColumnType::Ongoing).unwrap();
    assert_eq!(titles(&db, ColumnType::Ongoing), vec!["B", "A", "X"]);
    db.move_task_column("b", ColumnType::Inbox).unwrap();
    assert_eq!(titles(&db, ColumnType::Inbox), vec!["B"]);
    assert_eq!(titles(&db, ColumnType::Ongoing), vec!["A", "X"]);
}

#[test]
fn rename_delete_and_clear() {
    let mut db = Database::new_in_memory().unwrap();
    db.insert_task_at("a".to_string(), 1, "A", false, ColumnType::Inbox).unwrap();
    db.insert_task_at("b".to_string(), 1, "B", false, ColumnType::Inbox).unwrap();
    db.insert_task_at("c".to_string(), 1, "C", false, ColumnType::Inbox).unwrap();
    db.update_task_title("a", "Renamed").unwrap();
    assert_eq!(titles(&db, ColumnType::Inbox), vec!["C", "B", "Renamed"]);
    db.delete_task("missing").unwrap();
    assert_eq!(db.task_count(), 3);
    db.delete_task("b").unwrap();
    assert_eq!(titles(&db, ColumnType::Inbox), vec!["C", "Renamed"]);
    db.complete_task_at("c", 5).unwrap();
    db.clear_completed_tasks().unwrap();
    assert_eq!(db.task_count(), 1);
    assert_eq!(titles(&db, ColumnType::Inbox), vec!["Renamed"]);
    assert!(db.read_listing(Listing::Completed).is_empty());
}

#[test]
fn pinning_off_macos_does_nothing() {
    set_window_always_on_top(true);
    set_window_always_on_top(false);
}

#[test]
fn three_reads_split_the_table() {
    let mut db = Database::new_in_memory().unwrap();
    for (id, column) in [
        ("a", ColumnType::Inbox),
        ("b", ColumnType::Ongoing),
        ("c", ColumnType::Inbox),
        ("d", ColumnType::Ongoing),
    ] {
        db.insert_task_at(id.to_string(), 1, id, false, column).unwrap();
    }
    db.complete_task_at("c", 5).unwrap();
    db.complete_task_at("b", 6).unwrap();
    let mut all: Vec<String> = Vec::new();
    for tasks in [
        db.get_active_tasks(ColumnType::Inbox).unwrap(),
        db.get_active_tasks(ColumnType::Ongoing).unwrap(),
        db.get_completed_tasks().unwrap(),
    ] {
        all.extend(tasks.iter().map(|t| t.id.clone()));
    }
    assert_eq!(all, vec!["a", "d", "b", "c"]);
}

#[test]
fn reads_hold_the_ids_inserted_and_not_deleted_or_cleared() {
    let mut db = Database::new_in_memory().unwrap();
    let mut made: Vec<String> = Vec::new();
    for (title, column) in [
        ("one", ColumnType::Inbox),
        ("two", ColumnType::Ongoing),
        ("three", ColumnType::Inbox),
        ("four", ColumnType::Ongoing),
        ("five", ColumnType::Inbox),
    ] {
        made.push(db.insert_task(title, false, column).unwrap().id);
    }
    db.complete_task(&made[0]).unwrap();
    db.complete_task(&made[1]).unwrap();
    db.restore_task(&made[1]).unwrap();
    db.complete_task(&made[3]).unwrap();
    db.delete_task(&made[2]).unwrap();
    db.move_task_column(&made[4], ColumnType::Ongoing).unwrap();
    db.clear_completed_tasks().unwrap();
    db.complete_task(&made[4]).unwrap();
    let mut all: Vec<String> = Vec::new();
    for tasks in [
        db.get_active_tasks(ColumnType::Inbox).unwrap(),
        db.get_active_tasks(ColumnType::Ongoing).unwrap(),
        db.get_completed_tasks().unwrap(),
    ] {
        all.extend(tasks.iter().map(|t| t.id.clone()));
    }
    let mut sorted = all.clone();
    sorted.sort();
    sorted.dedup();
    assert_eq!(sorted.len(), all.len());
    let mut expected = vec![made[1].clone(), made[4].clone()];
    expected.sort();
    assert_eq!(sorted, expected);
    let done: Vec<String> = db.get_completed_tasks().unwrap().iter().map(|t| t.id.clone()).collect();
    assert_eq!(done, vec![made[4].clone()]);
}

#[test]
fn the_other_section() {
    assert_eq!(ColumnType::Inbox.other(), ColumnType::Ongoing);
    assert_eq!(ColumnType::Ongoing.other(), ColumnType::Inbox);
}
