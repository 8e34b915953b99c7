use vibe_todo::db::{Database, DbError};
use vibe_todo::model::ColumnType;

#[test]
fn test_task_lifecycle() -> Result<(), DbError> {
    let mut db = Database::new_in_memory()?;

    // 1. Insert normal task into Inbox
    let task1 = db.insert_task("Normal task in Inbox", false, ColumnType::Inbox)?;
    assert_eq!(task1.column, ColumnType::Inbox);
    assert!(!task1.is_priority);

    // 2. Insert high priority task into Inbox
    let task2 = db.insert_task("High priority task", true, ColumnType::Inbox)?;
    assert!(task2.is_priority);

    // 3. Newest task sits at the top
    let active_inbox = db.get_active_tasks(ColumnType::Inbox)?;
    assert_eq!(active_inbox.len(), 2);
    assert_eq!(active_inbox[0].id, task2.id);
    assert_eq!(active_inbox[1].id, task1.id);

    // 3b. Hand-ordering wins over priority
    db.reposition_task(&task2.id, ColumnType::Inbox, None)?;
    let reordered = db.get_active_tasks(ColumnType::Inbox)?;
    assert_eq!(reordered[0].id, task1.id);
    assert_eq!(reordered[1].id, task2.id);

    // 3c. Dragging a row down its own column lands exactly above the anchor
    let a = db.insert_task("a", false, ColumnType::Ongoing)?;
    let b = db.insert_task("b", false, ColumnType::Ongoing)?;
    let c = db.insert_task("c", false, ColumnType::Ongoing)?;
    // insert_task puts newest on top, so the column reads c, b, a
    db.reposition_task(&c.id, ColumnType::Ongoing, Some(&a.id))?;
    let order: Vec<String> = db
        .get_active_tasks(ColumnType::Ongoing)?
        .iter()
        .map(|t| t.title.clone())
        .collect();
    assert_eq!(order, vec!["b", "c", "a"]);
    for t in [&a, &b, &c] {
        db.delete_task(&t.id)?;
    }

    // 3d. Dropping a row onto itself leaves the order untouched
    let a = db.insert_task("a", false, ColumnType::Ongoing)?;
    let b = db.insert_task("b", false, ColumnType::Ongoing)?;
    let c = db.insert_task("c", false, ColumnType::Ongoing)?;
    db.reposition_task(&b.id, ColumnType::Ongoing, Some(&b.id))?;
    let order: Vec<String> = db
        .get_active_tasks(ColumnType::Ongoing)?
        .iter()
        .map(|t| t.title.clone())
        .collect();
    assert_eq!(order, vec!["c", "b", "a"]);
    for t in [&a, &b, &c] {
        db.delete_task(&t.id)?;
    }

    // 4. Move task1 to Ongoing
    db.move_task_column(&task1.id, ColumnType::Ongoing)?;
    assert_eq!(db.get_active_tasks(ColumnType::Inbox)?.len(), 1);
    assert_eq!(db.get_active_tasks(ColumnType::Ongoing)?.len(), 1);

    // 5. Complete task1 directly from Ongoing
    db.complete_task(&task1.id)?;
    assert_eq!(db.get_active_tasks(ColumnType::Ongoing)?.len(), 0);
    assert_eq!(db.get_completed_tasks()?.len(), 1);

    // 6. Complete task2 directly from Inbox
    db.complete_task(&task2.id)?;
    assert_eq!(db.get_active_tasks(ColumnType::Inbox)?.len(), 0);
    assert_eq!(db.get_completed_tasks()?.len(), 2);

    // 7. Restore task1
    db.restore_task(&task1.id)?;
    assert_eq!(db.get_completed_tasks()?.len(), 1);
    assert_eq!(db.get_active_tasks(ColumnType::Ongoing)?.len(), 1);

    // 8. Clear completed
    db.clear_completed_tasks()?;
    assert_eq!(db.get_completed_tasks()?.len(), 0);

    Ok(())
}
