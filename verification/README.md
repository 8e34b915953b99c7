# Vibe Todo

A todo window with two sections, "进行中" (what is being worked on) above
"收件箱" (everything else). This crate is its core, verified with Verus; the
window itself, drawn with gpui, and the SQLite file it keeps are in `app/`.

## Layout

| Path | What is in it |
| --- | --- |
| `src/model.rs` | `ColumnType`, `Task`, and how a column is written as text |
| `src/listing.rs` | Rows of the task table and the two reads: a section's open tasks in hand-made order, completed tasks newest first |
| `src/db.rs` | `Database`, the task table: insert at the top, drag-to-reorder, complete, restore, rename, delete, clear |
| `src/properties.rs` | What the operations promise together: a new task lands on top, a dragged task lands above its anchor, undo pairs, order kept by deletes |
| `src/history.rs` | Any run of operations from the empty table: the three reads never repeat an id and hold exactly the ids inserted and not since deleted or cleared |
| `src/ui.rs` | `VibeTodoApp`, the window's decisions: two-step completion, two-click deletes, the new-task and rename fields, and the effects each action asks the window to carry out |
| `src/external.rs` | Fresh ids (uuid), the clock (chrono) and trimming |
| `src/theme.rs`, `src/window_level.rs` | Colours; pinning where there is no window level |
| `app/` | `main`, the gpui view, the SQLite storage, icons, and pinning on macOS |

## Tests

`tests/` runs the library against an in-memory table.
