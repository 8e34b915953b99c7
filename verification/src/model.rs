use vstd::prelude::*;

verus! {

/// Which section of the sheet a task belongs to.
#[derive(Debug, Clone, Copy, PartialEq, Eq, Structural)]
pub enum ColumnType {
    Inbox,
    Ongoing,
}

/// The text a column is stored under.
pub open spec fn column_name(column: ColumnType) -> Seq<char> {
    match column {
        ColumnType::Inbox => "inbox"@,
        ColumnType::Ongoing => "ongoing"@,
    }
}

/// Reading a stored column back: anything that is not `"ongoing"` is the inbox,
/// so a hand-edited row still opens instead of being dropped.
pub open spec fn column_from_name(s: Seq<char>) -> ColumnType {
    if s == "ongoing"@ {
        ColumnType::Ongoing
    } else {
        ColumnType::Inbox
    }
}

impl ColumnType {
    pub fn as_str(&self) -> (s: &'static str)
        ensures
            s@ == column_name(*self),
    {
        match self {
            ColumnType::Inbox => "inbox",
            ColumnType::Ongoing => "ongoing",
        }
    }

    /// The other section: where a row's move button sends it.
    pub fn other(self) -> (c: ColumnType)
        ensures
            c != self,
    {
        match self {
            ColumnType::Inbox => ColumnType::Ongoing,
            ColumnType::Ongoing => ColumnType::Inbox,
        }
    }

    pub fn from_str(s: &str) -> (c: ColumnType)
        ensures
            c == column_from_name(s@),
    {
        let given = s.to_owned();
        let ongoing = String::from_str("ongoing");
        if given == ongoing {
            ColumnType::Ongoing
        } else {
            ColumnType::Inbox
        }
    }
}

/// Reading back what was written gives the same column.
pub proof fn lemma_column_name_round_trip(column: ColumnType)
    ensures
        column_from_name(column_name(column)) == column,
{
    reveal_strlit("inbox");
    reveal_strlit("ongoing");
    if column is Inbox {
        assert("inbox"@ != "ongoing"@) by {
            assert("inbox"@.len() != "ongoing"@.len());
        }
    }
}

#[derive(Debug, Clone)]
pub struct Task {
    pub id: String,
    pub title: String,
    pub column: ColumnType,
    pub is_priority: bool,
    pub is_completed: bool,
    pub created_at: i64,
    pub completed_at: Option<i64>,
}

/// A task as plain values.
pub struct TaskView {
    pub id: Seq<char>,
    pub title: Seq<char>,
    pub column: ColumnType,
    pub is_priority: bool,
    pub is_completed: bool,
    pub created_at: i64,
    pub completed_at: Option<i64>,
}

impl View for Task {
    type V = TaskView;

    open spec fn view(&self) -> TaskView {
        TaskView {
            id: self.id@,
            title: self.title@,
            column: self.column,
            is_priority: self.is_priority,
            is_completed: self.is_completed,
            created_at: self.created_at,
            completed_at: self.completed_at,
        }
    }
}

impl Task {
    /// A field-by-field copy that Verus can see through.
    pub fn duplicate(&self) -> (t: Task)
        ensures
            t == *self,
    {
        Task {
            id: self.id.clone(),
            title: self.title.clone(),
            column: self.column,
            is_priority: self.is_priority,
            is_completed: self.is_completed,
            created_at: self.created_at,
            completed_at: self.completed_at,
        }
    }
}

} // verus!
