//! Snapshot values shared by the command line and the bar widget.
use vstd::prelude::*;

verus! {

/// Whether a snapshot carries data or an error.
#[derive(Debug, Clone, Copy, PartialEq, Eq)]
pub enum State {
    Ready,
    Error,
}

/// One checkbox todo of a daily note.
#[derive(Debug, Clone, PartialEq, Eq)]
pub struct TodoItem {
    /// 1-based source line number in the daily note.
    pub line: usize,
    pub checked: bool,
    pub text: String,
    /// Nesting level under its parent todo: 0 = top-level, 1 = first level
    /// of indentation, … Raw indentation is normalized so a todo never nests
    /// more than one level deeper than the todo before it.
    pub depth: usize,
    /// 1-based line of the nearest preceding todo at a shallower depth
    /// (the parent), if any.
    pub parent_line: Option<usize>,
}

/// A todo as plain values.
pub struct TodoView {
    pub line: int,
    pub checked: bool,
    pub text: Seq<char>,
    pub depth: int,
    pub parent_line: Option<int>,
}

impl TodoItem {
    pub open spec fn view(&self) -> TodoView {
        TodoView {
            line: self.line as int,
            checked: self.checked,
            text: self.text@,
            depth: self.depth as int,
            parent_line: match self.parent_line {
                Some(p) => Some(p as int),
                None => None,
            },
        }
    }
}

/// The plain views of a list of todos.
pub open spec fn todo_views(v: Seq<TodoItem>) -> Seq<TodoView> {
    v.map_values(|t: TodoItem| t.view())
}

/// One `##` section of a note.
#[derive(Debug, Clone, PartialEq, Eq)]
pub struct NoteSection {
    pub heading: String,
    pub body: String,
}

/// What the widget shows for one day.
#[derive(Debug, Clone, PartialEq)]
pub struct Snapshot {
    pub state: State,
    pub date: Option<String>,
    pub path: Option<String>,
    pub exists: Option<bool>,
    pub open_count: Option<usize>,
    pub done_count: Option<usize>,
    pub todos: Option<Vec<TodoItem>>,
    /// Free-form markdown under the notes heading (default: whole note).
    pub notes: Option<String>,
    /// Every `##` section in the daily note (heading + body).
    pub sections: Option<Vec<NoteSection>>,
    /// `##` titles of the daily template (or of the day's note).
    pub template_headings: Option<Vec<String>>,
    /// Absolute `obsidian://open?path=…` URI for the daily note path.
    pub obsidian_uri: Option<String>,
    /// Open todos on the previous calendar day (for carry-over UI).
    pub carry_over_count: Option<usize>,
    pub is_today: Option<bool>,
    /// Relative template path from daily-notes.json when configured.
    pub template_name: Option<String>,
    /// True when a template is configured and the note exists.
    pub created_from_template: Option<bool>,
    pub has_notes: Option<bool>,
    /// Machine-stable error class for UI empty states (`missing_vault`, …).
    pub error_code: Option<String>,
    pub error: Option<String>,
}

/// Open/done counts of one calendar day.
#[derive(Debug, Clone, PartialEq)]
pub struct DaySummary {
    pub date: String,
    pub open_count: usize,
    pub done_count: usize,
    pub exists: bool,
    pub is_today: bool,
    /// True when the journal body has at least one non-checkbox line.
    pub has_notes: bool,
}

/// Day summaries of a week or a month grid.
#[derive(Debug, Clone, PartialEq)]
pub struct WeekSummary {
    pub state: State,
    pub days: Option<Vec<DaySummary>>,
    pub error_code: Option<String>,
    pub error: Option<String>,
}

/// Number of unchecked todos.
pub open spec fn open_count_of(v: Seq<TodoItem>) -> nat
    decreases v.len(),
{
    if v.len() == 0 {
        0
    } else {
        open_count_of(v.drop_last()) + if v.last().checked {
            0nat
        } else {
            1nat
        }
    }
}

/// Number of checked todos.
pub open spec fn done_count_of(v: Seq<TodoItem>) -> nat
    decreases v.len(),
{
    if v.len() == 0 {
        0
    } else {
        done_count_of(v.drop_last()) + if v.last().checked {
            1nat
        } else {
            0nat
        }
    }
}

pub proof fn lemma_counts_add_up(v: Seq<TodoItem>)
    ensures
        open_count_of(v) + done_count_of(v) == v.len(),
    decreases v.len(),
{
    if v.len() > 0 {
        lemma_counts_add_up(v.drop_last());
    }
}

/// Open and done counts of `todos`.
pub fn count_todos(todos: &Vec<TodoItem>) -> (r: (usize, usize))
    ensures
        r.0 == open_count_of(todos@),
        r.1 == done_count_of(todos@),
{
    let mut open: usize = 0;
    let mut done: usize = 0;
    let mut i: usize = 0;
    while i < todos.len()
        invariant
            i <= todos.len(),
            open == open_count_of(todos@.take(i as int)),
            done == done_count_of(todos@.take(i as int)),
        decreases todos.len() - i,
    {
        proof {
            assert(todos@.take(i + 1).drop_last() =~= todos@.take(i as int));
            lemma_counts_add_up(todos@.take(i as int));
        }
        if todos[i].checked {
            done = done + 1;
        } else {
            open = open + 1;
        }
        i = i + 1;
    }
    assert(todos@.take(todos.len() as int) =~= todos@);
    (open, done)
}

impl Snapshot {
    /// An error snapshot with the `io` error code.
    pub fn error(message: String) -> (s: Snapshot)
        ensures
            s.state == State::Error,
            s.error == Some(message),
            s.error_code matches Some(c) && c@ == seq!['i', 'o'],
            s.date is None && s.path is None && s.todos is None && s.notes is None,
    {
        let code = String::from_str("io");
        proof {
            reveal_strlit("io");
        }
        Self::error_with_code(message, code)
    }

    /// An error snapshot: only the state, the code and the message are set.
    pub fn error_with_code(message: String, code: String) -> (s: Snapshot)
        ensures
            s.state == State::Error,
            s.error == Some(message),
            s.error_code == Some(code),
            s.date is None && s.path is None && s.exists is None,
            s.open_count is None && s.done_count is None && s.todos is None,
            s.notes is None && s.sections is None && s.template_headings is None,
            s.obsidian_uri is None && s.carry_over_count is None && s.is_today is None,
            s.template_name is None && s.created_from_template is None && s.has_notes is None,
    {
        Snapshot {
            state: State::Error,
            date: None,
            path: None,
            exists: None,
            open_count: None,
            done_count: None,
            todos: None,
            notes: None,
            sections: None,
            template_headings: None,
            obsidian_uri: None,
            carry_over_count: None,
            is_today: None,
            template_name: None,
            created_from_template: None,
            has_notes: None,
            error_code: Some(code),
            error: Some(message),
        }
    }

    /// A data snapshot of one day's todos, with their open and done counts;
    /// the other fields are left unset.
    pub fn ok(date: String, path: String, exists: bool, todos: Vec<TodoItem>) -> (s: Snapshot)
        ensures
            s.state == State::Ready,
            s.date == Some(date),
            s.path == Some(path),
            s.exists == Some(exists),
            s.open_count == Some(open_count_of(todos@) as usize),
            s.done_count == Some(done_count_of(todos@) as usize),
            s.todos == Some(todos),
            s.notes is None && s.sections is None && s.template_headings is None,
            s.obsidian_uri is None && s.carry_over_count is None && s.is_today is None,
            s.template_name is None && s.created_from_template is None && s.has_notes is None,
            s.error_code is None && s.error is None,
    {
        let (open, done) = count_todos(&todos);
        Snapshot {
            state: State::Ready,
            date: Some(date),
            path: Some(path),
            exists: Some(exists),
            open_count: Some(open),
            done_count: Some(done),
            todos: Some(todos),
            notes: None,
            sections: None,
            template_headings: None,
            obsidian_uri: None,
            carry_over_count: None,
            is_today: None,
            template_name: None,
            created_from_template: None,
            has_notes: None,
            error_code: None,
            error: None,
        }
    }
}

impl WeekSummary {
    /// An error summary without days.
    pub fn error(message: String, code: String) -> (w: WeekSummary)
        ensures
            w.state == State::Error,
            w.days is None,
            w.error_code == Some(code),
            w.error == Some(message),
    {
        WeekSummary { state: State::Error, days: None, error_code: Some(code), error: Some(message) }
    }
}

/// Open and done counts add up to the number of todos.
pub proof fn law_counts_cover_todos(todos: Seq<TodoItem>)
    ensures
        open_count_of(todos) + done_count_of(todos) == todos.len(),
{
    lemma_counts_add_up(todos);
}

} // verus!
