//! The data of a task tree and its mathematical model.
use vstd::prelude::*;

use crate::text::{spec_to_uppercase, str_eq, strs, to_uppercase, trim, trim_string};

verus! {

/// The state of a task.
#[derive(Clone, Copy, Debug, PartialEq, Eq, Structural)]
pub enum TaskStatus {
    Todo,
    Done,
    Idea,
    Blocked,
}

/// The label that a status is shown and stored under.
pub open spec fn status_label(s: TaskStatus) -> Seq<char> {
    match s {
        TaskStatus::Todo => "TODO"@,
        TaskStatus::Done => "DONE"@,
        TaskStatus::Idea => "IDEA"@,
        TaskStatus::Blocked => "BLOCKED"@,
    }
}

/// The status that an upper-case label names; anything else is `Todo`.
pub open spec fn status_of_upper(u: Seq<char>) -> TaskStatus {
    if u == "DONE"@ {
        TaskStatus::Done
    } else if u == "IDEA"@ {
        TaskStatus::Idea
    } else if u == "BLOCKED"@ {
        TaskStatus::Blocked
    } else {
        TaskStatus::Todo
    }
}

/// What `TaskStatus::from_str` gives for a text: the trimmed text in upper
/// case decides.
pub open spec fn status_of_text(value: Seq<char>) -> TaskStatus {
    status_of_upper(spec_to_uppercase(trim(value)))
}

impl TaskStatus {
    pub fn as_label(&self) -> (r: &'static str)
        ensures
            r@ == status_label(*self),
    {
        match self {
            TaskStatus::Todo => "TODO",
            TaskStatus::Done => "DONE",
            TaskStatus::Idea => "IDEA",
            TaskStatus::Blocked => "BLOCKED",
        }
    }

    /// The status named by an upper-case label (`DONE`, `IDEA`,
    /// `BLOCKED`); any other text gives `Todo`.
    pub fn from_upper_label(upper: &str) -> (r: TaskStatus)
        ensures
            r == status_of_upper(upper@),
    {
        if str_eq(upper, "DONE") {
            TaskStatus::Done
        } else if str_eq(upper, "IDEA") {
            TaskStatus::Idea
        } else if str_eq(upper, "BLOCKED") {
            TaskStatus::Blocked
        } else {
            TaskStatus::Todo
        }
    }

    /// Reads a status from free text: surrounding whitespace and case are
    /// ignored, and unknown text gives `Todo`.
    pub fn from_str(value: &str) -> (r: TaskStatus)
        ensures
            r == status_of_text(value@),
    {
        let t = trim_string(value);
        let u = to_uppercase(t.as_str());
        TaskStatus::from_upper_label(u.as_str())
    }
}

pub fn normalize_status_value(value: &str) -> (r: TaskStatus)
    ensures
        r == status_of_text(value@),
{
    TaskStatus::from_str(value)
}

pub fn default_status() -> (r: TaskStatus)
    ensures
        r == TaskStatus::Todo,
{
    TaskStatus::Todo
}

/// The statuses offered when none are configured, in display order.
pub open spec fn default_statuses() -> Seq<TaskStatus> {
    seq![TaskStatus::Todo, TaskStatus::Done, TaskStatus::Idea, TaskStatus::Blocked]
}

pub fn default_status_options() -> (r: Vec<TaskStatus>)
    ensures
        r@ == default_statuses(),
{
    let mut v = Vec::new();
    v.push(TaskStatus::Todo);
    v.push(TaskStatus::Done);
    v.push(TaskStatus::Idea);
    v.push(TaskStatus::Blocked);
    v
}

/// One task of the tree, with its sub-tasks.
#[derive(Debug)]
pub struct TodoNode {
    pub id: String,
    pub label: String,
    pub checked: bool,
    pub expanded: bool,
    pub show_details: bool,
    pub status: TaskStatus,
    pub tags: Vec<String>,
    pub description: String,
    pub links: Vec<String>,
    pub children: Vec<TodoNode>,
}

/// The mathematical value of a task: its texts as character sequences and
/// its sub-tasks as a sequence of such values.
#[verifier::ext_equal]
pub struct NodeModel {
    pub id: Seq<char>,
    pub label: Seq<char>,
    pub checked: bool,
    pub expanded: bool,
    pub show_details: bool,
    pub status: TaskStatus,
    pub tags: Seq<Seq<char>>,
    pub description: Seq<char>,
    pub links: Seq<Seq<char>>,
    pub children: Seq<NodeModel>,
}

pub open spec fn node_model(n: TodoNode) -> NodeModel
    decreases n,
{
    NodeModel {
        id: n.id@,
        label: n.label@,
        checked: n.checked,
        expanded: n.expanded,
        show_details: n.show_details,
        status: n.status,
        tags: strs(n.tags@),
        description: n.description@,
        links: strs(n.links@),
        children: forest_model(n.children@),
    }
}

/// The models of a sequence of tasks, in order.
pub open spec fn forest_model(s: Seq<TodoNode>) -> Seq<NodeModel>
    decreases s,
{
    if s.len() == 0 {
        Seq::empty()
    } else {
        forest_model(s.drop_last()).push(node_model(s[s.len() - 1]))
    }
}

impl View for TodoNode {
    type V = NodeModel;

    open spec fn view(&self) -> NodeModel {
        node_model(*self)
    }
}

pub proof fn lemma_forest_model(s: Seq<TodoNode>)
    ensures
        forest_model(s).len() == s.len(),
        forall|i: int| 0 <= i < s.len() ==> #[trigger] forest_model(s)[i] == node_model(s[i]),
    decreases s.len(),
{
    if s.len() > 0 {
        lemma_forest_model(s.drop_last());
    }
}

} // verus!
