//! What the interface shows of tasks and statuses.
use vstd::prelude::*;

use crate::markdown::title_of;
use crate::model::{TaskStatus, TodoNode};
use crate::text::string_from;

verus! {

/// The CSS classes of the badge of a status.
pub open spec fn badge_class(s: TaskStatus) -> Seq<char> {
    match s {
        TaskStatus::Done => "status-badge status-done"@,
        TaskStatus::Idea => "status-badge status-idea"@,
        TaskStatus::Blocked => "status-badge status-blocked"@,
        TaskStatus::Todo => "status-badge status-todo"@,
    }
}

pub fn status_badge_class(status: &TaskStatus) -> (r: &'static str)
    ensures
        r@ == badge_class(*status),
{
    match status {
        TaskStatus::Done => "status-badge status-done",
        TaskStatus::Idea => "status-badge status-idea",
        TaskStatus::Blocked => "status-badge status-blocked",
        TaskStatus::Todo => "status-badge status-todo",
    }
}

/// The choices of the status selector of a task: the statuses on offer,
/// followed by the task's own status when it is not among them.
pub open spec fn editor_options(current: TaskStatus, options: Seq<TaskStatus>) -> Seq<TaskStatus> {
    if options.contains(current) {
        options
    } else {
        options.push(current)
    }
}

pub fn status_editor_options(current: TaskStatus, options: &Vec<TaskStatus>) -> (r: Vec<TaskStatus>)
    ensures
        r@ == editor_options(current, options@),
{
    let mut r: Vec<TaskStatus> = Vec::new();
    let mut found = false;
    let mut i: usize = 0;
    while i < options.len()
        invariant
            i <= options@.len(),
            r@ == options@.take(i as int),
            found == options@.take(i as int).contains(current),
        decreases options.len() - i,
    {
        proof {
            assert(options@.take(i + 1) == options@.take(i as int).push(options@[i as int]));
            if options@.take(i as int).contains(current) {
                let k = choose|k: int| 0 <= k < i && options@.take(i as int)[k] == current;
                assert(options@.take(i + 1)[k] == current);
            }
            if options@[i as int] == current {
                assert(options@.take(i + 1)[i as int] == current);
            }
        }
        if options[i] == current {
            found = true;
        }
        r.push(options[i]);
        i += 1;
    }
    assert(options@.take(options@.len() as int) == options@);
    if !found {
        r.push(current);
    }
    r
}

/// The title shown for a task: its label, or `Sans titre` when the label
/// is empty.
pub fn node_title(node: &TodoNode) -> (r: String)
    ensures
        r@ == title_of(node@),
{
    if node.label.as_str().unicode_len() == 0 {
        string_from("Sans titre")
    } else {
        node.label.clone()
    }
}

/// The CSS classes of the title of a task in view mode.
pub fn title_class(checked: bool) -> (r: &'static str)
    ensures
        r@ == (if checked {
            "done grow title-text"@
        } else {
            "grow title-text"@
        }),
{
    if checked {
        "done grow title-text"
    } else {
        "grow title-text"
    }
}

} // verus!
