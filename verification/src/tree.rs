//! Operations on task trees: copies, flags set over whole subtrees,
//! statistics, and edits addressed by task id.
use vstd::prelude::*;

use crate::fields::{links_of_text, parse_links_text, parse_tags, tags_of_text};
use crate::model::{forest_model, lemma_forest_model, node_model, NodeModel, TaskStatus, TodoNode};
use crate::text::strs;

verus! {

// ---------------------------------------------------------------------------
// Copies
// ---------------------------------------------------------------------------

pub fn clone_strings(v: &Vec<String>) -> (r: Vec<String>)
    ensures
        strs(r@) == strs(v@),
{
    let mut r: Vec<String> = Vec::new();
    let mut i: usize = 0;
    while i < v.len()
        invariant
            i <= v@.len(),
            r@.len() == i,
            forall|k: int| 0 <= k < i ==> #[trigger] r@[k]@ == v@[k]@,
        decreases v.len() - i,
    {
        r.push(v[i].clone());
        i += 1;
    }
    assert(strs(r@) =~= strs(v@));
    r
}

/// A copy of a task and all its sub-tasks.
pub fn clone_node(n: &TodoNode) -> (r: TodoNode)
    ensures
        r@ == n@,
    decreases n,
{
    let children = clone_forest(&n.children);
    TodoNode {
        id: n.id.clone(),
        label: n.label.clone(),
        checked: n.checked,
        expanded: n.expanded,
        show_details: n.show_details,
        status: n.status,
        tags: clone_strings(&n.tags),
        description: n.description.clone(),
        links: clone_strings(&n.links),
        children,
    }
}

impl Clone for TodoNode {
    /// A copy of the task and all its sub-tasks.
    fn clone(&self) -> (r: Self)
        ensures
            r@ == self@,
    {
        clone_node(self)
    }
}

/// A copy of a sequence of tasks.
pub fn clone_forest(v: &Vec<TodoNode>) -> (r: Vec<TodoNode>)
    ensures
        forest_model(r@) == forest_model(v@),
    decreases v,
{
    let mut r: Vec<TodoNode> = Vec::new();
    let mut i: usize = 0;
    proof {
        lemma_forest_model(v@);
    }
    while i < v.len()
        invariant
            i <= v@.len(),
            r@.len() == i,
            forest_model(v@).len() == v@.len(),
            forall|k: int| 0 <= k < v@.len() ==> #[trigger] forest_model(v@)[k] == node_model(v@[k]),
            forall|k: int| 0 <= k < i ==> #[trigger] node_model(r@[k]) == node_model(v@[k]),
        decreases v.len() - i,
    {
        assert(decreases_to!(v => v@[i as int]));
        r.push(clone_node(&v[i]));
        i += 1;
    }
    proof {
        lemma_forest_model(r@);
        assert(forest_model(r@) =~= forest_model(v@));
    }
    r
}

// ---------------------------------------------------------------------------
// Flags set over a whole subtree
// ---------------------------------------------------------------------------

/// The yes/no fields of a task that can be set over a whole subtree.
#[derive(Clone, Copy, Debug, PartialEq, Eq, Structural)]
pub enum Flag {
    Checked,
    Expanded,
    ShowDetails,
}

pub open spec fn with_flag(m: NodeModel, f: Flag, v: bool) -> NodeModel {
    match f {
        Flag::Checked => NodeModel { checked: v, ..m },
        Flag::Expanded => NodeModel { expanded: v, ..m },
        Flag::ShowDetails => NodeModel { show_details: v, ..m },
    }
}

pub open spec fn flag_of(m: NodeModel, f: Flag) -> bool {
    match f {
        Flag::Checked => m.checked,
        Flag::Expanded => m.expanded,
        Flag::ShowDetails => m.show_details,
    }
}

/// `m` with the flag `f` set to `v` on it and on every task below it.
pub open spec fn flag_deep(m: NodeModel, f: Flag, v: bool) -> NodeModel
    decreases m,
{
    with_flag(NodeModel { children: flag_deep_forest(m.children, f, v), ..m }, f, v)
}

/// Each task of `s` with `flag_deep` applied.
pub open spec fn flag_deep_forest(s: Seq<NodeModel>, f: Flag, v: bool) -> Seq<NodeModel>
    decreases s,
{
    if s.len() == 0 {
        Seq::empty()
    } else {
        flag_deep_forest(s.drop_last(), f, v).push(flag_deep(s[s.len() - 1], f, v))
    }
}

pub proof fn lemma_flag_deep_forest(s: Seq<NodeModel>, f: Flag, v: bool)
    ensures
        flag_deep_forest(s, f, v).len() == s.len(),
        forall|i: int|
            0 <= i < s.len() ==> #[trigger] flag_deep_forest(s, f, v)[i] == flag_deep(s[i], f, v),
    decreases s.len(),
{
    if s.len() > 0 {
        lemma_flag_deep_forest(s.drop_last(), f, v);
    }
}

pub fn set_flag_deep(node: &mut TodoNode, f: Flag, v: bool)
    ensures
        final(node)@ == flag_deep(old(node)@, f, v),
    decreases *old(node),
{
    match f {
        Flag::Checked => node.checked = v,
        Flag::Expanded => node.expanded = v,
        Flag::ShowDetails => node.show_details = v,
    }
    set_flag_forest(&mut node.children, f, v);
}

pub fn set_flag_forest(nodes: &mut Vec<TodoNode>, f: Flag, v: bool)
    ensures
        forest_model(final(nodes)@) == flag_deep_forest(forest_model(old(nodes)@), f, v),
    decreases old(nodes)@,
{
    let ghost orig = nodes@;
    proof {
        lemma_forest_model(orig);
        lemma_flag_deep_forest(forest_model(orig), f, v);
    }
    let mut i: usize = 0;
    while i < nodes.len()
        invariant
            i <= nodes@.len(),
            nodes@.len() == orig.len(),
            orig == old(nodes)@,
            forall|k: int| i <= k < orig.len() ==> #[trigger] nodes@[k] == orig[k],
            forall|k: int|
                0 <= k < i ==> #[trigger] node_model(nodes@[k]) == flag_deep(node_model(orig[k]), f, v),
        decreases orig.len() - i,
    {
        assert(decreases_to!(orig => orig[i as int]));
        assert(orig == old(nodes)@);
        assert(decreases_to!(old(nodes)@ => nodes@[i as int]));
        set_flag_deep(&mut nodes[i], f, v);
        i += 1;
    }
    proof {
        lemma_forest_model(nodes@);
        lemma_flag_deep_forest(forest_model(orig), f, v);
        assert(forest_model(nodes@) =~= flag_deep_forest(forest_model(orig), f, v));
    }
}

/// Sets `checked` on a task and on every task below it.
pub fn set_checked_deep(node: &mut TodoNode, checked: bool)
    ensures
        final(node)@ == flag_deep(old(node)@, Flag::Checked, checked),
{
    set_flag_deep(node, Flag::Checked, checked);
}

/// Sets `expanded` on a task and on every task below it.
pub fn set_expanded_deep(node: &mut TodoNode, expanded: bool)
    ensures
        final(node)@ == flag_deep(old(node)@, Flag::Expanded, expanded),
{
    set_flag_deep(node, Flag::Expanded, expanded);
}

/// Sets `show_details` on a task and on every task below it.
pub fn set_show_details_deep(node: &mut TodoNode, show_details: bool)
    ensures
        final(node)@ == flag_deep(old(node)@, Flag::ShowDetails, show_details),
{
    set_flag_deep(node, Flag::ShowDetails, show_details);
}

/// Sets `expanded` on every task of the forest.
pub fn set_all_expanded(nodes: &mut Vec<TodoNode>, expanded: bool)
    ensures
        forest_model(final(nodes)@) == flag_deep_forest(
            forest_model(old(nodes)@),
            Flag::Expanded,
            expanded,
        ),
{
    set_flag_forest(nodes, Flag::Expanded, expanded);
}

/// Sets `show_details` on every task of the forest.
pub fn set_all_show_details(nodes: &mut Vec<TodoNode>, show_details: bool)
    ensures
        forest_model(final(nodes)@) == flag_deep_forest(
            forest_model(old(nodes)@),
            Flag::ShowDetails,
            show_details,
        ),
{
    set_flag_forest(nodes, Flag::ShowDetails, show_details);
}

// ---------------------------------------------------------------------------
// Sizes and statistics
// ---------------------------------------------------------------------------

/// The number of tasks in the subtree of `m`, `m` included.
pub open spec fn node_size(m: NodeModel) -> nat
    decreases m,
{
    1 + forest_size(m.children)
}

/// The number of tasks in a forest.
pub open spec fn forest_size(s: Seq<NodeModel>) -> nat
    decreases s,
{
    if s.len() == 0 {
        0
    } else {
        forest_size(s.drop_last()) + node_size(s[s.len() - 1])
    }
}

/// The number of checked tasks in the subtree of `m`, `m` included.
pub open spec fn node_done(m: NodeModel) -> nat
    decreases m,
{
    (if m.checked { 1nat } else { 0nat }) + forest_done(m.children)
}

/// The number of checked tasks in a forest.
pub open spec fn forest_done(s: Seq<NodeModel>) -> nat
    decreases s,
{
    if s.len() == 0 {
        0
    } else {
        forest_done(s.drop_last()) + node_done(s[s.len() - 1])
    }
}

/// The share of checked tasks, in whole percent rounded down; 0 for an
/// empty forest.
pub open spec fn percent_done(done: nat, total: nat) -> nat {
    if total == 0 {
        0
    } else {
        (done * 100) / total
    }
}

pub open spec fn cap(n: nat) -> nat {
    if n <= usize::MAX {
        n
    } else {
        usize::MAX as nat
    }
}

fn count_node(n: &TodoNode) -> (r: (usize, usize))
    ensures
        r.0 == cap(node_size(n@)),
        r.1 == cap(node_done(n@)),
    decreases n,
{
    let (t, d) = count_forest(&n.children);
    let total = t.saturating_add(1);
    let done = if n.checked {
        d.saturating_add(1)
    } else {
        d
    };
    (total, done)
}

fn count_forest(v: &Vec<TodoNode>) -> (r: (usize, usize))
    ensures
        r.0 == cap(forest_size(forest_model(v@))),
        r.1 == cap(forest_done(forest_model(v@))),
    decreases v,
{
    let mut total: usize = 0;
    let mut done: usize = 0;
    let mut i: usize = 0;
    proof {
        lemma_forest_model(v@);
    }
    while i < v.len()
        invariant
            i <= v@.len(),
            forest_model(v@).len() == v@.len(),
            forall|k: int| 0 <= k < v@.len() ==> #[trigger] forest_model(v@)[k] == node_model(v@[k]),
            total == cap(forest_size(forest_model(v@).take(i as int))),
            done == cap(forest_done(forest_model(v@).take(i as int))),
        decreases v.len() - i,
    {
        assert(decreases_to!(v => v@[i as int]));
        let (t, d) = count_node(&v[i]);
        proof {
            let s = forest_model(v@);
            assert(s.take(i + 1).drop_last() == s.take(i as int));
            assert(s.take(i + 1)[i as int] == node_model(v@[i as int]));
        }
        total = total.saturating_add(t);
        done = done.saturating_add(d);
        i += 1;
    }
    assert(forest_model(v@).take(v@.len() as int) == forest_model(v@));
    (total, done)
}

/// The number of tasks in a forest, or `usize::MAX` if it has more.
pub fn tree_size(nodes: &Vec<TodoNode>) -> (r: usize)
    ensures
        r == cap(forest_size(forest_model(nodes@))),
{
    count_forest(nodes).0
}

/// `(total, done, percent)`: how many tasks the forest holds, how many of
/// them are checked, and the checked share in whole percent.  The counts
/// saturate at `usize::MAX` (see `cap`).
pub fn count_stats(nodes: &Vec<TodoNode>) -> (r: (usize, usize, usize))
    ensures
        ({
            let total = cap(forest_size(forest_model(nodes@)));
            let done = cap(forest_done(forest_model(nodes@)));
            r == (total as usize, done as usize, percent_done(done, total) as usize)
        }),
{
    let (total, done) = count_forest(nodes);
    proof {
        lemma_done_at_most_size_forest(forest_model(nodes@));
    }
    let percent = if total == 0 {
        0
    } else {
        let wide: u128 = (done as u128) * 100 / (total as u128);
        assert((done as int) * 100 / (total as int) <= 100) by (nonlinear_arith)
            requires
                0 <= done <= total,
                total > 0,
        ;
        wide as usize
    };
    (total, done, percent)
}

pub proof fn lemma_done_at_most_size(m: NodeModel)
    ensures
        node_done(m) <= node_size(m),
    decreases m,
{
    lemma_done_at_most_size_forest(m.children);
}

pub proof fn lemma_done_at_most_size_forest(s: Seq<NodeModel>)
    ensures
        forest_done(s) <= forest_size(s),
    decreases s,
{
    if s.len() > 0 {
        lemma_done_at_most_size_forest(s.drop_last());
        lemma_done_at_most_size(s[s.len() - 1]);
    }
}

// ---------------------------------------------------------------------------
// Edits addressed by id, searching level by level
// ---------------------------------------------------------------------------

/// The first index from `i` on at which a task of `s` has id `id`, or -1.
pub open spec fn position_from(s: Seq<NodeModel>, id: Seq<char>, i: int) -> int
    decreases s.len() - i,
{
    if i < 0 || i >= s.len() {
        -1
    } else if s[i].id == id {
        i
    } else {
        position_from(s, id, i + 1)
    }
}

/// The first index at which a task of `s` has id `id`, or -1.
pub open spec fn position(s: Seq<NodeModel>, id: Seq<char>) -> int {
    position_from(s, id, 0)
}

pub open spec fn with_children(m: NodeModel, c: Seq<NodeModel>) -> NodeModel {
    NodeModel { children: c, ..m }
}

/// An edit of a sibling list at an index: the new list, or `None` where the
/// edit is refused there.
pub type LevelEdit = spec_fn(Seq<NodeModel>, int) -> Option<Seq<NodeModel>>;

/// Finds the task with id `id` the way the editing operations do: first
/// among the tasks of `s` themselves; only if none of them has the id, in
/// the subtrees of the tasks of `s`, one after the other.  `f` is applied to
/// the sibling list that holds the task found and to its index there.
/// `None`: no task has the id, or `f` refused.
pub open spec fn edit_level(s: Seq<NodeModel>, id: Seq<char>, f: LevelEdit) -> Option<
    Seq<NodeModel>,
>
    decreases s, 1int, 0int,
{
    let p = position(s, id);
    if p >= 0 {
        f(s, p)
    } else {
        edit_below(s, id, f, 0)
    }
}

/// `edit_level` tried in the subtrees of `s[i]`, `s[i + 1]`, ... in turn;
/// the first that succeeds gives the result.
pub open spec fn edit_below(s: Seq<NodeModel>, id: Seq<char>, f: LevelEdit, i: int) -> Option<
    Seq<NodeModel>,
>
    decreases s, 0int, s.len() - i,
{
    if i < 0 || i >= s.len() {
        None
    } else {
        match edit_level(s[i].children, id, f) {
            Some(c) => Some(s.update(i, with_children(s[i], c))),
            None => edit_below(s, id, f, i + 1),
        }
    }
}

/// What an edit that returns whether it found its task leaves behind.
pub open spec fn edit_outcome(
    before: Seq<NodeModel>,
    after: Seq<NodeModel>,
    found: bool,
    result: Option<Seq<NodeModel>>,
) -> bool {
    match result {
        Some(n) => found && after == n,
        None => !found && after == before,
    }
}

pub open spec fn remove_at() -> LevelEdit {
    |s: Seq<NodeModel>, p: int| Some(s.remove(p))
}

pub open spec fn insert_after(new: NodeModel) -> LevelEdit {
    |s: Seq<NodeModel>, p: int| Some(s.insert(p + 1, new))
}

pub open spec fn is_up(direction: Seq<char>) -> bool {
    direction == "up"@
}

pub open spec fn is_down(direction: Seq<char>) -> bool {
    direction == "down"@
}

/// The item at `from` taken out and put back at `to`.
pub open spec fn moved<T>(s: Seq<T>, from: int, to: int) -> Seq<T> {
    s.remove(from).insert(to, s[from])
}

/// Moves the task one place up or down among its siblings; refused at the
/// ends of the list and for any other direction.
pub open spec fn move_at(direction: Seq<char>) -> LevelEdit {
    |s: Seq<NodeModel>, p: int|
        if is_up(direction) && p > 0 {
            Some(moved(s, p, p - 1))
        } else if is_down(direction) && p + 1 < s.len() {
            Some(moved(s, p, p + 1))
        } else {
            None
        }
}

/// Finds the index of the first task of `nodes` whose id is `target`.
fn find_position(nodes: &Vec<TodoNode>, target: &String) -> (r: Option<usize>)
    ensures
        forest_model(nodes@).len() == nodes@.len(),
        match r {
            Some(i) => i < nodes@.len() && position(forest_model(nodes@), target@) == i,
            None => position(forest_model(nodes@), target@) == -1,
        },
{
    proof {
        lemma_forest_model(nodes@);
    }
    let mut i: usize = 0;
    while i < nodes.len()
        invariant
            i <= nodes@.len(),
            forest_model(nodes@).len() == nodes@.len(),
            forall|k: int| 0 <= k < nodes@.len() ==> #[trigger] forest_model(nodes@)[k] == node_model(nodes@[k]),
            position(forest_model(nodes@), target@) == position_from(forest_model(nodes@), target@, i as int),
        decreases nodes.len() - i,
    {
        if nodes[i].id == *target {
            return Some(i);
        }
        i += 1;
    }
    None
}

/// Replaces the children of `nodes[i]` in the model of `nodes`.
proof fn lemma_update_children(
    before: Seq<TodoNode>,
    after: Seq<TodoNode>,
    i: int,
    c: Seq<NodeModel>,
)
    requires
        0 <= i < before.len(),
        after.len() == before.len(),
        forall|k: int| 0 <= k < before.len() && k != i ==> #[trigger] node_model(after[k]) == node_model(before[k]),
        node_model(after[i]) == with_children(node_model(before[i]), c),
    ensures
        forest_model(after) == forest_model(before).update(i, with_children(node_model(before[i]), c)),
{
    lemma_forest_model(before);
    lemma_forest_model(after);
    assert(forest_model(after) =~= forest_model(before).update(i, with_children(node_model(before[i]), c)));
}

proof fn lemma_same_models(before: Seq<TodoNode>, after: Seq<TodoNode>)
    requires
        after.len() == before.len(),
        forall|k: int| 0 <= k < before.len() ==> #[trigger] node_model(after[k]) == node_model(before[k]),
    ensures
        forest_model(after) == forest_model(before),
{
    lemma_forest_model(before);
    lemma_forest_model(after);
    assert(forest_model(after) =~= forest_model(before));
}

/// Removes the first task with id `node_id` found level by level (see
/// `edit_level`), with its subtree; whether one was found.
pub fn remove_node_by_id(nodes: &mut Vec<TodoNode>, node_id: &str) -> (r: bool)
    ensures
        edit_outcome(
            forest_model(old(nodes)@),
            forest_model(final(nodes)@),
            r,
            edit_level(forest_model(old(nodes)@), node_id@, remove_at()),
        ),
    decreases old(nodes)@,
{
    let target = crate::text::string_from(node_id);
    let ghost orig = nodes@;
    if let Some(index) = find_position(nodes, &target) {
        nodes.remove(index);
        proof {
            lemma_forest_model(orig);
            lemma_forest_model(nodes@);
            assert(forest_model(nodes@) =~= forest_model(orig).remove(index as int));
        }
        return true;
    }
    let mut i: usize = 0;
    while i < nodes.len()
        invariant
            orig == old(nodes)@,
            i <= nodes@.len(),
            nodes@.len() == orig.len(),
            target@ == node_id@,
            position(forest_model(orig), node_id@) == -1,
            forall|k: int| 0 <= k < orig.len() ==> #[trigger] node_model(nodes@[k]) == node_model(orig[k]),
            forall|k: int| i <= k < orig.len() ==> #[trigger] nodes@[k] == orig[k],
            edit_level(forest_model(orig), node_id@, remove_at()) == edit_below(forest_model(orig), node_id@, remove_at(), i as int),
        decreases orig.len() - i,
    {
        proof {
            lemma_forest_model(orig);
            assert(decreases_to!(orig => orig[i as int]));
            assert(decreases_to!(orig[i as int] => orig[i as int].children));
            assert(decreases_to!(old(nodes)@ => nodes@[i as int].children@));
        }
        let found = remove_node_by_id(&mut nodes[i].children, node_id);
        if found {
            proof {
                lemma_update_children(orig, nodes@, i as int, forest_model(nodes@[i as int].children@));
            }
            return true;
        }
        proof {
            assert(node_model(nodes@[i as int]) == node_model(orig[i as int]));
        }
        i += 1;
    }
    proof {
        lemma_same_models(orig, nodes@);
    }
    false
}

fn insert_sibling_rec(nodes: &mut Vec<TodoNode>, target: &String, new_node: &TodoNode) -> (r: bool)
    ensures
        edit_outcome(
            forest_model(old(nodes)@),
            forest_model(final(nodes)@),
            r,
            edit_level(forest_model(old(nodes)@), target@, insert_after(new_node@)),
        ),
    decreases old(nodes)@,
{
    let ghost orig = nodes@;
    if let Some(index) = find_position(nodes, target) {
        let n = nodes.len();
        assert(index < n);
        nodes.insert(index + 1, clone_node(new_node));
        proof {
            lemma_forest_model(orig);
            lemma_forest_model(nodes@);
            assert(forest_model(nodes@) =~= forest_model(orig).insert(index + 1, new_node@));
        }
        return true;
    }
    let mut i: usize = 0;
    while i < nodes.len()
        invariant
            orig == old(nodes)@,
            i <= nodes@.len(),
            nodes@.len() == orig.len(),
            position(forest_model(orig), target@) == -1,
            forall|k: int| 0 <= k < orig.len() ==> #[trigger] node_model(nodes@[k]) == node_model(orig[k]),
            forall|k: int| i <= k < orig.len() ==> #[trigger] nodes@[k] == orig[k],
            edit_level(forest_model(orig), target@, insert_after(new_node@)) == edit_below(
                forest_model(orig),
                target@,
                insert_after(new_node@),
                i as int,
            ),
        decreases orig.len() - i,
    {
        proof {
            lemma_forest_model(orig);
            assert(decreases_to!(orig => orig[i as int]));
            assert(decreases_to!(orig[i as int] => orig[i as int].children));
            assert(decreases_to!(old(nodes)@ => nodes@[i as int].children@));
        }
        let found = insert_sibling_rec(&mut nodes[i].children, target, new_node);
        if found {
            proof {
                lemma_update_children(orig, nodes@, i as int, forest_model(nodes@[i as int].children@));
            }
            return true;
        }
        i += 1;
    }
    proof {
        lemma_same_models(orig, nodes@);
    }
    false
}

/// Inserts `new_node` right after the first task with id `node_id` found
/// level by level (see `edit_level`); whether one was found.
pub fn insert_sibling_by_id(nodes: &mut Vec<TodoNode>, node_id: &str, new_node: TodoNode) -> (r:
    bool)
    ensures
        edit_outcome(
            forest_model(old(nodes)@),
            forest_model(final(nodes)@),
            r,
            edit_level(forest_model(old(nodes)@), node_id@, insert_after(new_node@)),
        ),
{
    let target = crate::text::string_from(node_id);
    insert_sibling_rec(nodes, &target, &new_node)
}

/// Takes the item at `from_index` out and puts it back at `to_index`; does
/// nothing when either index is out of range or both are equal.
pub fn move_item_in_array<T>(items: &mut Vec<T>, from_index: usize, to_index: usize)
    ensures
        if from_index < old(items)@.len() && to_index < old(items)@.len() && from_index
            != to_index {
            final(items)@ == moved(old(items)@, from_index as int, to_index as int)
        } else {
            final(items)@ == old(items)@
        },
{
    if from_index >= items.len() || to_index >= items.len() || from_index == to_index {
        return ;
    }
    let ghost orig = items@;
    let item = items.remove(from_index);
    items.insert(to_index, item);
}

fn move_rec(nodes: &mut Vec<TodoNode>, target: &String, direction: &str) -> (r: bool)
    ensures
        edit_outcome(
            forest_model(old(nodes)@),
            forest_model(final(nodes)@),
            r,
            edit_level(forest_model(old(nodes)@), target@, move_at(direction@)),
        ),
    decreases old(nodes)@,
{
    let ghost orig = nodes@;
    if let Some(index) = find_position(nodes, target) {
        proof {
            reveal_strlit("up");
            reveal_strlit("down");
        }
        let up = crate::text::str_eq(direction, "up");
        let down = crate::text::str_eq(direction, "down");
        if up && index > 0 {
            move_item_in_array(nodes, index, index - 1);
        } else if down && index < nodes.len() - 1 {
            move_item_in_array(nodes, index, index + 1);
        } else {
            return false;
        }
        proof {
            lemma_forest_model(orig);
            lemma_forest_model(nodes@);
            let to = if up && index > 0 { index - 1 } else { index + 1 };
            assert(forest_model(nodes@) =~= moved(forest_model(orig), index as int, to as int));
        }
        return true;
    }
    let mut i: usize = 0;
    while i < nodes.len()
        invariant
            orig == old(nodes)@,
            i <= nodes@.len(),
            nodes@.len() == orig.len(),
            position(forest_model(orig), target@) == -1,
            forall|k: int| 0 <= k < orig.len() ==> #[trigger] node_model(nodes@[k]) == node_model(orig[k]),
            forall|k: int| i <= k < orig.len() ==> #[trigger] nodes@[k] == orig[k],
            edit_level(forest_model(orig), target@, move_at(direction@)) == edit_below(
                forest_model(orig),
                target@,
                move_at(direction@),
                i as int,
            ),
        decreases orig.len() - i,
    {
        proof {
            lemma_forest_model(orig);
            assert(decreases_to!(orig => orig[i as int]));
            assert(decreases_to!(orig[i as int] => orig[i as int].children));
            assert(decreases_to!(old(nodes)@ => nodes@[i as int].children@));
        }
        let found = move_rec(&mut nodes[i].children, target, direction);
        if found {
            proof {
                lemma_update_children(orig, nodes@, i as int, forest_model(nodes@[i as int].children@));
            }
            return true;
        }
        i += 1;
    }
    proof {
        lemma_same_models(orig, nodes@);
    }
    false
}

/// Moves the first task with id `node_id` found level by level (see
/// `edit_level`) one place `"up"` or `"down"` among its siblings; false
/// when no task has the id or the move is refused (see `move_at`).
pub fn move_node_by_id(nodes: &mut Vec<TodoNode>, node_id: &str, direction: &str) -> (r: bool)
    ensures
        edit_outcome(
            forest_model(old(nodes)@),
            forest_model(final(nodes)@),
            r,
            edit_level(forest_model(old(nodes)@), node_id@, move_at(direction@)),
        ),
{
    let target = crate::text::string_from(node_id);
    move_rec(nodes, &target, direction)
}

/// Whether the task with id `node_id`, found level by level, has a sibling
/// in `direction`; the search goes on below only when no task of the level
/// has the id.
pub open spec fn can_move_level(s: Seq<NodeModel>, id: Seq<char>, direction: Seq<char>) -> bool
    decreases s, 1int, 0int,
{
    let p = position(s, id);
    if p >= 0 {
        (is_up(direction) && p > 0) || (is_down(direction) && p + 1 < s.len())
    } else {
        can_move_below(s, id, direction, 0)
    }
}

pub open spec fn can_move_below(s: Seq<NodeModel>, id: Seq<char>, direction: Seq<char>, i: int) -> bool
    decreases s, 0int, s.len() - i,
{
    if i < 0 || i >= s.len() {
        false
    } else {
        can_move_level(s[i].children, id, direction) || can_move_below(s, id, direction, i + 1)
    }
}

fn can_move_rec(nodes: &Vec<TodoNode>, target: &String, direction: &str) -> (r: bool)
    ensures
        r == can_move_level(forest_model(nodes@), target@, direction@),
    decreases nodes@,
{
    if let Some(index) = find_position(nodes, target) {
        proof {
            reveal_strlit("up");
            reveal_strlit("down");
        }
        assert("up"@.len() == 2 && "down"@.len() == 4);
        assert("up"@ != "down"@);
        if crate::text::str_eq(direction, "up") {
            return index > 0;
        } else if crate::text::str_eq(direction, "down") {
            return index < nodes.len() - 1;
        } else {
            return false;
        }
    }
    proof {
        lemma_forest_model(nodes@);
    }
    let mut i: usize = 0;
    while i < nodes.len()
        invariant
            i <= nodes@.len(),
            forest_model(nodes@).len() == nodes@.len(),
            forall|k: int| 0 <= k < nodes@.len() ==> #[trigger] forest_model(nodes@)[k] == node_model(nodes@[k]),
            position(forest_model(nodes@), target@) == -1,
            can_move_level(forest_model(nodes@), target@, direction@) == can_move_below(
                forest_model(nodes@),
                target@,
                direction@,
                i as int,
            ),
        decreases nodes.len() - i,
    {
        assert(decreases_to!(nodes@ => nodes@[i as int]));
        assert(decreases_to!(nodes@[i as int] => nodes@[i as int].children));
        if can_move_rec(&nodes[i].children, target, direction) {
            return true;
        }
        i += 1;
    }
    false
}

/// Whether `move_node_by_id` with the same arguments would move a task.
pub fn can_move_node(nodes: &Vec<TodoNode>, node_id: &str, direction: &str) -> (r: bool)
    ensures
        r == can_move_level(forest_model(nodes@), node_id@, direction@),
{
    let target = crate::text::string_from(node_id);
    can_move_rec(nodes, &target, direction)
}

/// A move is possible exactly when moving succeeds: the up/down buttons are
/// enabled for the moves that `move_node_by_id` performs.
pub proof fn lemma_can_move_iff_move_succeeds(s: Seq<NodeModel>, id: Seq<char>, direction: Seq<char>)
    ensures
        can_move_level(s, id, direction) == (edit_level(s, id, move_at(direction)) is Some),
    decreases s, 1int, 0int,
{
    if position(s, id) < 0 {
        lemma_can_move_below_iff(s, id, direction, 0);
    }
}

proof fn lemma_can_move_below_iff(s: Seq<NodeModel>, id: Seq<char>, direction: Seq<char>, i: int)
    ensures
        can_move_below(s, id, direction, i) == (edit_below(s, id, move_at(direction), i) is Some),
    decreases s, 0int, s.len() - i,
{
    if 0 <= i < s.len() {
        assert(decreases_to!(s => s[i]));
        lemma_can_move_iff_move_succeeds(s[i].children, id, direction);
        lemma_can_move_below_iff(s, id, direction, i + 1);
    }
}

// ---------------------------------------------------------------------------
// Copies under new ids
// ---------------------------------------------------------------------------

/// `m` with new ids: `ids[0]` for `m` itself, the following ones for the
/// tasks below it in depth-first order, a task before its sub-tasks.
pub open spec fn reid(m: NodeModel, ids: Seq<Seq<char>>) -> NodeModel
    decreases m,
{
    NodeModel { id: ids[0], children: reid_forest(m.children, ids.skip(1)), ..m }
}

/// A forest with new ids taken from `ids` in depth-first order.
pub open spec fn reid_forest(s: Seq<NodeModel>, ids: Seq<Seq<char>>) -> Seq<NodeModel>
    decreases s,
{
    if s.len() == 0 {
        Seq::empty()
    } else {
        reid_forest(s.drop_last(), ids).push(
            reid(s[s.len() - 1], ids.skip(forest_size(s.drop_last()) as int)),
        )
    }
}

pub proof fn lemma_forest_size_prefix(s: Seq<NodeModel>, i: int)
    requires
        0 <= i <= s.len(),
    ensures
        forest_size(s.take(i)) <= forest_size(s),
    decreases s.len(),
{
    if i < s.len() {
        assert(s.drop_last().take(i) == s.take(i));
        lemma_forest_size_prefix(s.drop_last(), i);
    } else {
        assert(s.take(i) == s);
    }
}

pub proof fn lemma_node_size_in_forest(s: Seq<NodeModel>, i: int)
    requires
        0 <= i < s.len(),
    ensures
        node_size(s[i]) <= forest_size(s),
    decreases s.len(),
{
    if i < s.len() - 1 {
        lemma_node_size_in_forest(s.drop_last(), i);
    }
}

fn clone_with_ids(n: &TodoNode, ids: &Vec<String>, start: usize) -> (r: TodoNode)
    requires
        start + node_size(n@) <= ids@.len(),
    ensures
        r@ == reid(n@, strs(ids@).skip(start as int)),
    decreases n,
{
    let len = ids.len();
    let children = clone_forest_with_ids(&n.children, ids, start + 1);
    proof {
        assert(strs(ids@).skip(start as int).skip(1) =~= strs(ids@).skip(start + 1));
    }
    TodoNode {
        id: ids[start].clone(),
        label: n.label.clone(),
        checked: n.checked,
        expanded: n.expanded,
        show_details: n.show_details,
        status: n.status,
        tags: clone_strings(&n.tags),
        description: n.description.clone(),
        links: clone_strings(&n.links),
        children,
    }
}

fn clone_forest_with_ids(v: &Vec<TodoNode>, ids: &Vec<String>, start: usize) -> (r: Vec<TodoNode>)
    requires
        start + forest_size(forest_model(v@)) <= ids@.len(),
    ensures
        forest_model(r@) == reid_forest(forest_model(v@), strs(ids@).skip(start as int)),
    decreases v,
{
    let ghost s = forest_model(v@);
    let ghost all = strs(ids@).skip(start as int);
    let mut r: Vec<TodoNode> = Vec::new();
    let mut offset: usize = start;
    let mut i: usize = 0;
    proof {
        lemma_forest_model(v@);
        assert(s.take(0) =~= Seq::<NodeModel>::empty());
        assert(forest_model(r@) =~= Seq::<NodeModel>::empty());
    }
    while i < v.len()
        invariant
            i <= v@.len(),
            s == forest_model(v@),
            all == strs(ids@).skip(start as int),
            s.len() == v@.len(),
            forall|k: int| 0 <= k < v@.len() ==> #[trigger] s[k] == node_model(v@[k]),
            start + forest_size(s) <= ids@.len(),
            offset == start + forest_size(s.take(i as int)),
            forest_model(r@) == reid_forest(s.take(i as int), all),
        decreases v.len() - i,
    {
        proof {
            assert(s.take(i + 1).drop_last() == s.take(i as int));
            assert(s.take(i + 1)[i as int] == s[i as int]);
            lemma_forest_size_prefix(s, i + 1);
            assert(all.skip(forest_size(s.take(i as int)) as int) =~= strs(ids@).skip(offset as int));
            assert(decreases_to!(v => v@[i as int]));
        }
        let len = ids.len();
        let c = clone_with_ids(&v[i], ids, offset);
        let ghost before = r@;
        r.push(c);
        proof {
            lemma_forest_model(before);
            lemma_forest_model(r@);
            assert(forest_model(r@) =~= forest_model(before).push(node_model(c)));
        }
        let size = count_node(&v[i]).0;
        assert(size == node_size(s[i as int]));
        offset = offset + size;
        i += 1;
    }
    assert(s.take(v@.len() as int) == s);
    r
}

/// A copy of `node` and its subtree in which every task gets a new id from
/// `fresh_ids`, taken in depth-first order (see `reid`).
pub fn clone_node_deep_with_new_ids(node: &TodoNode, fresh_ids: &Vec<String>) -> (r: TodoNode)
    requires
        node_size(node@) <= fresh_ids@.len(),
    ensures
        r@ == reid(node@, strs(fresh_ids@)),
{
    assert(strs(fresh_ids@).skip(0) =~= strs(fresh_ids@));
    clone_with_ids(node, fresh_ids, 0)
}

/// Inserts after the task found a copy of it under new ids.
pub open spec fn duplicate_at(ids: Seq<Seq<char>>) -> LevelEdit {
    |s: Seq<NodeModel>, p: int| Some(s.insert(p + 1, reid(s[p], ids)))
}

fn duplicate_rec(nodes: &mut Vec<TodoNode>, target: &String, fresh_ids: &Vec<String>) -> (r: bool)
    requires
        forest_size(forest_model(old(nodes)@)) <= fresh_ids@.len(),
    ensures
        edit_outcome(
            forest_model(old(nodes)@),
            forest_model(final(nodes)@),
            r,
            edit_level(forest_model(old(nodes)@), target@, duplicate_at(strs(fresh_ids@))),
        ),
    decreases old(nodes)@,
{
    let ghost orig = nodes@;
    if let Some(index) = find_position(nodes, target) {
        proof {
            lemma_forest_model(orig);
            lemma_node_size_in_forest(forest_model(orig), index as int);
        }
        let copy = clone_node_deep_with_new_ids(&nodes[index], fresh_ids);
        let n = nodes.len();
        nodes.insert(index + 1, copy);
        proof {
            lemma_forest_model(nodes@);
            assert(forest_model(nodes@) =~= forest_model(orig).insert(
                index + 1,
                reid(forest_model(orig)[index as int], strs(fresh_ids@)),
            ));
        }
        return true;
    }
    let mut i: usize = 0;
    while i < nodes.len()
        invariant
            orig == old(nodes)@,
            i <= nodes@.len(),
            nodes@.len() == orig.len(),
            forest_size(forest_model(orig)) <= fresh_ids@.len(),
            position(forest_model(orig), target@) == -1,
            forall|k: int| 0 <= k < orig.len() ==> #[trigger] node_model(nodes@[k]) == node_model(orig[k]),
            forall|k: int| i <= k < orig.len() ==> #[trigger] nodes@[k] == orig[k],
            edit_level(forest_model(orig), target@, duplicate_at(strs(fresh_ids@))) == edit_below(
                forest_model(orig),
                target@,
                duplicate_at(strs(fresh_ids@)),
                i as int,
            ),
        decreases orig.len() - i,
    {
        proof {
            lemma_forest_model(orig);
            lemma_node_size_in_forest(forest_model(orig), i as int);
            assert(decreases_to!(orig => orig[i as int]));
            assert(decreases_to!(orig[i as int] => orig[i as int].children));
            assert(decreases_to!(old(nodes)@ => nodes@[i as int].children@));
        }
        let found = duplicate_rec(&mut nodes[i].children, target, fresh_ids);
        if found {
            proof {
                lemma_update_children(orig, nodes@, i as int, forest_model(nodes@[i as int].children@));
            }
            return true;
        }
        i += 1;
    }
    proof {
        lemma_same_models(orig, nodes@);
    }
    false
}

/// Inserts, right after the first task with id `node_id` found level by
/// level (see `edit_level`), a copy of it whose tasks get new ids from
/// `fresh_ids` (see `reid`); whether one was found.
pub fn duplicate_node_as_sibling_by_id(
    nodes: &mut Vec<TodoNode>,
    node_id: &str,
    fresh_ids: &Vec<String>,
) -> (r: bool)
    requires
        forest_size(forest_model(old(nodes)@)) <= fresh_ids@.len(),
    ensures
        edit_outcome(
            forest_model(old(nodes)@),
            forest_model(final(nodes)@),
            r,
            edit_level(forest_model(old(nodes)@), node_id@, duplicate_at(strs(fresh_ids@))),
        ),
{
    let target = crate::text::string_from(node_id);
    duplicate_rec(nodes, &target, fresh_ids)
}

// ---------------------------------------------------------------------------
// Edits of one task, addressed by id in depth-first order
// ---------------------------------------------------------------------------

/// A change to one task.
#[derive(Clone, Debug)]
pub enum NodeEdit {
    /// Checks or unchecks the task and every task below it.
    SetChecked(bool),
    SetLabel(String),
    SetStatus(TaskStatus),
    /// Replaces the tags by those written in the text.
    SetTags(String),
    SetDescription(String),
    /// Replaces the links by those written in the text, one per line.
    SetLinks(String),
    ToggleExpanded,
    ToggleShowDetails,
    /// Expands the task and appends a sub-task at the end.
    AddChild(TodoNode),
}

/// `m` after the edit `e`.
pub open spec fn edited(m: NodeModel, e: NodeEdit) -> NodeModel {
    match e {
        NodeEdit::SetChecked(b) => flag_deep(m, Flag::Checked, b),
        NodeEdit::SetLabel(l) => NodeModel { label: l@, ..m },
        NodeEdit::SetStatus(st) => NodeModel { status: st, ..m },
        NodeEdit::SetTags(t) => NodeModel { tags: tags_of_text(t@), ..m },
        NodeEdit::SetDescription(d) => NodeModel { description: d@, ..m },
        NodeEdit::SetLinks(t) => NodeModel { links: links_of_text(t@), ..m },
        NodeEdit::ToggleExpanded => NodeModel { expanded: !m.expanded, ..m },
        NodeEdit::ToggleShowDetails => NodeModel { show_details: !m.show_details, ..m },
        NodeEdit::AddChild(c) => NodeModel { expanded: true, children: m.children.push(c@), ..m },
    }
}

/// Finds the first task with id `id` in depth-first order (a task before
/// its sub-tasks, siblings in order) from `s[i]` on, and replaces it by
/// `g` of it.  `None`: no task there has the id.
pub open spec fn update_from(
    s: Seq<NodeModel>,
    id: Seq<char>,
    g: spec_fn(NodeModel) -> NodeModel,
    i: int,
) -> Option<Seq<NodeModel>>
    decreases s, s.len() - i,
{
    if i < 0 || i >= s.len() {
        None
    } else if s[i].id == id {
        Some(s.update(i, g(s[i])))
    } else {
        match update_from(s[i].children, id, g, 0) {
            Some(c) => Some(s.update(i, with_children(s[i], c))),
            None => update_from(s, id, g, i + 1),
        }
    }
}

pub open spec fn edit_fn(e: NodeEdit) -> spec_fn(NodeModel) -> NodeModel {
    |m: NodeModel| edited(m, e)
}

/// Applies an edit to a task.
pub fn apply_edit(node: &mut TodoNode, edit: &NodeEdit)
    ensures
        final(node)@ == edited(old(node)@, *edit),
{
    match edit {
        NodeEdit::SetChecked(b) => set_checked_deep(node, *b),
        NodeEdit::SetLabel(l) => node.label = l.clone(),
        NodeEdit::SetStatus(st) => node.status = *st,
        NodeEdit::SetTags(t) => node.tags = parse_tags(t.as_str()),
        NodeEdit::SetDescription(d) => node.description = d.clone(),
        NodeEdit::SetLinks(t) => node.links = parse_links_text(t.as_str()),
        NodeEdit::ToggleExpanded => node.expanded = !node.expanded,
        NodeEdit::ToggleShowDetails => node.show_details = !node.show_details,
        NodeEdit::AddChild(c) => {
            node.expanded = true;
            let ghost before = node.children@;
            node.children.push(clone_node(c));
            proof {
                lemma_forest_model(before);
                lemma_forest_model(node.children@);
                assert(forest_model(node.children@) =~= forest_model(before).push(c@));
            }
        },
    }
}

fn update_rec(nodes: &mut Vec<TodoNode>, target: &String, edit: &NodeEdit) -> (r: bool)
    ensures
        edit_outcome(
            forest_model(old(nodes)@),
            forest_model(final(nodes)@),
            r,
            update_from(forest_model(old(nodes)@), target@, edit_fn(*edit), 0),
        ),
    decreases old(nodes)@,
{
    let ghost orig = nodes@;
    proof {
        lemma_forest_model(orig);
    }
    let mut i: usize = 0;
    while i < nodes.len()
        invariant
            orig == old(nodes)@,
            i <= nodes@.len(),
            nodes@.len() == orig.len(),
            forest_model(orig).len() == orig.len(),
            forall|k: int| 0 <= k < orig.len() ==> #[trigger] forest_model(orig)[k] == node_model(orig[k]),
            forall|k: int| 0 <= k < orig.len() ==> #[trigger] node_model(nodes@[k]) == node_model(orig[k]),
            forall|k: int| i <= k < orig.len() ==> #[trigger] nodes@[k] == orig[k],
            update_from(forest_model(orig), target@, edit_fn(*edit), 0) == update_from(
                forest_model(orig),
                target@,
                edit_fn(*edit),
                i as int,
            ),
        decreases orig.len() - i,
    {
        if nodes[i].id == *target {
            apply_edit(&mut nodes[i], edit);
            proof {
                lemma_forest_model(nodes@);
                assert(forest_model(nodes@) =~= forest_model(orig).update(
                    i as int,
                    edited(node_model(orig[i as int]), *edit),
                ));
            }
            return true;
        }
        proof {
            assert(decreases_to!(orig => orig[i as int]));
            assert(decreases_to!(orig[i as int] => orig[i as int].children));
            assert(decreases_to!(old(nodes)@ => nodes@[i as int].children@));
        }
        let found = update_rec(&mut nodes[i].children, target, edit);
        if found {
            proof {
                lemma_update_children(orig, nodes@, i as int, forest_model(nodes@[i as int].children@));
            }
            return true;
        }
        i += 1;
    }
    proof {
        lemma_same_models(orig, nodes@);
    }
    false
}

/// Applies `edit` to the first task with id `node_id` in depth-first order
/// (see `update_from`); whether one was found.
pub fn update_node_by_id(nodes: &mut Vec<TodoNode>, node_id: &str, edit: &NodeEdit) -> (r: bool)
    ensures
        edit_outcome(
            forest_model(old(nodes)@),
            forest_model(final(nodes)@),
            r,
            update_from(forest_model(old(nodes)@), node_id@, edit_fn(*edit), 0),
        ),
{
    let target = crate::text::string_from(node_id);
    update_rec(nodes, &target, edit)
}

/// Appends `new_node` to the sub-tasks of the first task with id `node_id`
/// in depth-first order, and expands that task; whether one was found.
pub fn add_child_by_id(nodes: &mut Vec<TodoNode>, node_id: &str, new_node: TodoNode) -> (r: bool)
    ensures
        edit_outcome(
            forest_model(old(nodes)@),
            forest_model(final(nodes)@),
            r,
            update_from(
                forest_model(old(nodes)@),
                node_id@,
                |m: NodeModel| NodeModel { expanded: true, children: m.children.push(new_node@), ..m },
                0,
            ),
        ),
{
    let edit = NodeEdit::AddChild(new_node);
    let r = update_node_by_id(nodes, node_id, &edit);
    proof {
        assert(edit_fn(edit) =~= (|m: NodeModel| NodeModel { expanded: true, children: m.children.push(new_node@), ..m }));
    }
    r
}

// ---------------------------------------------------------------------------
// Laws
// ---------------------------------------------------------------------------

/// How many tasks of the subtree of `m` have id `id`.
pub open spec fn occurrences_node(m: NodeModel, id: Seq<char>) -> nat
    decreases m,
{
    (if m.id == id { 1nat } else { 0nat }) + occurrences(m.children, id)
}

/// How many tasks of a forest have id `id`.
pub open spec fn occurrences(s: Seq<NodeModel>, id: Seq<char>) -> nat
    decreases s,
{
    if s.len() == 0 {
        0
    } else {
        occurrences(s.drop_last(), id) + occurrences_node(s[s.len() - 1], id)
    }
}

proof fn lemma_occurrences_at_least(s: Seq<NodeModel>, id: Seq<char>, i: int)
    requires
        0 <= i < s.len(),
    ensures
        occurrences(s, id) >= occurrences_node(s[i], id),
    decreases s.len(),
{
    if i < s.len() - 1 {
        lemma_occurrences_at_least(s.drop_last(), id, i);
    }
}

proof fn lemma_occurrences_two(s: Seq<NodeModel>, id: Seq<char>, i: int, j: int)
    requires
        0 <= i < s.len(),
        0 <= j < s.len(),
        i != j,
    ensures
        occurrences(s, id) >= occurrences_node(s[i], id) + occurrences_node(s[j], id),
    decreases s.len(),
{
    let last = s.len() - 1;
    if i < last && j < last {
        lemma_occurrences_two(s.drop_last(), id, i, j);
    } else if j == last {
        lemma_occurrences_at_least(s.drop_last(), id, i);
    } else {
        lemma_occurrences_at_least(s.drop_last(), id, j);
    }
}

proof fn lemma_position_from(s: Seq<NodeModel>, id: Seq<char>, i: int)
    requires
        0 <= i,
    ensures
        position_from(s, id, i) == -1 || (i <= position_from(s, id, i) < s.len() && s[position_from(
            s,
            id,
            i,
        )].id == id && forall|k: int| i <= k < position_from(s, id, i) ==> #[trigger] s[k].id != id),
        position_from(s, id, i) == -1 ==> forall|k: int| i <= k < s.len() ==> #[trigger] s[k].id != id,
    decreases s.len() - i,
{
    if i < s.len() && s[i].id != id {
        lemma_position_from(s, id, i + 1);
    }
}

/// The first index with the id is `p` when `s[p]` has it and no task before
/// it has.
proof fn lemma_position_is(s: Seq<NodeModel>, id: Seq<char>, p: int)
    requires
        0 <= p < s.len(),
        s[p].id == id,
        forall|k: int| 0 <= k < p ==> #[trigger] s[k].id != id,
    ensures
        position(s, id) == p,
{
    lemma_position_from(s, id, 0);
    let q = position(s, id);
    if q != p {
        if q == -1 {
            assert(s[p].id != id);
        } else if q < p {
            assert(s[q].id != id);
        } else {
            assert(s[p].id != id);
        }
    }
}

proof fn lemma_position_none(s: Seq<NodeModel>, id: Seq<char>)
    requires
        forall|k: int| 0 <= k < s.len() ==> #[trigger] s[k].id != id,
    ensures
        position(s, id) == -1,
{
    lemma_position_from(s, id, 0);
}

/// An edit that finds its task finds it among the tasks that have the id.
proof fn lemma_edit_level_occurs(s: Seq<NodeModel>, id: Seq<char>, f: LevelEdit)
    requires
        edit_level(s, id, f) is Some,
    ensures
        occurrences(s, id) >= 1,
    decreases s, 1int, 0int,
{
    lemma_position_from(s, id, 0);
    let p = position(s, id);
    if p >= 0 {
        lemma_occurrences_at_least(s, id, p);
    } else {
        lemma_edit_below_occurs(s, id, f, 0);
    }
}

proof fn lemma_edit_below_occurs(s: Seq<NodeModel>, id: Seq<char>, f: LevelEdit, i: int)
    requires
        edit_below(s, id, f, i) is Some,
    ensures
        occurrences(s, id) >= 1,
    decreases s, 0int, s.len() - i,
{
    if 0 <= i < s.len() {
        assert(decreases_to!(s => s[i]));
        if edit_level(s[i].children, id, f) is Some {
            lemma_edit_level_occurs(s[i].children, id, f);
            lemma_occurrences_at_least(s, id, i);
        } else {
            lemma_edit_below_occurs(s, id, f, i + 1);
        }
    }
}

pub open spec fn opposite(direction: Seq<char>) -> Seq<char> {
    if is_up(direction) {
        "down"@
    } else {
        "up"@
    }
}

/// Moving a task one place and then back again restores the tree, provided
/// no other task has its id.
pub proof fn lemma_move_back(s: Seq<NodeModel>, id: Seq<char>, direction: Seq<char>)
    requires
        is_up(direction) || is_down(direction),
        edit_level(s, id, move_at(direction)) is Some,
        occurrences(s, id) == 1,
    ensures
        edit_level(edit_level(s, id, move_at(direction))->0, id, move_at(opposite(direction)))
            == Some(s),
    decreases s, 1int, 0int,
{
    reveal_strlit("up");
    reveal_strlit("down");
    assert("up"@ != "down"@) by {
        assert("up"@.len() != "down"@.len());
    }
    lemma_position_from(s, id, 0);
    let p = position(s, id);
    let s1 = edit_level(s, id, move_at(direction))->0;
    if p >= 0 {
        let q = if is_up(direction) { p - 1 } else { p + 1 };
        assert(s1 == moved(s, p, q));
        assert forall|k: int| 0 <= k < s.len() && k != p implies #[trigger] s[k].id != id by {
            lemma_occurrences_two(s, id, p, k);
        }
        assert forall|k: int| 0 <= k < q implies #[trigger] s1[k].id != id by {
            if is_up(direction) {
                assert(s1[k] == s[k]);
            } else {
                if k < p {
                    assert(s1[k] == s[k]);
                } else {
                    assert(s1[k] == s[k + 1]);
                }
            }
        }
        assert(s1[q] == s[p]);
        lemma_position_is(s1, id, q);
        assert(moved(s1, q, p) =~= s);
    } else {
        lemma_move_back_below(s, id, direction, 0);
        assert forall|k: int| 0 <= k < s1.len() implies #[trigger] s1[k].id != id by {
            lemma_edit_below_same_ids(s, id, move_at(direction), 0);
            assert(s1[k].id == s[k].id);
        }
        lemma_position_none(s1, id);
    }
}

proof fn lemma_edit_below_same_ids(s: Seq<NodeModel>, id: Seq<char>, f: LevelEdit, i: int)
    requires
        edit_below(s, id, f, i) is Some,
    ensures
        edit_below(s, id, f, i)->0.len() == s.len(),
        forall|k: int| 0 <= k < s.len() ==> (#[trigger] edit_below(s, id, f, i)->0[k]).id == s[k].id,
    decreases s.len() - i,
{
    if 0 <= i < s.len() {
        if edit_level(s[i].children, id, f) is None {
            lemma_edit_below_same_ids(s, id, f, i + 1);
        }
    }
}

proof fn lemma_no_occurrence_no_edit(s: Seq<NodeModel>, id: Seq<char>, f: LevelEdit)
    requires
        occurrences(s, id) == 0,
    ensures
        edit_level(s, id, f) is None,
{
    if edit_level(s, id, f) is Some {
        lemma_edit_level_occurs(s, id, f);
    }
}

proof fn lemma_move_back_below(s: Seq<NodeModel>, id: Seq<char>, direction: Seq<char>, i: int)
    requires
        0 <= i,
        is_up(direction) || is_down(direction),
        edit_below(s, id, move_at(direction), i) is Some,
        occurrences(s, id) == 1,
        forall|k: int| 0 <= k < s.len() ==> #[trigger] s[k].id != id,
    ensures
        edit_below(edit_below(s, id, move_at(direction), i)->0, id, move_at(opposite(direction)), i)
            == Some(s),
    decreases s, 0int, s.len() - i,
{
    let f = move_at(direction);
    let g = move_at(opposite(direction));
    let s1 = edit_below(s, id, f, i)->0;
    if 0 <= i < s.len() {
        assert(decreases_to!(s => s[i]));
        let c = s[i].children;
        if edit_level(c, id, f) is Some {
            lemma_edit_level_occurs(c, id, f);
            lemma_occurrences_at_least(s, id, i);
            assert(occurrences_node(s[i], id) == occurrences(c, id));
            lemma_move_back(c, id, direction);
            assert(s1 == s.update(i, with_children(s[i], edit_level(c, id, f)->0)));
            assert(s1[i].children == edit_level(c, id, f)->0);
            assert(s1.update(i, with_children(s1[i], c)) =~= s);
        } else {
            lemma_move_back_below(s, id, direction, i + 1);
            lemma_edit_below_keeps_prefix(s, id, f, i + 1);
            assert(s1[i] == s[i]);
            assert(occurrences_node(s[i], id) == 0) by {
                let s2 = edit_below(s, id, f, i + 1)->0;
                lemma_edit_below_occurs(s, id, f, i + 1);
                if occurrences_node(s[i], id) > 0 {
                    lemma_edit_below_witness(s, id, f, i + 1);
                    let j = choose|j: int| i + 1 <= j < s.len() && #[trigger] occurrences(s[j].children, id) >= 1;
                    lemma_occurrences_two(s, id, i, j);
                }
            }
            assert(occurrences(c, id) == 0);
            lemma_no_occurrence_no_edit(c, id, g);
        }
    }
}

proof fn lemma_edit_below_witness(s: Seq<NodeModel>, id: Seq<char>, f: LevelEdit, i: int)
    requires
        0 <= i,
        edit_below(s, id, f, i) is Some,
    ensures
        exists|j: int| i <= j < s.len() && #[trigger] occurrences(s[j].children, id) >= 1,
    decreases s.len() - i,
{
    if i < s.len() {
        if edit_level(s[i].children, id, f) is Some {
            lemma_edit_level_occurs(s[i].children, id, f);
            assert(occurrences(s[i].children, id) >= 1);
        } else {
            lemma_edit_below_witness(s, id, f, i + 1);
        }
    }
}

proof fn lemma_edit_below_keeps_prefix(s: Seq<NodeModel>, id: Seq<char>, f: LevelEdit, i: int)
    requires
        0 <= i,
        edit_below(s, id, f, i) is Some,
    ensures
        edit_below(s, id, f, i)->0.len() == s.len(),
        forall|k: int| 0 <= k < i ==> #[trigger] edit_below(s, id, f, i)->0[k] == s[k],
    decreases s.len() - i,
{
    if i < s.len() {
        if edit_level(s[i].children, id, f) is None {
            lemma_edit_below_keeps_prefix(s, id, f, i + 1);
        }
    }
}

/// Removing the task just inserted restores the tree, provided its id is
/// new to the tree.
pub proof fn lemma_insert_then_remove(s: Seq<NodeModel>, id: Seq<char>, n: NodeModel)
    requires
        edit_level(s, id, insert_after(n)) is Some,
        occurrences(s, n.id) == 0,
    ensures
        edit_level(edit_level(s, id, insert_after(n))->0, n.id, remove_at()) == Some(s),
    decreases s, 1int, 0int,
{
    lemma_position_from(s, id, 0);
    let p = position(s, id);
    let s1 = edit_level(s, id, insert_after(n))->0;
    assert forall|k: int| 0 <= k < s.len() implies #[trigger] s[k].id != n.id by {
        lemma_occurrences_at_least(s, n.id, k);
    }
    if p >= 0 {
        assert(s1 == s.insert(p + 1, n));
        assert forall|k: int| 0 <= k < p + 1 implies #[trigger] s1[k].id != n.id by {
            assert(s1[k] == s[k]);
        }
        lemma_position_is(s1, n.id, p + 1);
        assert(s1.remove(p + 1) =~= s);
    } else {
        lemma_edit_below_same_ids(s, id, insert_after(n), 0);
        assert forall|k: int| 0 <= k < s1.len() implies #[trigger] s1[k].id != n.id by {
            assert(s1[k].id == s[k].id);
        }
        lemma_position_none(s1, n.id);
        lemma_insert_then_remove_below(s, id, n, 0);
    }
}

proof fn lemma_insert_then_remove_below(s: Seq<NodeModel>, id: Seq<char>, n: NodeModel, i: int)
    requires
        0 <= i,
        edit_below(s, id, insert_after(n), i) is Some,
        occurrences(s, n.id) == 0,
    ensures
        edit_below(edit_below(s, id, insert_after(n), i)->0, n.id, remove_at(), i) == Some(s),
    decreases s, 0int, s.len() - i,
{
    let f = insert_after(n);
    let s1 = edit_below(s, id, f, i)->0;
    if 0 <= i < s.len() {
        assert(decreases_to!(s => s[i]));
        let c = s[i].children;
        lemma_occurrences_at_least(s, n.id, i);
        assert(occurrences(c, n.id) == 0);
        if edit_level(c, id, f) is Some {
            lemma_insert_then_remove(c, id, n);
            assert(s1[i].children == edit_level(c, id, f)->0);
            assert(s1.update(i, with_children(s1[i], c)) =~= s);
        } else {
            lemma_insert_then_remove_below(s, id, n, i + 1);
            lemma_edit_below_keeps_prefix(s, id, f, i + 1);
            assert(s1[i] == s[i]);
            lemma_no_occurrence_no_edit(c, n.id, remove_at());
        }
    }
}

/// Every task of the subtree of `m` has the flag `f` set to `v`.
pub open spec fn flag_everywhere(m: NodeModel, f: Flag, v: bool) -> bool
    decreases m,
{
    flag_of(m, f) == v && forall|i: int|
        0 <= i < m.children.len() ==> flag_everywhere(#[trigger] m.children[i], f, v)
}

/// After `flag_deep` the flag is set everywhere below, and setting it again
/// changes nothing.
pub proof fn lemma_flag_deep(m: NodeModel, f: Flag, v: bool)
    ensures
        flag_everywhere(flag_deep(m, f, v), f, v),
        flag_deep(flag_deep(m, f, v), f, v) == flag_deep(m, f, v),
    decreases m,
{
    let d = flag_deep(m, f, v);
    lemma_flag_deep_forest(m.children, f, v);
    lemma_flag_deep_forest(d.children, f, v);
    assert forall|i: int| 0 <= i < d.children.len() implies flag_everywhere(#[trigger] d.children[i], f, v)
        && flag_deep(d.children[i], f, v) == d.children[i] by {
        assert(d.children[i] == flag_deep(m.children[i], f, v));
        lemma_flag_deep(m.children[i], f, v);
    }
    assert(flag_deep_forest(d.children, f, v) =~= d.children);
    assert(flag_deep(d, f, v) =~= d);
}

/// After `set_all_expanded` (or any `flag_deep_forest`) every task of the
/// forest has the flag, and doing it again changes nothing.
pub proof fn lemma_flag_deep_forest_law(s: Seq<NodeModel>, f: Flag, v: bool)
    ensures
        forall|i: int|
            0 <= i < s.len() ==> flag_everywhere(#[trigger] flag_deep_forest(s, f, v)[i], f, v),
        flag_deep_forest(flag_deep_forest(s, f, v), f, v) == flag_deep_forest(s, f, v),
{
    let d = flag_deep_forest(s, f, v);
    lemma_flag_deep_forest(s, f, v);
    lemma_flag_deep_forest(d, f, v);
    assert forall|i: int| 0 <= i < s.len() implies flag_everywhere(#[trigger] d[i], f, v) && flag_deep(
        d[i],
        f,
        v,
    ) == d[i] by {
        lemma_flag_deep(s[i], f, v);
    }
    assert(flag_deep_forest(d, f, v) =~= d);
}

/// Checking a task checks its whole subtree: every task of it then counts
/// as done, and none after unchecking; the number of tasks stays the same.
pub proof fn lemma_checked_subtree_counts(m: NodeModel, v: bool)
    ensures
        node_size(flag_deep(m, Flag::Checked, v)) == node_size(m),
        node_done(flag_deep(m, Flag::Checked, v)) == (if v {
            node_size(m)
        } else {
            0
        }),
    decreases m,
{
    lemma_checked_forest_counts(m.children, v);
}

/// `lemma_checked_subtree_counts` over a forest.
pub proof fn lemma_checked_forest_counts(s: Seq<NodeModel>, v: bool)
    ensures
        forest_size(flag_deep_forest(s, Flag::Checked, v)) == forest_size(s),
        forest_done(flag_deep_forest(s, Flag::Checked, v)) == (if v {
            forest_size(s)
        } else {
            0
        }),
    decreases s,
{
    if s.len() > 0 {
        let d = flag_deep_forest(s, Flag::Checked, v);
        lemma_checked_forest_counts(s.drop_last(), v);
        lemma_checked_subtree_counts(s[s.len() - 1], v);
        assert(d.drop_last() =~= flag_deep_forest(s.drop_last(), Flag::Checked, v));
        assert(d[d.len() - 1] == flag_deep(s[s.len() - 1], Flag::Checked, v));
    }
}

/// Ticking or unticking a task applies to its whole subtree: afterwards
/// every task of it has the new check mark, the subtree keeps its size, and
/// it counts entirely as done when ticked and not at all when unticked.
/// The task's other fields stay as they were.
pub proof fn lemma_set_checked_applies_to_subtree(m: NodeModel, b: bool)
    ensures
        flag_everywhere(edited(m, NodeEdit::SetChecked(b)), Flag::Checked, b),
        node_size(edited(m, NodeEdit::SetChecked(b))) == node_size(m),
        node_done(edited(m, NodeEdit::SetChecked(b))) == (if b {
            node_size(m)
        } else {
            0
        }),
        edited(m, NodeEdit::SetChecked(b)).id == m.id,
        edited(m, NodeEdit::SetChecked(b)).label == m.label,
        edited(m, NodeEdit::SetChecked(b)).status == m.status,
        edited(m, NodeEdit::SetChecked(b)).children.len() == m.children.len(),
{
    lemma_flag_deep(m, Flag::Checked, b);
    lemma_checked_subtree_counts(m, b);
    lemma_flag_deep_forest(m.children, Flag::Checked, b);
}

/// The other edits: a toggle flips its flag and, done twice, gives the task
/// back; adding a sub-task appends exactly it at the end, keeps the other
/// sub-tasks and expands the task; the text edits touch neither the check
/// mark nor the sub-tasks.
pub proof fn lemma_other_edits(m: NodeModel, e: NodeEdit)
    ensures
        edited(m, NodeEdit::ToggleExpanded).expanded == !m.expanded,
        edited(edited(m, NodeEdit::ToggleExpanded), NodeEdit::ToggleExpanded) == m,
        edited(m, NodeEdit::ToggleShowDetails).show_details == !m.show_details,
        edited(edited(m, NodeEdit::ToggleShowDetails), NodeEdit::ToggleShowDetails) == m,
        e matches NodeEdit::AddChild(c) ==> {
            let r = edited(m, e);
            &&& r.expanded
            &&& r.children.len() == m.children.len() + 1
            &&& r.children.last() == c@
            &&& r.children.drop_last() == m.children
            &&& r.checked == m.checked
        },
        !(e is SetChecked) && !(e is AddChild) ==> edited(m, e).checked == m.checked
            && edited(m, e).children == m.children && edited(m, e).id == m.id,
{
    assert(edited(edited(m, NodeEdit::ToggleExpanded), NodeEdit::ToggleExpanded) =~= m);
    assert(edited(edited(m, NodeEdit::ToggleShowDetails), NodeEdit::ToggleShowDetails) =~= m);
    if let NodeEdit::AddChild(c) = e {
        assert(edited(m, e).children.drop_last() =~= m.children);
    }
}

/// The statistics are consistent: no more checked tasks than tasks, and a
/// share of at most 100 percent.
pub proof fn lemma_stats_bounds(s: Seq<NodeModel>)
    ensures
        forest_done(s) <= forest_size(s),
        percent_done(forest_done(s), forest_size(s)) <= 100,
{
    lemma_done_at_most_size_forest(s);
    let d = forest_done(s);
    let t = forest_size(s);
    if t > 0 {
        assert((d * 100) / t <= 100) by (nonlinear_arith)
            requires
                d <= t,
                t > 0,
        ;
    }
}

/// `m` with every id emptied: what a copy under new ids must keep.
pub open spec fn shape(m: NodeModel) -> NodeModel
    decreases m,
{
    NodeModel { id: Seq::empty(), children: shape_forest(m.children), ..m }
}

pub open spec fn shape_forest(s: Seq<NodeModel>) -> Seq<NodeModel>
    decreases s,
{
    if s.len() == 0 {
        Seq::empty()
    } else {
        shape_forest(s.drop_last()).push(shape(s[s.len() - 1]))
    }
}

proof fn lemma_shape_forest(s: Seq<NodeModel>)
    ensures
        shape_forest(s).len() == s.len(),
        forall|i: int| 0 <= i < s.len() ==> #[trigger] shape_forest(s)[i] == shape(s[i]),
    decreases s.len(),
{
    if s.len() > 0 {
        lemma_shape_forest(s.drop_last());
    }
}

proof fn lemma_reid_forest(s: Seq<NodeModel>, ids: Seq<Seq<char>>)
    ensures
        reid_forest(s, ids).len() == s.len(),
        forall|i: int|
            0 <= i < s.len() ==> #[trigger] reid_forest(s, ids)[i] == reid(
                s[i],
                ids.skip(forest_size(s.take(i)) as int),
            ),
    decreases s.len(),
{
    if s.len() > 0 {
        let init = s.drop_last();
        lemma_reid_forest(init, ids);
        assert forall|i: int| 0 <= i < s.len() implies #[trigger] reid_forest(s, ids)[i] == reid(
            s[i],
            ids.skip(forest_size(s.take(i)) as int),
        ) by {
            if i < init.len() {
                assert(init.take(i) == s.take(i));
                assert(init[i] == s[i]);
            } else {
                assert(s.take(i) == init);
            }
        }
    }
}

/// A copy under new ids differs from the task it copies in its ids alone.
pub proof fn lemma_reid_keeps_shape(m: NodeModel, ids: Seq<Seq<char>>)
    ensures
        shape(reid(m, ids)) == shape(m),
    decreases m,
{
    let r = reid(m, ids);
    let ids1 = ids.skip(1);
    lemma_reid_forest(m.children, ids1);
    lemma_shape_forest(m.children);
    lemma_shape_forest(r.children);
    assert forall|i: int| 0 <= i < m.children.len() implies #[trigger] shape_forest(r.children)[i]
        == shape_forest(m.children)[i] by {
        lemma_reid_keeps_shape(m.children[i], ids1.skip(forest_size(m.children.take(i)) as int));
    }
    assert(shape_forest(r.children) =~= shape_forest(m.children));
    assert(shape(r) =~= shape(m));
}

} // verus!
