//! The projects of the state: the active project and its tree, edits of that
//! tree, and creating, renaming, deleting, exporting and importing projects.
use vstd::prelude::*;

use crate::model::{forest_model, lemma_forest_model, NodeModel, TodoNode};
use crate::state::{
    default_forest, default_state, default_tree, has_project, normalize_forest, normalized_forest,
    projects_model, trees_model, AppState, DefaultTreeIds, ExportModel, ExportProject, ProjectMeta,
    ProjectModel, ProjectTree, StateModel, TreeModel,
};
use crate::fields::{
    is_valid_project_name, normalize_project_name, project_code_spec, project_name_spec,
    project_name_to_code, valid_project_name_spec,
};
use crate::text::{string_from, strs};
use crate::tree::{
    clone_forest, duplicate_at, duplicate_node_as_sibling_by_id, edit_fn, edit_level, flag_deep_forest,
    forest_size, insert_after, insert_sibling_by_id, move_at, move_node_by_id, remove_at,
    remove_node_by_id, set_all_expanded, set_all_show_details, update_from, update_node_by_id, Flag,
    NodeEdit,
};

verus! {

/// The index of the first project with the given code, or -1.
pub open spec fn project_index_from(ps: Seq<ProjectModel>, code: Seq<char>, i: int) -> int
    decreases ps.len() - i,
{
    if i < 0 || i >= ps.len() {
        -1
    } else if ps[i].code == code {
        i
    } else {
        project_index_from(ps, code, i + 1)
    }
}

pub open spec fn project_index(ps: Seq<ProjectModel>, code: Seq<char>) -> int {
    project_index_from(ps, code, 0)
}

/// The index of the first tree with the given code, or -1.
pub open spec fn tree_index_from(ts: Seq<TreeModel>, code: Seq<char>, i: int) -> int
    decreases ts.len() - i,
{
    if i < 0 || i >= ts.len() {
        -1
    } else if ts[i].code == code {
        i
    } else {
        tree_index_from(ts, code, i + 1)
    }
}

pub open spec fn tree_index(ts: Seq<TreeModel>, code: Seq<char>) -> int {
    tree_index_from(ts, code, 0)
}

pub proof fn lemma_project_index_from(ps: Seq<ProjectModel>, code: Seq<char>, i: int)
    requires
        0 <= i,
    ensures
        project_index_from(ps, code, i) == -1 || (i <= project_index_from(ps, code, i) < ps.len()
            && ps[project_index_from(ps, code, i)].code == code),
        project_index_from(ps, code, i) == -1 ==> forall|k: int|
            i <= k < ps.len() ==> #[trigger] ps[k].code != code,
    decreases ps.len() - i,
{
    if i < ps.len() && ps[i].code != code {
        lemma_project_index_from(ps, code, i + 1);
    }
}

pub proof fn lemma_tree_index_from(ts: Seq<TreeModel>, code: Seq<char>, i: int)
    requires
        0 <= i,
    ensures
        tree_index_from(ts, code, i) == -1 || (i <= tree_index_from(ts, code, i) < ts.len()
            && ts[tree_index_from(ts, code, i)].code == code),
        tree_index_from(ts, code, i) == -1 ==> forall|k: int|
            i <= k < ts.len() ==> #[trigger] ts[k].code != code,
    decreases ts.len() - i,
{
    if i < ts.len() && ts[i].code != code {
        lemma_tree_index_from(ts, code, i + 1);
    }
}

fn find_project(projects: &Vec<ProjectMeta>, code: &String) -> (r: Option<usize>)
    ensures
        match r {
            Some(i) => i < projects@.len() && project_index(projects_model(projects@), code@) == i,
            None => project_index(projects_model(projects@), code@) == -1,
        },
{
    let ghost ps = projects_model(projects@);
    let mut i: usize = 0;
    while i < projects.len()
        invariant
            i <= projects@.len(),
            ps == projects_model(projects@),
            project_index(ps, code@) == project_index_from(ps, code@, i as int),
        decreases projects.len() - i,
    {
        assert(ps[i as int] == projects@[i as int]@);
        if projects[i].code == *code {
            return Some(i);
        }
        i += 1;
    }
    None
}

fn find_tree(trees: &Vec<ProjectTree>, code: &String) -> (r: Option<usize>)
    ensures
        match r {
            Some(i) => i < trees@.len() && tree_index(trees_model(trees@), code@) == i,
            None => tree_index(trees_model(trees@), code@) == -1,
        },
{
    let ghost ts = trees_model(trees@);
    let mut i: usize = 0;
    while i < trees.len()
        invariant
            i <= trees@.len(),
            ts == trees_model(trees@),
            tree_index(ts, code@) == tree_index_from(ts, code@, i as int),
        decreases trees.len() - i,
    {
        assert(ts[i as int] == trees@[i as int]@);
        if trees[i].code == *code {
            return Some(i);
        }
        i += 1;
    }
    None
}

/// The first project whose code is the active code, if any.
pub fn active_project(state: &AppState) -> (r: Option<&ProjectMeta>)
    ensures
        match r {
            Some(p) => {
                let k = project_index(state@.projects, state@.active);
                0 <= k < state@.projects.len() && p@ == state@.projects[k]
            },
            None => project_index(state@.projects, state@.active) == -1,
        },
{
    match find_project(&state.projects, &state.active_project_code) {
        Some(i) => {
            assert(state@.projects[i as int] == state.projects@[i as int]@);
            Some(&state.projects[i])
        },
        None => None,
    }
}

/// The tree of the active project: the first tree with the active code, or
/// a new default tree when there is none.
pub open spec fn active_tree_model(st: StateModel, root_id: Seq<char>, child_id: Seq<char>) -> Seq<
    NodeModel,
> {
    let k = tree_index(st.trees, st.active);
    if k >= 0 {
        st.trees[k].tree
    } else {
        default_forest(root_id, child_id)
    }
}

/// A copy of the tree of the active project (see `active_tree_model`).
pub fn active_tree(state: &AppState, ids: &DefaultTreeIds) -> (r: Vec<TodoNode>)
    ensures
        forest_model(r@) == active_tree_model(state@, ids.root@, ids.child@),
{
    proof {
        lemma_tree_index_from(state@.trees, state@.active, 0);
    }
    match find_tree(&state.trees, &state.active_project_code) {
        Some(i) => {
            assert(state@.trees[i as int] == state.trees@[i as int]@);
            clone_forest(&state.trees[i].tree)
        },
        None => default_tree(ids),
    }
}

/// The state with a tree for the active project: unchanged when one exists,
/// otherwise with a default tree for the active code appended.
pub open spec fn with_active_tree(st: StateModel, root_id: Seq<char>, child_id: Seq<char>) -> StateModel {
    if tree_index(st.trees, st.active) >= 0 {
        st
    } else {
        StateModel {
            trees: st.trees.push(TreeModel { code: st.active, tree: default_forest(root_id, child_id) }),
            ..st
        }
    }
}

/// The index of the active tree once it exists (see `with_active_tree`).
pub open spec fn active_tree_index(st: StateModel) -> int {
    let k = tree_index(st.trees, st.active);
    if k >= 0 {
        k
    } else {
        st.trees.len() as int
    }
}

/// Makes sure that the active project has a tree (see `with_active_tree`)
/// and returns its index.
pub fn ensure_active_tree(state: &mut AppState, ids: &DefaultTreeIds) -> (r: usize)
    ensures
        final(state)@ == with_active_tree(old(state)@, ids.root@, ids.child@),
        r == active_tree_index(old(state)@),
        r < final(state).trees@.len(),
{
    proof {
        lemma_tree_index_from(state@.trees, state@.active, 0);
    }
    match find_tree(&state.trees, &state.active_project_code) {
        Some(i) => i,
        None => {
            let ghost before = state@;
            let tree = ProjectTree { code: state.active_project_code.clone(), tree: default_tree(ids) };
            let ghost old_trees = state.trees@;
            state.trees.push(tree);
            proof {
                assert(trees_model(state.trees@) =~= trees_model(old_trees).push(
                    TreeModel { code: before.active, tree: default_forest(ids.root@, ids.child@) },
                ));
                assert(state@ =~= with_active_tree(before, ids.root@, ids.child@));
            }
            state.trees.len() - 1
        },
    }
}

/// A change to the tree of the active project.
#[derive(Clone, Debug)]
pub enum TreeAction {
    /// Edits the first task with the id in depth-first order.
    Edit(String, NodeEdit),
    /// Inserts a task after the task with the id, found level by level.
    InsertSibling(String, TodoNode),
    /// Inserts after the task with the id, found level by level, a copy of
    /// it under new ids taken from the list.
    Duplicate(String, Vec<String>),
    /// Removes the task with the id, found level by level.
    Remove(String),
    /// Moves the task with the id, found level by level, `"up"` or `"down"`.
    Move(String, String),
    /// Appends a root task.
    PushRoot(TodoNode),
    SetAllExpanded(bool),
    SetAllShowDetails(bool),
    /// Replaces the whole tree by the given one, normalized.
    Replace(Vec<TodoNode>),
}

/// What an edit addressed by id leaves: the edited tree, or the tree
/// unchanged when the edit did not apply.
pub open spec fn or_unchanged(s: Seq<NodeModel>, r: Option<Seq<NodeModel>>) -> Seq<NodeModel> {
    match r {
        Some(n) => n,
        None => s,
    }
}

/// A tree after an action, and whether the action applied (an action
/// addressed by id applies when it finds its task).
pub open spec fn tree_after(s: Seq<NodeModel>, a: TreeAction) -> (bool, Seq<NodeModel>) {
    match a {
        TreeAction::Edit(id, e) => {
            let r = update_from(s, id@, edit_fn(e), 0);
            (r is Some, or_unchanged(s, r))
        },
        TreeAction::InsertSibling(id, n) => {
            let r = edit_level(s, id@, insert_after(n@));
            (r is Some, or_unchanged(s, r))
        },
        TreeAction::Duplicate(id, ids) => {
            let r = edit_level(s, id@, duplicate_at(strs(ids@)));
            (r is Some, or_unchanged(s, r))
        },
        TreeAction::Remove(id) => {
            let r = edit_level(s, id@, remove_at());
            (r is Some, or_unchanged(s, r))
        },
        TreeAction::Move(id, dir) => {
            let r = edit_level(s, id@, move_at(dir@));
            (r is Some, or_unchanged(s, r))
        },
        TreeAction::PushRoot(n) => (true, s.push(n@)),
        TreeAction::SetAllExpanded(b) => (true, flag_deep_forest(s, Flag::Expanded, b)),
        TreeAction::SetAllShowDetails(b) => (true, flag_deep_forest(s, Flag::ShowDetails, b)),
        TreeAction::Replace(t) => (true, normalized_forest(forest_model(t@))),
    }
}

/// What an action needs: a duplicate needs a new id for every task of the
/// tree it is applied to.
pub open spec fn action_fits(s: Seq<NodeModel>, a: TreeAction) -> bool {
    match a {
        TreeAction::Duplicate(_, ids) => forest_size(s) <= ids@.len(),
        _ => true,
    }
}

/// Applies an action to a tree; whether it applied (see `tree_after`).
pub fn apply_tree_action(tree: &mut Vec<TodoNode>, action: TreeAction) -> (r: bool)
    requires
        action_fits(forest_model(old(tree)@), action),
    ensures
        (r, forest_model(final(tree)@)) == tree_after(forest_model(old(tree)@), action),
{
    match action {
        TreeAction::Edit(id, e) => update_node_by_id(tree, id.as_str(), &e),
        TreeAction::InsertSibling(id, n) => insert_sibling_by_id(tree, id.as_str(), n),
        TreeAction::Duplicate(id, ids) => duplicate_node_as_sibling_by_id(tree, id.as_str(), &ids),
        TreeAction::Remove(id) => remove_node_by_id(tree, id.as_str()),
        TreeAction::Move(id, dir) => move_node_by_id(tree, id.as_str(), dir.as_str()),
        TreeAction::PushRoot(n) => {
            let ghost before = tree@;
            let ghost m = n@;
            tree.push(n);
            proof {
                lemma_forest_model(before);
                lemma_forest_model(tree@);
                assert(forest_model(tree@) =~= forest_model(before).push(m));
            }
            true
        },
        TreeAction::SetAllExpanded(b) => {
            set_all_expanded(tree, b);
            true
        },
        TreeAction::SetAllShowDetails(b) => {
            set_all_show_details(tree, b);
            true
        },
        TreeAction::Replace(t) => {
            let mut t = t;
            normalize_forest(&mut t);
            *tree = t;
            true
        },
    }
}

/// The state after an action on the active tree (made first if missing,
/// see `with_active_tree`).
pub open spec fn state_after_action(
    st: StateModel,
    a: TreeAction,
    root_id: Seq<char>,
    child_id: Seq<char>,
) -> (bool, StateModel) {
    let e = with_active_tree(st, root_id, child_id);
    let k = active_tree_index(st);
    let (applied, t) = tree_after(e.trees[k].tree, a);
    (applied, StateModel { trees: e.trees.update(k, TreeModel { code: e.trees[k].code, tree: t }), ..e })
}

/// Applies an action to the tree of the active project, making that tree
/// first when it is missing; whether the action applied.
pub fn apply_to_active_tree(state: &mut AppState, action: TreeAction, ids: &DefaultTreeIds) -> (r:
    bool)
    requires
        action_fits(active_tree_model(old(state)@, ids.root@, ids.child@), action),
    ensures
        (r, final(state)@) == state_after_action(old(state)@, action, ids.root@, ids.child@),
{
    let ghost before = state@;
    let k = ensure_active_tree(state, ids);
    let ghost mid = state@;
    let ghost mid_trees = state.trees@;
    proof {
        lemma_tree_index_from(before.trees, before.active, 0);
        assert(mid.trees[k as int] == state.trees@[k as int]@);
    }
    let r = apply_tree_action(&mut state.trees[k].tree, action);
    proof {
        assert(trees_model(state.trees@) =~= mid.trees.update(
            k as int,
            TreeModel { code: mid.trees[k as int].code, tree: forest_model(state.trees@[k as int].tree@) },
        ));
        assert(state@ =~= state_after_action(before, action, ids.root@, ids.child@).1);
    }
    r
}

// ---------------------------------------------------------------------------
// Export
// ---------------------------------------------------------------------------

/// Every project with its tree: the first tree with its code, or a default
/// tree whose ids are `ids[2k]` and `ids[2k + 1]` for the `k`-th project.
pub open spec fn exported(st: StateModel, ids: Seq<Seq<char>>) -> Seq<ExportModel> {
    Seq::new(
        st.projects.len(),
        |k: int|
            ExportModel {
                name: st.projects[k].name,
                code: st.projects[k].code,
                tree: {
                    let t = tree_index(st.trees, st.projects[k].code);
                    if t >= 0 {
                        st.trees[t].tree
                    } else {
                        default_forest(ids[2 * k], ids[2 * k + 1])
                    }
                },
            },
    )
}

pub open spec fn exports_model(v: Seq<ExportProject>) -> Seq<ExportModel> {
    v.map_values(|p: ExportProject| p@)
}

/// The projects of the state as they are exported (see `exported`); a
/// project without a tree gets a default tree under two ids of `fresh_ids`.
pub fn export_projects(state: &AppState, fresh_ids: &Vec<String>) -> (r: Vec<ExportProject>)
    requires
        2 * state.projects@.len() <= fresh_ids@.len(),
    ensures
        exports_model(r@) == exported(state@, strs(fresh_ids@)),
{
    let ghost st = state@;
    let n = fresh_ids.len();
    let mut out: Vec<ExportProject> = Vec::new();
    let mut k: usize = 0;
    while k < state.projects.len()
        invariant
            st == state@,
            k <= state.projects@.len(),
            2 * state.projects@.len() <= fresh_ids@.len(),
            n == fresh_ids@.len(),
            out@.len() == k,
            forall|j: int| 0 <= j < k ==> #[trigger] out@[j]@ == exported(st, strs(fresh_ids@))[j],
        decreases state.projects.len() - k,
    {
        let p = &state.projects[k];
        proof {
            assert(st.projects[k as int] == p@);
            lemma_tree_index_from(st.trees, p.code@, 0);
        }
        let tree = match find_tree(&state.trees, &p.code) {
            Some(t) => {
                assert(st.trees[t as int] == state.trees@[t as int]@);
                clone_forest(&state.trees[t].tree)
            },
            None => {
                let ids = DefaultTreeIds {
                    root: fresh_ids[2 * k].clone(),
                    child: fresh_ids[2 * k + 1].clone(),
                };
                proof {
                    assert(strs(fresh_ids@)[2 * k as int] == ids.root@);
                    assert(strs(fresh_ids@)[2 * k + 1] == ids.child@);
                }
                default_tree(&ids)
            },
        };
        out.push(ExportProject { name: p.name.clone(), code: p.code.clone(), tree });
        k += 1;
    }
    proof {
        assert(exports_model(out@) =~= exported(st, strs(fresh_ids@)));
    }
    out
}

// ---------------------------------------------------------------------------
// Creating, renaming, selecting and deleting projects
// ---------------------------------------------------------------------------

/// Why a project name was refused.
#[derive(Clone, Copy, Debug, PartialEq, Eq, Structural)]
pub enum ProjectError {
    /// The name has no ASCII letter or digit, or gives an empty code.
    InvalidName,
    /// Another project already has the code that the name gives.
    CodeTaken,
}

impl ProjectError {
    /// The message shown to the user.
    pub fn message(&self) -> (r: &'static str)
        ensures
            r@ == (match *self {
                ProjectError::InvalidName => "Nom de projet invalide"@,
                ProjectError::CodeTaken => "Un projet avec ce code existe déjà"@,
            }),
    {
        match self {
            ProjectError::InvalidName => "Nom de projet invalide",
            ProjectError::CodeTaken => "Un projet avec ce code existe déjà",
        }
    }
}

/// The state with the given project active.
pub fn select_project(state: &mut AppState, code: &str)
    ensures
        final(state)@ == (StateModel { active: code@, ..old(state)@ }),
{
    state.active_project_code = string_from(code);
}

/// What creating a project from a typed name does: the name with its words
/// separated by single spaces, and the code made from it.  Refused when the
/// name is not valid or the code is empty; nothing changes when a project
/// already has the code (`Ok(false)`); otherwise the project is appended
/// with a default tree and made active (`Ok(true)`).
pub open spec fn create_outcome(
    st: StateModel,
    raw_name: Seq<char>,
    root_id: Seq<char>,
    child_id: Seq<char>,
) -> (Result<bool, ProjectError>, StateModel) {
    let name = project_name_spec(raw_name);
    let code = project_code_spec(name);
    if !valid_project_name_spec(name) || code.len() == 0 {
        (Err(ProjectError::InvalidName), st)
    } else if has_project(st.projects, code) {
        (Ok(false), st)
    } else {
        (
            Ok(true),
            StateModel {
                projects: st.projects.push(ProjectModel { name: name, code: code }),
                trees: st.trees.push(TreeModel { code: code, tree: default_forest(root_id, child_id) }),
                active: code,
                ..st
            },
        )
    }
}

pub fn create_project(state: &mut AppState, raw_name: &str, ids: &DefaultTreeIds) -> (r: Result<
    bool,
    ProjectError,
>)
    ensures
        (r, final(state)@) == create_outcome(old(state)@, raw_name@, ids.root@, ids.child@),
{
    let name = normalize_project_name(raw_name);
    let code = project_name_to_code(name.as_str());
    if !is_valid_project_name(name.as_str()) || code.as_str().unicode_len() == 0 {
        return Err(ProjectError::InvalidName);
    }
    if crate::state::project_exists(&state.projects, &code) {
        return Ok(false);
    }
    let ghost before = state@;
    let ghost old_projects = state.projects@;
    let ghost old_trees = state.trees@;
    state.projects.push(ProjectMeta { name, code: code.clone() });
    state.trees.push(ProjectTree { code: code.clone(), tree: default_tree(ids) });
    state.active_project_code = code;
    proof {
        assert(projects_model(state.projects@) =~= projects_model(old_projects).push(
            ProjectModel { name: name@, code: code@ },
        ));
        assert(trees_model(state.trees@) =~= trees_model(old_trees).push(
            TreeModel { code: code@, tree: default_forest(ids.root@, ids.child@) },
        ));
        assert(state@ =~= create_outcome(before, raw_name@, ids.root@, ids.child@).1);
    }
    Ok(true)
}

/// What renaming the project `code` to a typed name does: the new name and
/// code are made as for a new project (see `create_outcome`).  Refused when
/// the name is not valid, or when another project already has the new
/// code.  Otherwise the first project with the old code gets the new name
/// and code, the first tree with the old code the new code, and the active
/// code follows when it was the old one.
pub open spec fn rename_outcome(st: StateModel, code: Seq<char>, raw_name: Seq<char>) -> (Result<
    (),
    ProjectError,
>, StateModel) {
    let name = project_name_spec(raw_name);
    let next_code = project_code_spec(name);
    if !valid_project_name_spec(name) || next_code.len() == 0 {
        (Err(ProjectError::InvalidName), st)
    } else if exists|i: int|
        #![trigger st.projects[i]]
        0 <= i < st.projects.len() && st.projects[i].code == next_code && st.projects[i].code
            != code {
        (Err(ProjectError::CodeTaken), st)
    } else {
        let p = project_index(st.projects, code);
        let t = tree_index(st.trees, code);
        (
            Ok(()),
            StateModel {
                projects: if p >= 0 {
                    st.projects.update(p, ProjectModel { name: name, code: next_code })
                } else {
                    st.projects
                },
                trees: if t >= 0 {
                    st.trees.update(t, TreeModel { code: next_code, tree: st.trees[t].tree })
                } else {
                    st.trees
                },
                active: if st.active == code {
                    next_code
                } else {
                    st.active
                },
                ..st
            },
        )
    }
}

pub fn rename_project(state: &mut AppState, code: &str, raw_name: &str) -> (r: Result<
    (),
    ProjectError,
>)
    ensures
        (r, final(state)@) == rename_outcome(old(state)@, code@, raw_name@),
{
    let ghost before = state@;
    let name = normalize_project_name(raw_name);
    let next_code = project_name_to_code(name.as_str());
    if !is_valid_project_name(name.as_str()) || next_code.as_str().unicode_len() == 0 {
        return Err(ProjectError::InvalidName);
    }
    let old_code = string_from(code);
    let mut i: usize = 0;
    while i < state.projects.len()
        invariant
            state@ == before,
            old_code@ == code@,
            name@ == project_name_spec(raw_name@),
            next_code@ == project_code_spec(name@),
            valid_project_name_spec(name@),
            next_code@.len() > 0,
            i <= state.projects@.len(),
            forall|k: int|
                #![trigger before.projects[k]]
                0 <= k < i ==> !(before.projects[k].code == next_code@ && before.projects[k].code
                    != code@),
        decreases state.projects.len() - i,
    {
        assert(before.projects[i as int] == state.projects@[i as int]@);
        let same_next = state.projects[i].code == next_code;
        let same_old = state.projects[i].code == old_code;
        assert(same_next == (before.projects[i as int].code == next_code@));
        assert(same_old == (before.projects[i as int].code == code@));
        if same_next && !same_old {
            return Err(ProjectError::CodeTaken);
        }
        i += 1;
    }
    proof {
        lemma_project_index_from(before.projects, code@, 0);
        lemma_tree_index_from(before.trees, code@, 0);
    }
    if let Some(p) = find_project(&state.projects, &old_code) {
        let ghost old_projects = state.projects@;
        state.projects.set(p, ProjectMeta { name, code: next_code.clone() });
        proof {
            assert(projects_model(state.projects@) =~= projects_model(old_projects).update(
                p as int,
                ProjectModel { name: name@, code: next_code@ },
            ));
        }
    }
    if let Some(t) = find_tree(&state.trees, &old_code) {
        let ghost old_trees = state.trees@;
        state.trees[t].code = next_code.clone();
        proof {
            assert(old_trees[t as int]@ == before.trees[t as int]);
            assert(trees_model(state.trees@) =~= trees_model(old_trees).update(
                t as int,
                TreeModel { code: next_code@, tree: before.trees[t as int].tree },
            ));
        }
    }
    if state.active_project_code == old_code {
        state.active_project_code = next_code;
    }
    proof {
        assert(state@ =~= rename_outcome(before, code@, raw_name@).1);
    }
    Ok(())
}

/// The projects whose code is not `code`, in order.
pub open spec fn projects_without(ps: Seq<ProjectModel>, code: Seq<char>) -> Seq<ProjectModel>
    decreases ps.len(),
{
    if ps.len() == 0 {
        Seq::empty()
    } else if ps.last().code == code {
        projects_without(ps.drop_last(), code)
    } else {
        projects_without(ps.drop_last(), code).push(ps.last())
    }
}

/// The trees whose code is not `code`, in order.
pub open spec fn trees_without(ts: Seq<TreeModel>, code: Seq<char>) -> Seq<TreeModel>
    decreases ts.len(),
{
    if ts.len() == 0 {
        Seq::empty()
    } else if ts.last().code == code {
        trees_without(ts.drop_last(), code)
    } else {
        trees_without(ts.drop_last(), code).push(ts.last())
    }
}

/// What deleting the project `code` does: every project and every tree
/// with that code goes; when no project is left the state is the default
/// state; otherwise, when the deleted project was active, the first project
/// left becomes active.
pub open spec fn delete_outcome(
    st: StateModel,
    code: Seq<char>,
    root_id: Seq<char>,
    child_id: Seq<char>,
) -> StateModel {
    let ps = projects_without(st.projects, code);
    let ts = trees_without(st.trees, code);
    if ps.len() == 0 {
        default_state(root_id, child_id)
    } else {
        StateModel {
            projects: ps,
            trees: ts,
            active: if st.active == code {
                ps[0].code
            } else {
                st.active
            },
            ..st
        }
    }
}

pub fn delete_project(state: &mut AppState, code: &str, ids: &DefaultTreeIds)
    ensures
        final(state)@ == delete_outcome(old(state)@, code@, ids.root@, ids.child@),
{
    let ghost before = state@;
    let target = string_from(code);
    let mut projects: Vec<ProjectMeta> = Vec::new();
    let mut trees: Vec<ProjectTree> = Vec::new();
    let np = state.projects.len();
    let nt = state.trees.len();
    let mut old_projects: Vec<ProjectMeta> = Vec::new();
    let mut old_trees: Vec<ProjectTree> = Vec::new();
    std::mem::swap(&mut old_projects, &mut state.projects);
    std::mem::swap(&mut old_trees, &mut state.trees);
    let ghost ps = before.projects;
    let ghost ts = before.trees;
    assert forall|k: int| 0 <= k < old_projects@.len() implies #[trigger] old_projects@[k]@ == ps[0 + k] by {
        assert(projects_model(old_projects@)[k] == old_projects@[k]@);
    }
    assert forall|k: int| 0 <= k < old_trees@.len() implies #[trigger] old_trees@[k]@ == ts[0 + k] by {
        assert(trees_model(old_trees@)[k] == old_trees@[k]@);
    }
    assert(projects_model(projects@) =~= projects_without(ps.take(0), target@));
    assert(trees_model(trees@) =~= trees_without(ts.take(0), target@));
    let mut rest_projects = old_projects;
    let mut i: usize = 0;
    while rest_projects.len() > 0
        invariant
            i + rest_projects@.len() == ps.len(),
            ps.len() == np,
            projects_model(projects@) == projects_without(ps.take(i as int), target@),
            forall|k: int| 0 <= k < rest_projects@.len() ==> #[trigger] rest_projects@[k]@ == ps[i + k],
        decreases rest_projects@.len(),
    {
        let p = rest_projects.remove(0);
        proof {
            assert(p@ == ps[i as int]);
            assert(ps.take(i + 1).drop_last() == ps.take(i as int));
            assert(ps.take(i + 1).last() == ps[i as int]);
        }
        if !(p.code == target) {
            let ghost before_push = projects@;
            projects.push(p);
            proof {
                assert(projects_model(projects@) =~= projects_model(before_push).push(p@));
            }
        }
        i += 1;
    }
    assert(ps.take(ps.len() as int) == ps);
    let mut rest_trees = old_trees;
    let mut j: usize = 0;
    while rest_trees.len() > 0
        invariant
            j + rest_trees@.len() == ts.len(),
            ts.len() == nt,
            trees_model(trees@) == trees_without(ts.take(j as int), target@),
            forall|k: int| 0 <= k < rest_trees@.len() ==> #[trigger] rest_trees@[k]@ == ts[j + k],
        decreases rest_trees@.len(),
    {
        let t = rest_trees.remove(0);
        proof {
            assert(t@ == ts[j as int]);
            assert(ts.take(j + 1).drop_last() == ts.take(j as int));
            assert(ts.take(j + 1).last() == ts[j as int]);
        }
        if !(t.code == target) {
            let ghost before_push = trees@;
            trees.push(t);
            proof {
                assert(trees_model(trees@) =~= trees_model(before_push).push(t@));
            }
        }
        j += 1;
    }
    assert(ts.take(ts.len() as int) == ts);
    if projects.len() == 0 {
        *state = AppState::new_default(ids);
        return ;
    }
    state.projects = projects;
    state.trees = trees;
    if state.active_project_code == target {
        state.active_project_code = state.projects[0].code.clone();
        assert(projects_model(state.projects@)[0] == state.projects@[0]@);
    }
    proof {
        assert(state@ =~= delete_outcome(before, code@, ids.root@, ids.child@));
    }
}

// ---------------------------------------------------------------------------
// Import
// ---------------------------------------------------------------------------

/// What importing one project does: its tree is normalized; a project with
/// its code is added when there is none, otherwise the first one takes its
/// name; the first tree with its code is replaced by the imported tree, or
/// the tree is added when there is none.
pub open spec fn import_one(st: StateModel, p: ExportModel) -> StateModel {
    let tree = normalized_forest(p.tree);
    let projects = if !has_project(st.projects, p.code) {
        st.projects.push(ProjectModel { name: p.name, code: p.code })
    } else {
        let i = project_index(st.projects, p.code);
        st.projects.update(i, ProjectModel { name: p.name, code: st.projects[i].code })
    };
    let t = tree_index(st.trees, p.code);
    let trees = if t >= 0 {
        st.trees.update(t, TreeModel { code: st.trees[t].code, tree: tree })
    } else {
        st.trees.push(TreeModel { code: p.code, tree: tree })
    };
    StateModel { projects: projects, trees: trees, ..st }
}

/// The projects imported one after the other, in order.
pub open spec fn imported_state(st: StateModel, ps: Seq<ExportModel>) -> StateModel
    decreases ps.len(),
{
    if ps.len() == 0 {
        st
    } else {
        import_one(imported_state(st, ps.drop_last()), ps.last())
    }
}

fn import_project(state: &mut AppState, p: ExportProject)
    ensures
        final(state)@ == import_one(old(state)@, p@),
{
    let ghost before = state@;
    let mut tree = p.tree;
    normalize_forest(&mut tree);
    proof {
        lemma_project_index_from(before.projects, p.code@, 0);
        lemma_tree_index_from(before.trees, p.code@, 0);
        lemma_project_index_none(before.projects, p.code@);
    }
    let ghost old_projects = state.projects@;
    if !crate::state::project_exists(&state.projects, &p.code) {
        state.projects.push(ProjectMeta { name: p.name, code: p.code.clone() });
        proof {
            assert(projects_model(state.projects@) =~= projects_model(old_projects).push(
                ProjectModel { name: p@.name, code: p@.code },
            ));
        }
    } else {
        match find_project(&state.projects, &p.code) {
            Some(i) => {
                state.projects[i].name = p.name;
                proof {
                    assert(old_projects[i as int]@ == before.projects[i as int]);
                    assert(projects_model(state.projects@) =~= projects_model(old_projects).update(
                        i as int,
                        ProjectModel { name: p@.name, code: before.projects[i as int].code },
                    ));
                }
            },
            None => {},
        }
    }
    let ghost old_trees = state.trees@;
    match find_tree(&state.trees, &p.code) {
        Some(t) => {
            state.trees[t].tree = tree;
            proof {
                assert(old_trees[t as int]@ == before.trees[t as int]);
                assert(trees_model(state.trees@) =~= trees_model(old_trees).update(
                    t as int,
                    TreeModel { code: before.trees[t as int].code, tree: normalized_forest(p@.tree) },
                ));
            }
        },
        None => {
            state.trees.push(ProjectTree { code: p.code, tree });
            proof {
                assert(trees_model(state.trees@) =~= trees_model(old_trees).push(
                    TreeModel { code: p@.code, tree: normalized_forest(p@.tree) },
                ));
            }
        },
    }
    proof {
        assert(state@ =~= import_one(before, p@));
    }
}

proof fn lemma_project_index_none(ps: Seq<ProjectModel>, code: Seq<char>)
    ensures
        has_project(ps, code) <==> project_index(ps, code) >= 0,
{
    lemma_project_index_from(ps, code, 0);
}

/// Imports projects one after the other (see `imported_state`).
pub fn import_projects(state: &mut AppState, imported: Vec<ExportProject>)
    ensures
        final(state)@ == imported_state(old(state)@, exports_model(imported@)),
{
    let ghost before = state@;
    let ghost ps = exports_model(imported@);
    let n = imported.len();
    let mut rest = imported;
    let mut i: usize = 0;
    while rest.len() > 0
        invariant
            i + rest@.len() == ps.len(),
            ps.len() == n,
            state@ == imported_state(before, ps.take(i as int)),
            forall|k: int| 0 <= k < rest@.len() ==> #[trigger] rest@[k]@ == ps[i + k],
        decreases rest@.len(),
    {
        let p = rest.remove(0);
        proof {
            assert(p@ == ps[i as int]);
            assert(ps.take(i + 1).drop_last() == ps.take(i as int));
            assert(ps.take(i + 1).last() == ps[i as int]);
        }
        import_project(state, p);
        i += 1;
    }
    assert(ps.take(ps.len() as int) == ps);
}

// ---------------------------------------------------------------------------
// Laws: the codes of the projects stay distinct, and the active code names
// a project
// ---------------------------------------------------------------------------

/// No two projects share a code.
pub open spec fn codes_distinct(ps: Seq<ProjectModel>) -> bool {
    forall|i: int, j: int| 0 <= i < j < ps.len() ==> ps[i].code != ps[j].code
}

/// The active code names a project.
pub open spec fn active_ok(st: StateModel) -> bool {
    has_project(st.projects, st.active)
}

/// Creating a project keeps the codes distinct and the active code valid;
/// a project that was created is the active one.
pub proof fn lemma_create_keeps_invariants(
    st: StateModel,
    raw_name: Seq<char>,
    root_id: Seq<char>,
    child_id: Seq<char>,
)
    requires
        codes_distinct(st.projects),
    ensures
        codes_distinct(create_outcome(st, raw_name, root_id, child_id).1.projects),
        active_ok(st) ==> active_ok(create_outcome(st, raw_name, root_id, child_id).1),
        create_outcome(st, raw_name, root_id, child_id).0 == Ok::<bool, ProjectError>(true) ==> active_ok(
            create_outcome(st, raw_name, root_id, child_id).1,
        ),
{
    let (r, after) = create_outcome(st, raw_name, root_id, child_id);
    if r == Ok::<bool, ProjectError>(true) {
        let ps = after.projects;
        assert(ps[ps.len() - 1].code == after.active);
        assert forall|i: int, j: int| 0 <= i < j < ps.len() implies ps[i].code != ps[j].code by {
            if j == ps.len() - 1 {
                assert(ps[i] == st.projects[i]);
            } else {
                assert(ps[i] == st.projects[i] && ps[j] == st.projects[j]);
            }
        }
    }
}

/// Renaming a project keeps the codes distinct and the active code valid.
pub proof fn lemma_rename_keeps_invariants(st: StateModel, code: Seq<char>, raw_name: Seq<char>)
    requires
        codes_distinct(st.projects),
        active_ok(st),
    ensures
        codes_distinct(rename_outcome(st, code, raw_name).1.projects),
        active_ok(rename_outcome(st, code, raw_name).1),
{
    let (r, after) = rename_outcome(st, code, raw_name);
    let ps = st.projects;
    lemma_project_index_from(ps, code, 0);
    if r is Ok {
        let name = project_name_spec(raw_name);
        let next_code = project_code_spec(name);
        let p = project_index(ps, code);
        if p >= 0 {
            let qs = after.projects;
            assert forall|i: int, j: int| 0 <= i < j < qs.len() implies qs[i].code != qs[j].code by {
                if i == p {
                    assert(qs[j] == ps[j]);
                    if ps[j].code == next_code {
                        assert(!(ps[j].code == next_code && ps[j].code != code));
                    }
                } else if j == p {
                    assert(qs[i] == ps[i]);
                    if ps[i].code == next_code {
                        assert(!(ps[i].code == next_code && ps[i].code != code));
                    }
                } else {
                    assert(qs[i] == ps[i] && qs[j] == ps[j]);
                }
            }
            if st.active == code {
                assert(qs[p].code == after.active);
            } else {
                let q = choose|q: int| 0 <= q < ps.len() && #[trigger] ps[q].code == st.active;
                assert(q != p);
                assert(qs[q] == ps[q]);
            }
        } else {
            assert(st.active != code);
        }
    }
}

proof fn lemma_projects_without(ps: Seq<ProjectModel>, code: Seq<char>)
    ensures
        forall|i: int|
            0 <= i < projects_without(ps, code).len() ==> exists|j: int|
                0 <= j < ps.len() && #[trigger] projects_without(ps, code)[i] == ps[j],
        forall|j: int|
            0 <= j < ps.len() && ps[j].code != code ==> exists|i: int|
                0 <= i < projects_without(ps, code).len() && projects_without(ps, code)[i]
                    == #[trigger] ps[j],
        codes_distinct(ps) ==> codes_distinct(projects_without(ps, code)),
    decreases ps.len(),
{
    if ps.len() > 0 {
        let init = ps.drop_last();
        lemma_projects_without(init, code);
        let w0 = projects_without(init, code);
        let w = projects_without(ps, code);
        assert forall|i: int| 0 <= i < w.len() implies exists|j: int|
            0 <= j < ps.len() && #[trigger] w[i] == ps[j] by {
            if i < w0.len() {
                let j = choose|j: int| 0 <= j < init.len() && #[trigger] w0[i] == init[j];
                assert(w[i] == w0[i]);
                assert(ps[j] == init[j]);
            } else {
                assert(w[i] == ps[ps.len() - 1]);
            }
        }
        assert forall|j: int| 0 <= j < ps.len() && ps[j].code != code implies exists|i: int|
            0 <= i < w.len() && w[i] == #[trigger] ps[j] by {
            if j < init.len() {
                assert(init[j] == ps[j]);
                let i = choose|i: int| 0 <= i < w0.len() && w0[i] == #[trigger] init[j];
                assert(w[i] == w0[i]);
            } else {
                assert(w[w.len() - 1] == ps[j]);
            }
        }
        if codes_distinct(ps) {
            assert(codes_distinct(init)) by {
                assert forall|i: int, j: int| 0 <= i < j < init.len() implies init[i].code
                    != init[j].code by {
                    assert(init[i] == ps[i] && init[j] == ps[j]);
                }
            }
            assert forall|i: int, j: int| 0 <= i < j < w.len() implies w[i].code != w[j].code by {
                if j < w0.len() {
                    assert(w[i] == w0[i] && w[j] == w0[j]);
                } else {
                    assert(w[i] == w0[i]);
                    let k = choose|k: int| 0 <= k < init.len() && #[trigger] w0[i] == init[k];
                    assert(init[k] == ps[k]);
                    assert(w[j] == ps[ps.len() - 1]);
                }
            }
        }
    }
}

/// Deleting a project keeps the codes distinct and the active code valid.
pub proof fn lemma_delete_keeps_invariants(
    st: StateModel,
    code: Seq<char>,
    root_id: Seq<char>,
    child_id: Seq<char>,
)
    requires
        codes_distinct(st.projects),
        active_ok(st),
    ensures
        codes_distinct(delete_outcome(st, code, root_id, child_id).projects),
        active_ok(delete_outcome(st, code, root_id, child_id)),
        forall|i: int|
            0 <= i < delete_outcome(st, code, root_id, child_id).projects.len()
                && projects_without(st.projects, code).len() > 0 ==> (#[trigger] delete_outcome(
                st,
                code,
                root_id,
                child_id,
            ).projects[i]).code != code,
{
    let after = delete_outcome(st, code, root_id, child_id);
    let w = projects_without(st.projects, code);
    lemma_projects_without(st.projects, code);
    lemma_projects_without_codes(st.projects, code);
    if w.len() == 0 {
        assert(after.projects[0].code == after.active);
    } else {
        if st.active == code {
            assert(w[0].code == after.active);
        } else {
            let q = choose|q: int| 0 <= q < st.projects.len() && #[trigger] st.projects[q].code == st.active;
            let i = choose|i: int| 0 <= i < w.len() && w[i] == #[trigger] st.projects[q];
            assert(w[i].code == after.active);
        }
    }
}

proof fn lemma_projects_without_codes(ps: Seq<ProjectModel>, code: Seq<char>)
    ensures
        forall|i: int|
            0 <= i < projects_without(ps, code).len() ==> (#[trigger] projects_without(ps, code)[i]).code
                != code,
    decreases ps.len(),
{
    if ps.len() > 0 {
        lemma_projects_without_codes(ps.drop_last(), code);
        let w0 = projects_without(ps.drop_last(), code);
        let w = projects_without(ps, code);
        assert forall|i: int| 0 <= i < w.len() implies (#[trigger] w[i]).code != code by {
            if i < w0.len() {
                assert(w[i] == w0[i]);
            }
        }
    }
}

proof fn lemma_import_one_keeps_invariants(st: StateModel, p: ExportModel)
    ensures
        codes_distinct(st.projects) ==> codes_distinct(import_one(st, p).projects),
        active_ok(st) ==> active_ok(import_one(st, p)),
{
    let after = import_one(st, p);
    let ps = st.projects;
    let qs = after.projects;
    lemma_project_index_from(ps, p.code, 0);
    lemma_project_index_none(ps, p.code);
    if !has_project(ps, p.code) {
        assert forall|i: int| 0 <= i < ps.len() implies #[trigger] qs[i] == ps[i] by {}
        if codes_distinct(ps) {
            assert forall|i: int, j: int| 0 <= i < j < qs.len() implies qs[i].code != qs[j].code by {
                if j == ps.len() {
                    assert(qs[i] == ps[i]);
                } else {
                    assert(qs[i] == ps[i] && qs[j] == ps[j]);
                }
            }
        }
    } else {
        let k = project_index(ps, p.code);
        assert forall|i: int| 0 <= i < ps.len() implies #[trigger] qs[i].code == ps[i].code by {
            if i == k {
            } else {
                assert(qs[i] == ps[i]);
            }
        }
    }
    if active_ok(st) {
        let q = choose|q: int| 0 <= q < ps.len() && #[trigger] ps[q].code == st.active;
        if !has_project(ps, p.code) {
            assert(qs[q] == ps[q]);
        } else {
            assert(qs[q].code == ps[q].code);
        }
    }
}

/// Importing projects keeps the codes distinct and the active code valid.
pub proof fn lemma_import_keeps_invariants(st: StateModel, ps: Seq<ExportModel>)
    ensures
        codes_distinct(st.projects) ==> codes_distinct(imported_state(st, ps).projects),
        active_ok(st) ==> active_ok(imported_state(st, ps)),
    decreases ps.len(),
{
    if ps.len() > 0 {
        lemma_import_keeps_invariants(st, ps.drop_last());
        lemma_import_one_keeps_invariants(imported_state(st, ps.drop_last()), ps.last());
    }
}

/// Normalizing a state keeps the codes distinct.
pub proof fn lemma_normalize_keeps_distinct(st: StateModel, root_id: Seq<char>, child_id: Seq<char>)
    requires
        codes_distinct(st.projects),
    ensures
        codes_distinct(crate::state::normalized_state(st, root_id, child_id).projects),
        active_ok(crate::state::normalized_state(st, root_id, child_id)),
{
    crate::state::lemma_normalized_state_has_active(st, root_id, child_id);
}

/// Every project has a tree, and the first tree with its code is
/// normalized.
pub open spec fn trees_in_place(st: StateModel) -> bool {
    forall|k: int|
        0 <= k < st.projects.len() ==> {
            let t = tree_index(st.trees, #[trigger] st.projects[k].code);
            t >= 0 && normalized_forest(st.trees[t].tree) == st.trees[t].tree
        }
}

proof fn lemma_import_own_export(st: StateModel, ids: Seq<Seq<char>>, k: int)
    requires
        codes_distinct(st.projects),
        trees_in_place(st),
        0 <= k < st.projects.len(),
    ensures
        import_one(st, exported(st, ids)[k]) == st,
{
    let e = exported(st, ids)[k];
    let code = st.projects[k].code;
    let t = tree_index(st.trees, code);
    lemma_project_index_from(st.projects, code, 0);
    lemma_tree_index_from(st.trees, code, 0);
    assert(has_project(st.projects, code));
    let i = project_index(st.projects, code);
    assert(i == k);
    assert(st.projects.update(i, ProjectModel { name: e.name, code: st.projects[i].code })
        =~= st.projects);
    assert(st.trees.update(t, TreeModel { code: st.trees[t].code, tree: normalized_forest(e.tree) })
        =~= st.trees);
    assert(import_one(st, e) =~= st);
}

proof fn lemma_import_export_prefix(st: StateModel, ids: Seq<Seq<char>>, n: int)
    requires
        codes_distinct(st.projects),
        trees_in_place(st),
        0 <= n <= st.projects.len(),
    ensures
        imported_state(st, exported(st, ids).take(n)) == st,
    decreases n,
{
    let es = exported(st, ids);
    if n == 0 {
        assert(es.take(0) =~= Seq::<ExportModel>::empty());
    } else {
        lemma_import_export_prefix(st, ids, n - 1);
        assert(es.take(n).drop_last() =~= es.take(n - 1));
        assert(es.take(n).last() == es[n - 1]);
        lemma_import_own_export(st, ids, n - 1);
    }
}

/// Exporting every project and importing the export back leaves the state
/// as it was, when the project codes are distinct and every project has a
/// normalized tree.
pub proof fn lemma_export_import_roundtrip(st: StateModel, ids: Seq<Seq<char>>)
    requires
        codes_distinct(st.projects),
        trees_in_place(st),
    ensures
        imported_state(st, exported(st, ids)) == st,
{
    let es = exported(st, ids);
    lemma_import_export_prefix(st, ids, st.projects.len() as int);
    assert(es.take(es.len() as int) =~= es);
}

/// Whether a project does not have the code `code`.
pub open spec fn project_code_not(code: Seq<char>) -> spec_fn(ProjectModel) -> bool {
    |p: ProjectModel| p.code != code
}

/// Whether a tree does not have the code `code`.
pub open spec fn tree_code_not(code: Seq<char>) -> spec_fn(TreeModel) -> bool {
    |t: TreeModel| t.code != code
}

proof fn lemma_projects_without_is_filter(ps: Seq<ProjectModel>, code: Seq<char>)
    ensures
        projects_without(ps, code) == ps.filter(project_code_not(code)),
    decreases ps.len(),
{
    reveal(Seq::filter);
    let f = project_code_not(code);
    if ps.len() > 0 {
        lemma_projects_without_is_filter(ps.drop_last(), code);
        assert(f(ps.last()) == (ps.last().code != code));
        assert(ps.filter(f) == (if f(ps.last()) {
            ps.drop_last().filter(f).push(ps.last())
        } else {
            ps.drop_last().filter(f)
        }));
    } else {
        assert(ps.filter(f) == ps);
        assert(ps =~= Seq::<ProjectModel>::empty());
    }
}

proof fn lemma_trees_without_is_filter(ts: Seq<TreeModel>, code: Seq<char>)
    ensures
        trees_without(ts, code) == ts.filter(tree_code_not(code)),
    decreases ts.len(),
{
    reveal(Seq::filter);
    let f = tree_code_not(code);
    if ts.len() > 0 {
        lemma_trees_without_is_filter(ts.drop_last(), code);
        assert(f(ts.last()) == (ts.last().code != code));
        assert(ts.filter(f) == (if f(ts.last()) {
            ts.drop_last().filter(f).push(ts.last())
        } else {
            ts.drop_last().filter(f)
        }));
    } else {
        assert(ts.filter(f) == ts);
        assert(ts =~= Seq::<TreeModel>::empty());
    }
}

/// Deleting a project, when another project is left, removes exactly the
/// projects and the trees with its code and keeps all the others, in
/// order (the active project's tree among them); the active project stays
/// active unless it is the one deleted, and the rest of the state is
/// untouched.
pub proof fn lemma_delete_removes_only_its_code(
    st: StateModel,
    code: Seq<char>,
    root_id: Seq<char>,
    child_id: Seq<char>,
)
    requires
        exists|i: int| 0 <= i < st.projects.len() && #[trigger] st.projects[i].code != code,
    ensures
        delete_outcome(st, code, root_id, child_id).projects == st.projects.filter(
            project_code_not(code),
        ),
        delete_outcome(st, code, root_id, child_id).trees == st.trees.filter(tree_code_not(code)),
        st.active != code ==> delete_outcome(st, code, root_id, child_id).active == st.active,
        delete_outcome(st, code, root_id, child_id).drive == st.drive,
        delete_outcome(st, code, root_id, child_id).statuses == st.statuses,
{
    let i = choose|i: int| 0 <= i < st.projects.len() && #[trigger] st.projects[i].code != code;
    lemma_projects_without(st.projects, code);
    assert(st.projects[i].code != code);
    assert(projects_without(st.projects, code).len() > 0);
    lemma_projects_without_is_filter(st.projects, code);
    lemma_trees_without_is_filter(st.trees, code);
}

} // verus!
