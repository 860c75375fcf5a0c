//! The application state: projects, their task trees, the Drive settings
//! and the statuses on offer; its normalization and default values.
use vstd::prelude::*;

use crate::fields::{lemma_tags_text_stable, tags_from_list, tags_of_text, tags_text};
use crate::model::{
    default_status_options, default_statuses, forest_model, lemma_forest_model, node_model,
    NodeModel, TaskStatus, TodoNode,
};
use crate::tree::{forest_done, forest_size, node_done, node_size};
use crate::text::{
    is_blank, lemma_trim_idempotent, lemma_trimmed_nonempty_fixed, lemma_trimmed_nonempty_items,
    string_from, strs, trim, trim_string, trimmed_nonempty,
};

verus! {

#[derive(Clone, Debug, PartialEq)]
pub struct ProjectMeta {
    pub name: String,
    pub code: String,
}

#[derive(Clone, Debug, PartialEq)]
pub struct DriveConfig {
    pub client_id: String,
    pub access_token: String,
    pub status: String,
    pub message: String,
}

/// The task tree of the project with the given code.
#[derive(Clone, Debug)]
pub struct ProjectTree {
    pub code: String,
    pub tree: Vec<TodoNode>,
}

#[derive(Clone, Debug)]
pub struct AppState {
    pub projects: Vec<ProjectMeta>,
    pub active_project_code: String,
    pub trees: Vec<ProjectTree>,
    pub drive: DriveConfig,
    pub available_statuses: Vec<TaskStatus>,
}

/// A project as exported and imported: its name, code and tree.
#[derive(Clone, Debug)]
pub struct ExportProject {
    pub name: String,
    pub code: String,
    pub tree: Vec<TodoNode>,
}

/// The two ids that a newly made default tree gets: one for its root task,
/// one for the sub-task below it.
#[derive(Clone, Debug, PartialEq)]
pub struct DefaultTreeIds {
    pub root: String,
    pub child: String,
}

#[verifier::ext_equal]
pub struct ProjectModel {
    pub name: Seq<char>,
    pub code: Seq<char>,
}

#[verifier::ext_equal]
pub struct TreeModel {
    pub code: Seq<char>,
    pub tree: Seq<NodeModel>,
}

#[verifier::ext_equal]
pub struct DriveModel {
    pub client_id: Seq<char>,
    pub access_token: Seq<char>,
    pub status: Seq<char>,
    pub message: Seq<char>,
}

#[verifier::ext_equal]
pub struct StateModel {
    pub projects: Seq<ProjectModel>,
    pub active: Seq<char>,
    pub trees: Seq<TreeModel>,
    pub drive: DriveModel,
    pub statuses: Seq<TaskStatus>,
}

#[verifier::ext_equal]
pub struct ExportModel {
    pub name: Seq<char>,
    pub code: Seq<char>,
    pub tree: Seq<NodeModel>,
}

impl View for ProjectMeta {
    type V = ProjectModel;

    open spec fn view(&self) -> ProjectModel {
        ProjectModel { name: self.name@, code: self.code@ }
    }
}

impl View for ProjectTree {
    type V = TreeModel;

    open spec fn view(&self) -> TreeModel {
        TreeModel { code: self.code@, tree: forest_model(self.tree@) }
    }
}

impl View for DriveConfig {
    type V = DriveModel;

    open spec fn view(&self) -> DriveModel {
        DriveModel {
            client_id: self.client_id@,
            access_token: self.access_token@,
            status: self.status@,
            message: self.message@,
        }
    }
}

pub open spec fn projects_model(v: Seq<ProjectMeta>) -> Seq<ProjectModel> {
    v.map_values(|p: ProjectMeta| p@)
}

pub open spec fn trees_model(v: Seq<ProjectTree>) -> Seq<TreeModel> {
    v.map_values(|t: ProjectTree| t@)
}

impl View for AppState {
    type V = StateModel;

    open spec fn view(&self) -> StateModel {
        StateModel {
            projects: projects_model(self.projects@),
            active: self.active_project_code@,
            trees: trees_model(self.trees@),
            drive: self.drive@,
            statuses: self.available_statuses@,
        }
    }
}

impl View for ExportProject {
    type V = ExportModel;

    open spec fn view(&self) -> ExportModel {
        ExportModel { name: self.name@, code: self.code@, tree: forest_model(self.tree@) }
    }
}

// ---------------------------------------------------------------------------
// New tasks and default values
// ---------------------------------------------------------------------------

/// A new task: unchecked, expanded, details shown, `Todo`, nothing else.
pub open spec fn new_node_model(id: Seq<char>, label: Seq<char>) -> NodeModel {
    NodeModel {
        id: id,
        label: label,
        checked: false,
        expanded: true,
        show_details: true,
        status: TaskStatus::Todo,
        tags: Seq::empty(),
        description: Seq::empty(),
        links: Seq::empty(),
        children: Seq::empty(),
    }
}

pub fn create_node(id: String, label: &str) -> (r: TodoNode)
    ensures
        r@ == new_node_model(id@, label@),
{
    let r = TodoNode {
        id,
        label: string_from(label),
        checked: false,
        expanded: true,
        show_details: true,
        status: TaskStatus::Todo,
        tags: Vec::new(),
        description: String::new(),
        links: Vec::new(),
        children: Vec::new(),
    };
    proof {
        assert(strs(r.tags@) =~= Seq::<Seq<char>>::empty());
        assert(strs(r.links@) =~= Seq::<Seq<char>>::empty());
        assert(forest_model(r.children@) =~= Seq::<NodeModel>::empty());
    }
    r
}

/// The example tree of a new project: a root task `Lorem` with tags,
/// description and a link, and below it an idea `Ipsum`.
pub open spec fn default_forest(root_id: Seq<char>, child_id: Seq<char>) -> Seq<NodeModel> {
    seq![
        NodeModel {
            id: root_id,
            label: "Lorem"@,
            checked: false,
            expanded: true,
            show_details: true,
            status: TaskStatus::Todo,
            tags: seq!["migration"@, "ui"@],
            description: "Exemple de tâche racine avec détails éditables."@,
            links: seq!["https://docs.openclaw.ai"@],
            children: seq![
                NodeModel {
                    id: child_id,
                    label: "Ipsum"@,
                    checked: false,
                    expanded: true,
                    show_details: true,
                    status: TaskStatus::Idea,
                    tags: seq!["prototype"@],
                    description: Seq::empty(),
                    links: Seq::empty(),
                    children: Seq::empty(),
                },
            ],
        },
    ]
}

pub fn default_tree(ids: &DefaultTreeIds) -> (r: Vec<TodoNode>)
    ensures
        forest_model(r@) == default_forest(ids.root@, ids.child@),
{
    let mut child_tags = Vec::new();
    child_tags.push(string_from("prototype"));
    let child = TodoNode {
        id: ids.child.clone(),
        label: string_from("Ipsum"),
        checked: false,
        expanded: true,
        show_details: true,
        status: TaskStatus::Idea,
        tags: child_tags,
        description: String::new(),
        links: Vec::new(),
        children: Vec::new(),
    };
    let mut children = Vec::new();
    children.push(child);
    let mut tags = Vec::new();
    tags.push(string_from("migration"));
    tags.push(string_from("ui"));
    let mut links = Vec::new();
    links.push(string_from("https://docs.openclaw.ai"));
    let root = TodoNode {
        id: ids.root.clone(),
        label: string_from("Lorem"),
        checked: false,
        expanded: true,
        show_details: true,
        status: TaskStatus::Todo,
        tags,
        description: string_from("Exemple de tâche racine avec détails éditables."),
        links,
        children,
    };
    let mut r = Vec::new();
    r.push(root);
    proof {
        lemma_forest_model(child.children@);
        assert(forest_model(child.children@) =~= Seq::<NodeModel>::empty());
        assert(strs(child.tags@) =~= seq!["prototype"@]);
        assert(strs(child.links@) =~= Seq::<Seq<char>>::empty());
        lemma_forest_model(root.children@);
        assert(forest_model(root.children@) =~= seq![node_model(child)]);
        assert(strs(root.tags@) =~= seq!["migration"@, "ui"@]);
        assert(strs(root.links@) =~= seq!["https://docs.openclaw.ai"@]);
        lemma_forest_model(r@);
        assert(forest_model(r@) =~= default_forest(ids.root@, ids.child@));
    }
    r
}

/// The state of a first start: one project `Default` (code `default`) with
/// the example tree, Drive disconnected, the four statuses on offer.
pub open spec fn default_state(root_id: Seq<char>, child_id: Seq<char>) -> StateModel {
    StateModel {
        projects: seq![ProjectModel { name: "Default"@, code: "default"@ }],
        active: "default"@,
        trees: seq![TreeModel { code: "default"@, tree: default_forest(root_id, child_id) }],
        drive: DriveModel {
            client_id: Seq::empty(),
            access_token: Seq::empty(),
            status: "Déconnecté"@,
            message: Seq::empty(),
        },
        statuses: default_statuses(),
    }
}

impl AppState {
    /// The state of a first start (see `default_state`), its example tree
    /// under the given ids.
    pub fn new_default(ids: &DefaultTreeIds) -> (r: AppState)
        ensures
            r@ == default_state(ids.root@, ids.child@),
    {
        let mut projects = Vec::new();
        projects.push(ProjectMeta { name: string_from("Default"), code: string_from("default") });
        let mut trees = Vec::new();
        trees.push(ProjectTree { code: string_from("default"), tree: default_tree(ids) });
        let r = AppState {
            projects,
            active_project_code: string_from("default"),
            trees,
            drive: DriveConfig {
                client_id: String::new(),
                access_token: String::new(),
                status: string_from("Déconnecté"),
                message: String::new(),
            },
            available_statuses: default_status_options(),
        };
        proof {
            assert(projects_model(r.projects@) =~= seq![ProjectModel { name: "Default"@, code: "default"@ }]);
            assert(trees_model(r.trees@) =~= seq![TreeModel { code: "default"@, tree: default_forest(ids.root@, ids.child@) }]);
            assert(r@ =~= default_state(ids.root@, ids.child@));
        }
        r
    }
}

// ---------------------------------------------------------------------------
// Normalization
// ---------------------------------------------------------------------------

/// A task as it is kept: a label of only whitespace emptied, the tags read
/// again from their text, the links trimmed with the empty ones left out,
/// and the same for every task below.
pub open spec fn normalized(m: NodeModel) -> NodeModel
    decreases m,
{
    NodeModel {
        label: if trim(m.label).len() == 0 {
            Seq::empty()
        } else {
            m.label
        },
        tags: tags_of_text(tags_text(m.tags)),
        links: trimmed_nonempty(m.links),
        children: normalized_forest(m.children),
        ..m
    }
}

pub open spec fn normalized_forest(s: Seq<NodeModel>) -> Seq<NodeModel>
    decreases s,
{
    if s.len() == 0 {
        Seq::empty()
    } else {
        normalized_forest(s.drop_last()).push(normalized(s[s.len() - 1]))
    }
}

pub proof fn lemma_normalized_forest(s: Seq<NodeModel>)
    ensures
        normalized_forest(s).len() == s.len(),
        forall|i: int| 0 <= i < s.len() ==> #[trigger] normalized_forest(s)[i] == normalized(s[i]),
    decreases s.len(),
{
    if s.len() > 0 {
        lemma_normalized_forest(s.drop_last());
    }
}

fn normalize_links(links: &Vec<String>) -> (r: Vec<String>)
    ensures
        strs(r@) == trimmed_nonempty(strs(links@)),
{
    let ghost ls = strs(links@);
    let mut r: Vec<String> = Vec::new();
    let mut i: usize = 0;
    proof {
        assert(ls.take(0) =~= Seq::<Seq<char>>::empty());
        assert(strs(r@) =~= Seq::<Seq<char>>::empty());
    }
    while i < links.len()
        invariant
            i <= links@.len(),
            ls == strs(links@),
            strs(r@) == trimmed_nonempty(ls.take(i as int)),
        decreases links.len() - i,
    {
        proof {
            assert(ls.take(i + 1).drop_last() == ls.take(i as int));
            assert(ls.take(i + 1).last() == links@[i as int]@);
        }
        let t = trim_string(links[i].as_str());
        let ghost before = r@;
        if t.as_str().unicode_len() > 0 {
            r.push(t);
            assert(strs(r@) =~= strs(before).push(t@));
        }
        i += 1;
    }
    assert(ls.take(ls.len() as int) == ls);
    r
}

pub fn normalize_node(node: &mut TodoNode)
    ensures
        final(node)@ == normalized(old(node)@),
    decreases *old(node),
{
    if is_blank(node.label.as_str()) {
        node.label = String::new();
    }
    node.tags = tags_from_list(&node.tags);
    node.links = normalize_links(&node.links);
    normalize_forest(&mut node.children);
}

pub fn normalize_forest(nodes: &mut Vec<TodoNode>)
    ensures
        forest_model(final(nodes)@) == normalized_forest(forest_model(old(nodes)@)),
    decreases old(nodes)@,
{
    let ghost orig = nodes@;
    proof {
        lemma_forest_model(orig);
        lemma_normalized_forest(forest_model(orig));
    }
    let mut i: usize = 0;
    while i < nodes.len()
        invariant
            i <= nodes@.len(),
            nodes@.len() == orig.len(),
            orig == old(nodes)@,
            forall|k: int| i <= k < orig.len() ==> #[trigger] nodes@[k] == orig[k],
            forall|k: int|
                0 <= k < i ==> #[trigger] node_model(nodes@[k]) == normalized(node_model(orig[k])),
        decreases orig.len() - i,
    {
        assert(decreases_to!(old(nodes)@ => nodes@[i as int]));
        normalize_node(&mut nodes[i]);
        i += 1;
    }
    proof {
        lemma_forest_model(nodes@);
        lemma_normalized_forest(forest_model(orig));
        assert(forest_model(nodes@) =~= normalized_forest(forest_model(orig)));
    }
}

/// Each status once, where it first occurs.
pub open spec fn dedup(s: Seq<TaskStatus>) -> Seq<TaskStatus>
    decreases s.len(),
{
    if s.len() == 0 {
        Seq::empty()
    } else {
        let d = dedup(s.drop_last());
        if d.contains(s.last()) {
            d
        } else {
            d.push(s.last())
        }
    }
}

pub open spec fn has_project(ps: Seq<ProjectModel>, code: Seq<char>) -> bool {
    exists|i: int| 0 <= i < ps.len() && #[trigger] ps[i].code == code
}

pub open spec fn normalized_trees(ts: Seq<TreeModel>) -> Seq<TreeModel> {
    ts.map_values(|t: TreeModel| TreeModel { code: t.code, tree: normalized_forest(t.tree) })
}

/// The state as it is kept: a state without projects replaced by the
/// default state; the statuses deduplicated (the four defaults when there
/// are none); every tree normalized; the active code set to that of the
/// first project when no project has it.
pub open spec fn normalized_state(st: StateModel, root_id: Seq<char>, child_id: Seq<char>) -> StateModel {
    if st.projects.len() == 0 {
        default_state(root_id, child_id)
    } else {
        StateModel {
            projects: st.projects,
            active: if has_project(st.projects, st.active) {
                st.active
            } else {
                st.projects[0].code
            },
            trees: normalized_trees(st.trees),
            drive: st.drive,
            statuses: if st.statuses.len() == 0 {
                default_statuses()
            } else {
                dedup(st.statuses)
            },
        }
    }
}

fn dedup_statuses(v: &Vec<TaskStatus>) -> (r: Vec<TaskStatus>)
    ensures
        r@ == dedup(v@),
{
    let mut acc: Vec<TaskStatus> = Vec::new();
    let mut i: usize = 0;
    while i < v.len()
        invariant
            i <= v@.len(),
            acc@ == dedup(v@.take(i as int)),
        decreases v.len() - i,
    {
        assert(v@.take(i + 1).drop_last() == v@.take(i as int));
        assert(v@.take(i + 1).last() == v@[i as int]);
        let x = v[i];
        let mut found = false;
        let mut k: usize = 0;
        while k < acc.len()
            invariant
                k <= acc@.len(),
                found == (exists|j: int| 0 <= j < k && acc@[j] == x),
            decreases acc.len() - k,
        {
            if acc[k] == x {
                found = true;
            }
            k += 1;
        }
        if !found {
            acc.push(x);
        } else {
            proof {
                let j = choose|j: int| 0 <= j < k && acc@[j] == x;
                assert(acc@.contains(x));
            }
        }
        i += 1;
    }
    assert(v@.take(v@.len() as int) == v@);
    acc
}

/// Whether some project has the given code.
pub fn project_exists(projects: &Vec<ProjectMeta>, code: &String) -> (r: bool)
    ensures
        r == has_project(projects_model(projects@), code@),
{
    let mut i: usize = 0;
    while i < projects.len()
        invariant
            i <= projects@.len(),
            forall|k: int| 0 <= k < i ==> projects@[k].code@ != code@,
        decreases projects.len() - i,
    {
        if projects[i].code == *code {
            assert(projects_model(projects@)[i as int].code == code@);
            return true;
        }
        i += 1;
    }
    proof {
        assert forall|k: int| 0 <= k < projects@.len() implies projects_model(projects@)[k].code != code@ by {
            assert(projects_model(projects@)[k] == projects@[k]@);
        }
    }
    false
}

/// Normalizes a state (see `normalized_state`); a default state needed in
/// its place gets the given ids.
pub fn normalize_state(state: AppState, ids: &DefaultTreeIds) -> (r: AppState)
    ensures
        r@ == normalized_state(state@, ids.root@, ids.child@),
{
    if state.projects.len() == 0 {
        return AppState::new_default(ids);
    }
    let mut state = state;
    let ghost orig = state@;
    let ghost orig_trees = state.trees@;
    if state.available_statuses.len() == 0 {
        state.available_statuses = default_status_options();
    } else {
        state.available_statuses = dedup_statuses(&state.available_statuses);
    }
    let mut i: usize = 0;
    while i < state.trees.len()
        invariant
            i <= state.trees@.len(),
            state.trees@.len() == orig_trees.len(),
            forall|k: int| i <= k < orig_trees.len() ==> #[trigger] state.trees@[k] == orig_trees[k],
            forall|k: int|
                0 <= k < i ==> #[trigger] state.trees@[k]@ == (TreeModel {
                    code: orig_trees[k]@.code,
                    tree: normalized_forest(orig_trees[k]@.tree),
                }),
            projects_model(state.projects@) == orig.projects,
            state.active_project_code@ == orig.active,
            state.drive@ == orig.drive,
            orig.projects.len() > 0,
            orig.trees == trees_model(orig_trees),
            state.available_statuses@ == (if orig.statuses.len() == 0 {
                default_statuses()
            } else {
                dedup(orig.statuses)
            }),
        decreases orig_trees.len() - i,
    {
        normalize_forest(&mut state.trees[i].tree);
        i += 1;
    }
    proof {
        assert(trees_model(state.trees@) =~= normalized_trees(orig.trees));
    }
    if !project_exists(&state.projects, &state.active_project_code) {
        state.active_project_code = state.projects[0].code.clone();
        proof {
            assert(projects_model(state.projects@)[0] == state.projects@[0]@);
        }
    }
    proof {
        assert(state@ =~= normalized_state(orig, ids.root@, ids.child@));
    }
    state
}

// ---------------------------------------------------------------------------
// Laws of normalization
// ---------------------------------------------------------------------------

proof fn lemma_links_normalized_stable(ls: Seq<Seq<char>>)
    ensures
        trimmed_nonempty(trimmed_nonempty(ls)) == trimmed_nonempty(ls),
{
    let r = trimmed_nonempty(ls);
    lemma_trimmed_nonempty_items(ls);
    assert forall|i: int| 0 <= i < r.len() implies (#[trigger] r[i]).len() > 0 && trim(r[i]) == r[i] by {
        let j = choose|j: int| 0 <= j < ls.len() && r[i] == trim(#[trigger] ls[j]);
        lemma_trim_idempotent(ls[j]);
    }
    lemma_trimmed_nonempty_fixed(r);
}

/// Normalizing a task cleans its texts only: its id, check mark, flags,
/// status and description stay, a label that is not blank stays as it is
/// (a blank one is emptied), and its sub-tasks are normalized one by one.
pub proof fn lemma_normalize_cleans_texts_only(m: NodeModel)
    ensures
        normalized(m).id == m.id,
        normalized(m).checked == m.checked,
        normalized(m).expanded == m.expanded,
        normalized(m).show_details == m.show_details,
        normalized(m).status == m.status,
        normalized(m).description == m.description,
        trim(m.label).len() > 0 ==> normalized(m).label == m.label,
        trim(m.label).len() == 0 ==> normalized(m).label.len() == 0,
        normalized(m).children.len() == m.children.len(),
        forall|i: int|
            0 <= i < m.children.len() ==> #[trigger] normalized(m).children[i] == normalized(
                m.children[i],
            ),
{
    lemma_normalized_forest(m.children);
}

/// Normalizing a task keeps how many tasks its subtree holds and how many
/// of them are checked.
pub proof fn lemma_normalize_keeps_counts(m: NodeModel)
    ensures
        node_size(normalized(m)) == node_size(m),
        node_done(normalized(m)) == node_done(m),
    decreases m,
{
    lemma_normalize_keeps_forest_counts(m.children);
}

/// Normalizing a forest keeps its statistics: as many tasks, as many of
/// them checked.
pub proof fn lemma_normalize_keeps_forest_counts(s: Seq<NodeModel>)
    ensures
        forest_size(normalized_forest(s)) == forest_size(s),
        forest_done(normalized_forest(s)) == forest_done(s),
    decreases s,
{
    if s.len() > 0 {
        let n = normalized_forest(s);
        lemma_normalize_keeps_forest_counts(s.drop_last());
        lemma_normalize_keeps_counts(s[s.len() - 1]);
        assert(n.drop_last() =~= normalized_forest(s.drop_last()));
        assert(n[n.len() - 1] == normalized(s[s.len() - 1]));
    }
}

/// Normalizing a task a second time changes nothing.
pub proof fn lemma_normalized_idempotent(m: NodeModel)
    ensures
        normalized(normalized(m)) == normalized(m),
    decreases m,
{
    lemma_tags_text_stable(tags_text(m.tags));
    lemma_links_normalized_stable(m.links);
    lemma_normalized_forest_idempotent(m.children);
    assert(trim(Seq::<char>::empty()) =~= Seq::<char>::empty());
    assert(normalized(normalized(m)) =~= normalized(m));
}

/// Normalizing a forest a second time changes nothing.
pub proof fn lemma_normalized_forest_idempotent(s: Seq<NodeModel>)
    ensures
        normalized_forest(normalized_forest(s)) == normalized_forest(s),
    decreases s,
{
    let n = normalized_forest(s);
    lemma_normalized_forest(s);
    lemma_normalized_forest(n);
    assert forall|i: int| 0 <= i < s.len() implies #[trigger] normalized_forest(n)[i] == n[i] by {
        lemma_normalized_idempotent(s[i]);
    }
    assert(normalized_forest(n) =~= n);
}

proof fn lemma_dedup_items(s: Seq<TaskStatus>)
    ensures
        forall|i: int, j: int| 0 <= i < j < dedup(s).len() ==> dedup(s)[i] != dedup(s)[j],
        forall|x: TaskStatus| dedup(s).contains(x) <==> s.contains(x),
    decreases s.len(),
{
    if s.len() > 0 {
        let init = s.drop_last();
        let d0 = dedup(init);
        let d = dedup(s);
        lemma_dedup_items(init);
        assert forall|x: TaskStatus| d.contains(x) implies s.contains(x) by {
            let m = choose|m: int| 0 <= m < d.len() && d[m] == x;
            if m < d0.len() {
                assert(d0[m] == x);
                assert(d0.contains(x));
                assert(init.contains(x));
                let k = choose|k: int| 0 <= k < init.len() && init[k] == x;
                assert(s[k] == x);
            } else {
                assert(s[s.len() - 1] == x);
            }
        }
        assert forall|x: TaskStatus| s.contains(x) implies d.contains(x) by {
            let k = choose|k: int| 0 <= k < s.len() && s[k] == x;
            if k < s.len() - 1 {
                assert(init[k] == x);
                assert(init.contains(x));
                assert(d0.contains(x));
                let m = choose|m: int| 0 <= m < d0.len() && d0[m] == x;
                assert(d[m] == x);
            } else if !d0.contains(s.last()) {
                assert(d[d.len() - 1] == x);
            } else {
                let m = choose|m: int| 0 <= m < d0.len() && d0[m] == s.last();
                assert(d[m] == x);
            }
        }
        if !d0.contains(s.last()) {
            assert forall|i: int, j: int| 0 <= i < j < d.len() implies d[i] != d[j] by {
                if j == d.len() - 1 {
                    assert(d0[i] == d[i]);
                    if d[i] == d[j] {
                        assert(d0.contains(s.last()));
                    }
                } else {
                    assert(d0[i] == d[i] && d0[j] == d[j]);
                }
            }
        }
    }
}

proof fn lemma_dedup_fixed(s: Seq<TaskStatus>)
    requires
        forall|i: int, j: int| 0 <= i < j < s.len() ==> s[i] != s[j],
    ensures
        dedup(s) == s,
    decreases s.len(),
{
    if s.len() > 0 {
        let init = s.drop_last();
        lemma_dedup_fixed(init);
        if init.contains(s.last()) {
            let k = choose|k: int| 0 <= k < init.len() && init[k] == s.last();
            assert(s[k] == s[s.len() - 1]);
        }
        assert(init.push(s.last()) =~= s);
    }
}

/// Deduplicating statuses a second time changes nothing.
pub proof fn lemma_dedup_idempotent(s: Seq<TaskStatus>)
    ensures
        dedup(dedup(s)) == dedup(s),
{
    lemma_dedup_items(s);
    lemma_dedup_fixed(dedup(s));
}

/// The active code of a normalized state names one of its projects.
pub proof fn lemma_normalized_state_has_active(st: StateModel, root_id: Seq<char>, child_id: Seq<char>)
    ensures
        has_project(
            normalized_state(st, root_id, child_id).projects,
            normalized_state(st, root_id, child_id).active,
        ),
{
    let n = normalized_state(st, root_id, child_id);
    if st.projects.len() == 0 {
        assert(n.projects[0].code == n.active);
    } else if !has_project(st.projects, st.active) {
        assert(n.projects[0].code == n.active);
    }
}

proof fn lemma_default_forest_normalized(root_id: Seq<char>, child_id: Seq<char>)
    ensures
        normalized_forest(default_forest(root_id, child_id)) == default_forest(root_id, child_id),
{
    reveal_strlit("Lorem");
    reveal_strlit("Ipsum");
    reveal_strlit("migration");
    reveal_strlit("ui");
    reveal_strlit("prototype");
    reveal_strlit("https://docs.openclaw.ai");
    let f = default_forest(root_id, child_id);
    let root = f[0];
    let child = root.children[0];
    let tags_root = seq!["migration"@, "ui"@];
    let tags_child = seq!["prototype"@];
    let links = seq!["https://docs.openclaw.ai"@];
    assert(crate::fields::clean_items(crate::text::Separators::TagList, tags_root)) by {
        assert(trim("migration"@) == "migration"@);
        assert(trim("ui"@) == "ui"@);
    }
    crate::fields::lemma_tags_roundtrip(tags_root);
    assert(crate::fields::clean_items(crate::text::Separators::TagList, tags_child)) by {
        assert(trim("prototype"@) == "prototype"@);
    }
    crate::fields::lemma_tags_roundtrip(tags_child);
    assert(trim("https://docs.openclaw.ai"@) == "https://docs.openclaw.ai"@);
    crate::text::lemma_trimmed_nonempty_single("https://docs.openclaw.ai"@);
    assert(trimmed_nonempty(Seq::<Seq<char>>::empty()) == Seq::<Seq<char>>::empty());
    assert(tags_text(Seq::<Seq<char>>::empty()) =~= Seq::<char>::empty());
    crate::fields::lemma_tags_roundtrip(Seq::<Seq<char>>::empty());
    assert(trim("Lorem"@) == "Lorem"@);
    assert(trim("Ipsum"@) == "Ipsum"@);
    lemma_normalized_forest(Seq::<NodeModel>::empty());
    assert(normalized_forest(Seq::<NodeModel>::empty()) =~= Seq::<NodeModel>::empty());
    assert(normalized(child) =~= child);
    lemma_normalized_forest(root.children);
    assert(normalized_forest(root.children) =~= root.children);
    assert(normalized(root) =~= root);
    lemma_normalized_forest(f);
    assert(normalized_forest(f) =~= f);
}

/// Normalizing a state a second time changes nothing (whatever ids a
/// default tree would get).
pub proof fn lemma_normalized_state_idempotent(
    st: StateModel,
    root_id: Seq<char>,
    child_id: Seq<char>,
    root_id2: Seq<char>,
    child_id2: Seq<char>,
)
    ensures
        normalized_state(normalized_state(st, root_id, child_id), root_id2, child_id2)
            == normalized_state(st, root_id, child_id),
{
    let n = normalized_state(st, root_id, child_id);
    lemma_normalized_state_has_active(st, root_id, child_id);
    let d = default_statuses();
    assert(forall|i: int, j: int| 0 <= i < j < d.len() ==> d[i] != d[j]);
    lemma_dedup_fixed(d);
    if st.projects.len() == 0 {
        lemma_default_forest_normalized(root_id, child_id);
        assert(normalized_trees(n.trees) =~= n.trees);
    } else {
        lemma_dedup_idempotent(st.statuses);
        assert forall|i: int| 0 <= i < n.trees.len() implies #[trigger] normalized_trees(n.trees)[i] == n.trees[i] by {
            lemma_normalized_forest_idempotent(st.trees[i].tree);
        }
        assert(normalized_trees(n.trees) =~= n.trees);
    }
    assert(normalized_state(n, root_id2, child_id2) =~= n);
}

} // verus!
