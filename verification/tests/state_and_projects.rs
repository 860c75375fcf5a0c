use todo_tree::model::{TaskStatus, TodoNode};
use todo_tree::projects::{
    active_project, active_tree, apply_to_active_tree, create_project, delete_project,
    ensure_active_tree, export_projects, import_projects, rename_project, select_project,
    ProjectError, TreeAction,
};
use todo_tree::state::{
    create_node, default_tree, normalize_node, normalize_state, AppState, DefaultTreeIds,
    ExportProject, ProjectMeta, ProjectTree,
};
use todo_tree::tree::NodeEdit;

fn ids(r: &str, c: &str) -> DefaultTreeIds {
    DefaultTreeIds { root: r.to_string(), child: c.to_string() }
}

fn node(id: &str) -> TodoNode {
    create_node(id.to_string(), id)
}

fn codes(st: &AppState) -> Vec<String> {
    st.projects.iter().map(|p| p.code.clone()).collect()
}

#[test]
fn default_state_holds_example_project() {
    let st = AppState::new_default(&ids("r", "c"));
    assert_eq!(codes(&st), vec!["default".to_string()]);
    assert_eq!(st.projects[0].name, "Default");
    assert_eq!(st.active_project_code, "default");
    assert_eq!(st.drive.status, "Déconnecté");
    assert_eq!(st.available_statuses.len(), 4);
    let tree = &st.trees[0].tree;
    assert_eq!(tree[0].id, "r");
    assert_eq!(tree[0].label, "Lorem");
    assert_eq!(tree[0].tags, vec!["migration".to_string(), "ui".to_string()]);
    assert_eq!(tree[0].links, vec!["https://docs.openclaw.ai".to_string()]);
    assert_eq!(tree[0].description, "Exemple de tâche racine avec détails éditables.");
    assert_eq!(tree[0].children[0].id, "c");
    assert_eq!(tree[0].children[0].label, "Ipsum");
    assert_eq!(tree[0].children[0].status, TaskStatus::Idea);
    assert_eq!(default_tree(&ids("x", "y"))[0].children[0].tags, vec!["prototype".to_string()]);
}

#[test]
fn create_node_is_fresh() {
    let n = create_node("id1".to_string(), "Nouvel enfant");
    assert_eq!(n.id, "id1");
    assert_eq!(n.label, "Nouvel enfant");
    assert!(!n.checked && n.expanded && n.show_details);
    assert_eq!(n.status, TaskStatus::Todo);
    assert!(n.tags.is_empty() && n.links.is_empty() && n.children.is_empty() && n.description.is_empty());
}

#[test]
fn normalize_node_cleans_fields_recursively() {
    let mut n = node("n");
    n.label = "   ".to_string();
    n.tags = vec![" a ;b".to_string(), "".to_string()];
    n.links = vec!["  l  ".to_string(), "   ".to_string()];
    let mut child = node("k");
    child.links = vec![" z ".to_string()];
    n.children.push(child);
    normalize_node(&mut n);
    assert_eq!(n.label, "");
    assert_eq!(n.tags, vec!["a".to_string(), "b".to_string()]);
    assert_eq!(n.links, vec!["l".to_string()]);
    assert_eq!(n.children[0].links, vec!["z".to_string()]);
    let once = n.clone();
    normalize_node(&mut n);
    assert_eq!(n.tags, once.tags);
    assert_eq!(n.links, once.links);
    assert_eq!(n.label, once.label);
}

#[test]
fn normalize_state_fixes_statuses_and_active_code() {
    let mut st = AppState::new_default(&ids("r", "c"));
    st.available_statuses = vec![TaskStatus::Done, TaskStatus::Todo, TaskStatus::Done];
    st.active_project_code = "missing".to_string();
    st.trees[0].tree[0].tags = vec!["x, y".to_string()];
    let n = normalize_state(st, &ids("r2", "c2"));
    assert_eq!(n.available_statuses, vec![TaskStatus::Done, TaskStatus::Todo]);
    assert_eq!(n.active_project_code, "default");
    assert_eq!(n.trees[0].tree[0].tags, vec!["x".to_string(), "y".to_string()]);
    let again = normalize_state(n.clone(), &ids("r3", "c3"));
    assert_eq!(again.available_statuses, n.available_statuses);
    assert_eq!(again.active_project_code, n.active_project_code);
}

#[test]
fn normalize_state_without_projects_gives_default() {
    let mut st = AppState::new_default(&ids("r", "c"));
    st.projects.clear();
    st.available_statuses.clear();
    let n = normalize_state(st, &ids("r2", "c2"));
    assert_eq!(codes(&n), vec!["default".to_string()]);
    assert_eq!(n.trees[0].tree[0].id, "r2");
    let mut st = AppState::new_default(&ids("r", "c"));
    st.available_statuses.clear();
    let n = normalize_state(st, &ids("r2", "c2"));
    assert_eq!(n.available_statuses.len(), 4);
    assert_eq!(n.trees[0].tree[0].id, "r");
}

#[test]
fn create_rename_delete_projects() {
    let mut st = AppState::new_default(&ids("r", "c"));
    assert_eq!(create_project(&mut st, "  !!  ", &ids("a", "b")), Err(ProjectError::InvalidName));
    assert_eq!(create_project(&mut st, "  Mon   Projet ", &ids("a", "b")), Ok(true));
    assert_eq!(codes(&st), vec!["default".to_string(), "monprojet".to_string()]);
    assert_eq!(st.projects[1].name, "Mon Projet");
    assert_eq!(st.active_project_code, "monprojet");
    assert_eq!(st.trees[1].tree[0].id, "a");
    assert_eq!(create_project(&mut st, "mon projet", &ids("a", "b")), Ok(false));
    assert_eq!(st.projects.len(), 2);

    assert_eq!(rename_project(&mut st, "monprojet", "Default"), Err(ProjectError::CodeTaken));
    assert_eq!(rename_project(&mut st, "monprojet", "..."), Err(ProjectError::InvalidName));
    assert_eq!(rename_project(&mut st, "monprojet", "Autre nom"), Ok(()));
    assert_eq!(codes(&st), vec!["default".to_string(), "autrenom".to_string()]);
    assert_eq!(st.trees[1].code, "autrenom");
    assert_eq!(st.active_project_code, "autrenom");
    assert_eq!(rename_project(&mut st, "autrenom", "AUTRE nom!"), Ok(()));
    assert_eq!(st.projects[1].name, "AUTRE nom!");

    select_project(&mut st, "default");
    assert_eq!(active_project(&st).map(|p| p.name.clone()), Some("Default".to_string()));
    delete_project(&mut st, "default", &ids("x", "y"));
    assert_eq!(codes(&st), vec!["autrenom".to_string()]);
    assert_eq!(st.active_project_code, "autrenom");
    assert_eq!(st.trees.len(), 1);
    delete_project(&mut st, "autrenom", &ids("x", "y"));
    assert_eq!(codes(&st), vec!["default".to_string()]);
    assert_eq!(st.trees[0].tree[0].id, "x");
    assert_eq!(ProjectError::InvalidName.message(), "Nom de projet invalide");
    assert_eq!(ProjectError::CodeTaken.message(), "Un projet avec ce code existe déjà");
}

#[test]
fn active_tree_and_actions() {
    let mut st = AppState::new_default(&ids("r", "c"));
    st.active_project_code = "other".to_string();
    assert!(active_project(&st).is_none());
    let t = active_tree(&st, &ids("p", "q"));
    assert_eq!(t[0].id, "p");
    assert_eq!(st.trees.len(), 1);
    let k = ensure_active_tree(&mut st, &ids("p", "q"));
    assert_eq!(k, 1);
    assert_eq!(st.trees[1].code, "other");
    assert_eq!(ensure_active_tree(&mut st, &ids("z", "z")), 1);

    select_project(&mut st, "default");
    assert!(apply_to_active_tree(&mut st, TreeAction::PushRoot(node("new")), &ids("u", "v")));
    assert_eq!(st.trees[0].tree.len(), 2);
    assert!(apply_to_active_tree(&mut st, TreeAction::Edit("c".to_string(), NodeEdit::AddChild(node("cc"))), &ids("u", "v")));
    assert_eq!(st.trees[0].tree[0].children[0].children[0].id, "cc");
    assert!(apply_to_active_tree(&mut st, TreeAction::InsertSibling("r".to_string(), node("s")), &ids("u", "v")));
    assert_eq!(st.trees[0].tree[1].id, "s");
    assert!(apply_to_active_tree(&mut st, TreeAction::Move("new".to_string(), "up".to_string()), &ids("u", "v")));
    assert_eq!(st.trees[0].tree[1].id, "new");
    assert!(apply_to_active_tree(&mut st, TreeAction::Remove("s".to_string()), &ids("u", "v")));
    assert_eq!(st.trees[0].tree.len(), 2);
    let fresh: Vec<String> = (0..10).map(|i| format!("f{}", i)).collect();
    assert!(apply_to_active_tree(&mut st, TreeAction::Duplicate("new".to_string(), fresh), &ids("u", "v")));
    assert_eq!(st.trees[0].tree[2].id, "f0");
    assert!(apply_to_active_tree(&mut st, TreeAction::SetAllExpanded(false), &ids("u", "v")));
    assert!(!st.trees[0].tree[0].expanded);
    assert!(apply_to_active_tree(&mut st, TreeAction::SetAllShowDetails(false), &ids("u", "v")));
    assert!(!st.trees[0].tree[0].children[0].show_details);
    let mut replacement = vec![node("only")];
    replacement[0].links = vec!["  ".to_string()];
    assert!(apply_to_active_tree(&mut st, TreeAction::Replace(replacement), &ids("u", "v")));
    assert_eq!(st.trees[0].tree.len(), 1);
    assert!(st.trees[0].tree[0].links.is_empty());
    assert!(!apply_to_active_tree(&mut st, TreeAction::Remove("zz".to_string()), &ids("u", "v")));
}

#[test]
fn export_and_import_projects() {
    let mut st = AppState::new_default(&ids("r", "c"));
    st.projects.push(ProjectMeta { name: "Sans arbre".to_string(), code: "sansarbre".to_string() });
    let fresh: Vec<String> = (0..4).map(|i| format!("e{}", i)).collect();
    let ex = export_projects(&st, &fresh);
    assert_eq!(ex.len(), 2);
    assert_eq!(ex[0].tree[0].id, "r");
    assert_eq!(ex[1].name, "Sans arbre");
    assert_eq!(ex[1].tree[0].id, "e2");
    assert_eq!(ex[1].tree[0].children[0].id, "e3");

    let mut imported_tree = vec![node("i")];
    imported_tree[0].tags = vec!["p;q".to_string()];
    let imported = vec![
        ExportProject { name: "Nouveau".to_string(), code: "default".to_string(), tree: imported_tree },
        ExportProject { name: "Autre".to_string(), code: "autre".to_string(), tree: vec![] },
    ];
    import_projects(&mut st, imported);
    assert_eq!(codes(&st), vec!["default".to_string(), "sansarbre".to_string(), "autre".to_string()]);
    assert_eq!(st.projects[0].name, "Nouveau");
    assert_eq!(st.trees[0].tree[0].id, "i");
    assert_eq!(st.trees[0].tree[0].tags, vec!["p".to_string(), "q".to_string()]);
    assert_eq!(st.trees.len(), 2);
    assert_eq!(st.trees[1].code, "autre");
    let _ = ProjectTree { code: String::new(), tree: vec![] };
}

#[test]
fn export_then_import_restores_state() {
    let mut st = AppState::new_default(&ids("r", "c"));
    create_project(&mut st, "Second projet", &ids("s", "t")).unwrap();
    let before = format!("{:?}", st);
    let fresh: Vec<String> = (0..4).map(|i| format!("e{}", i)).collect();
    let ex = export_projects(&st, &fresh);
    import_projects(&mut st, ex);
    assert_eq!(format!("{:?}", st), before);
}
