use todo_tree::filter::{
    all_found, any_contains, filter_nodes, filter_walk, lowercase_all, node_matches_tag,
    node_matches_text,
};
use todo_tree::markdown::{export_tree_to_markdown, markdown_checkbox, markdown_meta};
use todo_tree::model::{TaskStatus, TodoNode};

fn node(id: &str, label: &str, tags: &[&str], children: Vec<TodoNode>) -> TodoNode {
    TodoNode {
        id: id.to_string(),
        label: label.to_string(),
        checked: false,
        expanded: true,
        show_details: true,
        status: TaskStatus::Todo,
        tags: tags.iter().map(|s| s.to_string()).collect(),
        description: String::new(),
        links: vec![],
        children,
    }
}

fn ids(nodes: &[TodoNode]) -> String {
    nodes
        .iter()
        .map(|n| {
            if n.children.is_empty() {
                n.id.clone()
            } else {
                format!("{}[{}]", n.id, ids(&n.children))
            }
        })
        .collect::<Vec<_>>()
        .join(" ")
}

#[test]
fn markdown_document_layout() {
    let mut grand = node("g", "G", &["t"], vec![]);
    grand.status = TaskStatus::Idea;
    grand.description = "d".to_string();
    let mut child = node("c", "", &[], vec![grand]);
    child.checked = true;
    child.status = TaskStatus::Done;
    child.description = "  ".to_string();
    child.links = vec!["u".to_string()];
    let mut root = node("r", "Root", &["ui", "x"], vec![child]);
    root.description = "line1\nline2".to_string();
    root.links = vec!["https://l1".to_string(), "https://l2".to_string()];
    let mut second = node("s", "Second", &[], vec![]);
    second.checked = true;
    second.status = TaskStatus::Blocked;
    let md = export_tree_to_markdown("Proj", &vec![root, second]);
    let expected = "# TODO Proj\n\n## [ ] Root (TODO) #ui #x\n\n> line1 line2\n\n- lien: https://l1\n- lien: https://l2\n\n- [X] Sans titre (DONE)\n  - lien: u\n  - [ ] G (IDEA) #t\n    > d\n\n## [X] Second (BLOCKED)";
    assert_eq!(md, expected);
}

#[test]
fn markdown_of_empty_tree() {
    assert_eq!(export_tree_to_markdown("P", &Vec::new()), "# TODO P\n\n");
}

#[test]
fn markdown_pieces() {
    assert_eq!(markdown_checkbox(true), "[X]");
    assert_eq!(markdown_checkbox(false), "[ ]");
    assert_eq!(markdown_meta(&node("n", "N", &["a", "b"], vec![])), "(TODO) #a #b");
    assert_eq!(markdown_meta(&node("n", "N", &[], vec![])), "(TODO)");
}

fn sample() -> Vec<TodoNode> {
    let a1 = node("a1", "Fix login", &["qa"], vec![]);
    let a = node("a", "Alpha", &["backend"], vec![a1]);
    let b1 = node("b1", "login page", &[], vec![]);
    let mut b = node("b", "Beta", &["frontend"], vec![b1]);
    b.expanded = false;
    vec![a, b]
}

#[test]
fn filter_by_text_keeps_ancestors_expanded() {
    let f = filter_nodes(&sample(), "login", "");
    assert_eq!(ids(&f), "a[a1] b[b1]");
    assert!(f[1].expanded);
}

#[test]
fn filter_match_collapsed_keeps_no_children() {
    let f = filter_nodes(&sample(), "beta", "");
    assert_eq!(ids(&f), "b");
    assert!(!f[0].expanded);
    let f = filter_nodes(&sample(), "  ALPHA ", "");
    assert_eq!(ids(&f), "a");
}

#[test]
fn filter_by_tags() {
    assert_eq!(ids(&filter_nodes(&sample(), "", "qa")), "a[a1]");
    assert_eq!(ids(&filter_nodes(&sample(), "", "back, qa")), "");
    assert_eq!(ids(&filter_nodes(&sample(), "", "FRONT")), "b");
}

#[test]
fn blank_filters_show_everything() {
    let f = filter_nodes(&sample(), "  ", " ");
    assert_eq!(ids(&f), "a[a1] b[b1]");
    assert!(!f[1].expanded);
}

#[test]
fn matching_rules() {
    let mut n = node("n", "Hello", &["Backend"], vec![]);
    n.links = vec!["https://Example.org".to_string()];
    n.description = "Some Text".to_string();
    assert!(node_matches_text(&n, ""));
    assert!(node_matches_text(&n, "hello"));
    assert!(node_matches_text(&n, "todo"));
    assert!(node_matches_text(&n, "backend"));
    assert!(node_matches_text(&n, "example.org"));
    assert!(node_matches_text(&n, "some text"));
    assert!(!node_matches_text(&n, "Hello"));
    assert!(!node_matches_text(&n, "absent"));
    assert!(node_matches_tag(&n, ""));
    assert!(node_matches_tag(&n, "BACK"));
    assert!(node_matches_tag(&n, "back; end"));
    assert!(!node_matches_tag(&n, "back, front"));
}

fn texts(v: &[&str]) -> Vec<String> {
    v.iter().map(|s| s.to_string()).collect()
}

#[test]
fn containment_helpers() {
    let hs = texts(&["alpha", "beta"]);
    assert!(any_contains(&hs, "et"));
    assert!(any_contains(&hs, ""));
    assert!(!any_contains(&hs, "gamma"));
    assert!(!any_contains(&texts(&[]), ""));
    assert!(all_found(&hs, &texts(&["al", "ta"])));
    assert!(all_found(&hs, &texts(&[])));
    assert!(!all_found(&hs, &texts(&["al", "x"])));
    assert_eq!(lowercase_all(&texts(&["ÉTÉ", "Mixed Case"])), texts(&["été", "mixed case"]));
}

#[test]
fn filter_walk_takes_a_lowercase_term() {
    let f = filter_walk(&sample(), "fix", "");
    assert_eq!(ids(&f), "a[a1]");
    let f = filter_walk(&sample(), "FIX", "");
    assert_eq!(ids(&f), "");
}

#[test]
fn markdown_ignores_ids_and_view_flags() {
    let a = sample();
    let mut b = sample();
    b[0].id = "other".to_string();
    b[0].expanded = false;
    b[0].show_details = false;
    b[1].children[0].id = "x".to_string();
    b[1].expanded = true;
    assert_eq!(export_tree_to_markdown("P", &a), export_tree_to_markdown("P", &b));
    b[0].checked = true;
    assert_ne!(export_tree_to_markdown("P", &a), export_tree_to_markdown("P", &b));
}
