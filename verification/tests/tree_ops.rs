use todo_tree::model::{TaskStatus, TodoNode};
use todo_tree::tree::{
    add_child_by_id, can_move_node, clone_node_deep_with_new_ids, count_stats,
    duplicate_node_as_sibling_by_id, insert_sibling_by_id, move_item_in_array, move_node_by_id,
    remove_node_by_id, set_all_expanded, set_all_show_details, set_checked_deep, tree_size,
    update_node_by_id, NodeEdit,
};

fn node(id: &str, children: Vec<TodoNode>) -> TodoNode {
    TodoNode {
        id: id.to_string(),
        label: format!("label {}", id),
        checked: false,
        expanded: true,
        show_details: true,
        status: TaskStatus::Todo,
        tags: vec![],
        description: String::new(),
        links: vec![],
        children,
    }
}

/// The ids of a forest in depth-first order, children in brackets.
fn ids(nodes: &[TodoNode]) -> String {
    nodes
        .iter()
        .map(|n| {
            if n.children.is_empty() {
                n.id.clone()
            } else {
                format!("{}[{}]", n.id, ids(&n.children))
            }
        })
        .collect::<Vec<_>>()
        .join(" ")
}

fn sample() -> Vec<TodoNode> {
    vec![
        node("a", vec![node("a1", vec![]), node("a2", vec![node("a21", vec![])])]),
        node("b", vec![]),
        node("c", vec![node("c1", vec![])]),
    ]
}

#[test]
fn remove_finds_level_first() {
    let mut t = sample();
    assert!(remove_node_by_id(&mut t, "a2"));
    assert_eq!(ids(&t), "a[a1] b c[c1]");
    assert!(remove_node_by_id(&mut t, "b"));
    assert_eq!(ids(&t), "a[a1] c[c1]");
    assert!(!remove_node_by_id(&mut t, "zz"));
    assert_eq!(ids(&t), "a[a1] c[c1]");
}

#[test]
fn insert_sibling_after_found_task() {
    let mut t = sample();
    assert!(insert_sibling_by_id(&mut t, "a21", node("n", vec![])));
    assert_eq!(ids(&t), "a[a1 a2[a21 n]] b c[c1]");
    assert!(insert_sibling_by_id(&mut t, "c", node("m", vec![])));
    assert_eq!(ids(&t), "a[a1 a2[a21 n]] b c[c1] m");
    assert!(!insert_sibling_by_id(&mut t, "zz", node("q", vec![])));
}

#[test]
fn insert_then_remove_restores() {
    let mut t = sample();
    let before = ids(&t);
    assert!(insert_sibling_by_id(&mut t, "a1", node("fresh", vec![])));
    assert!(remove_node_by_id(&mut t, "fresh"));
    assert_eq!(ids(&t), before);
}

#[test]
fn move_up_and_down_among_siblings() {
    let mut t = sample();
    assert!(move_node_by_id(&mut t, "b", "up"));
    assert_eq!(ids(&t), "b a[a1 a2[a21]] c[c1]");
    assert!(!move_node_by_id(&mut t, "b", "up"));
    assert!(move_node_by_id(&mut t, "a1", "down"));
    assert_eq!(ids(&t), "b a[a2[a21] a1] c[c1]");
    assert!(!move_node_by_id(&mut t, "a1", "down"));
    assert!(!move_node_by_id(&mut t, "a1", "sideways"));
    assert!(!move_node_by_id(&mut t, "zz", "up"));
}

#[test]
fn move_then_move_back_restores() {
    let mut t = sample();
    let before = ids(&t);
    assert!(move_node_by_id(&mut t, "c", "up"));
    assert!(move_node_by_id(&mut t, "c", "down"));
    assert_eq!(ids(&t), before);
    assert!(move_node_by_id(&mut t, "a1", "down"));
    assert!(move_node_by_id(&mut t, "a1", "up"));
    assert_eq!(ids(&t), before);
}

#[test]
fn can_move_matches_move() {
    let t = sample();
    for id in ["a", "a1", "a2", "a21", "b", "c", "c1", "zz"] {
        for dir in ["up", "down", "left"] {
            let mut copy = t.clone();
            assert_eq!(can_move_node(&t, id, dir), move_node_by_id(&mut copy, id, dir), "{} {}", id, dir);
        }
    }
    assert!(!can_move_node(&t, "a", "up"));
    assert!(can_move_node(&t, "a", "down"));
    assert!(!can_move_node(&t, "a21", "down"));
}

#[test]
fn move_item_in_array_ignores_bad_indices() {
    let mut v = vec![1, 2, 3, 4];
    move_item_in_array(&mut v, 0, 2);
    assert_eq!(v, vec![2, 3, 1, 4]);
    move_item_in_array(&mut v, 3, 3);
    move_item_in_array(&mut v, 4, 0);
    assert_eq!(v, vec![2, 3, 1, 4]);
}

#[test]
fn duplicate_gets_new_ids_depth_first() {
    let mut t = sample();
    let fresh: Vec<String> = (0..tree_size(&t)).map(|i| format!("x{}", i)).collect();
    assert!(duplicate_node_as_sibling_by_id(&mut t, "a2", &fresh));
    assert_eq!(ids(&t), "a[a1 a2[a21] x0[x1]] b c[c1]");
    assert_eq!(t[0].children[2].label, "label a2");
    assert!(!duplicate_node_as_sibling_by_id(&mut t, "zz", &fresh));
}

#[test]
fn clone_with_new_ids_keeps_everything_else() {
    let mut n = node("r", vec![node("k1", vec![node("g", vec![])]), node("k2", vec![])]);
    n.tags = vec!["t".to_string()];
    n.checked = true;
    let fresh: Vec<String> = ["A", "B", "C", "D"].iter().map(|s| s.to_string()).collect();
    let c = clone_node_deep_with_new_ids(&n, &fresh);
    assert_eq!(ids(&[c.clone()]), "A[B[C] D]");
    assert_eq!(c.tags, n.tags);
    assert!(c.checked);
    assert_eq!(c.children[0].children[0].label, "label g");
}

#[test]
fn update_by_id_applies_edits_depth_first() {
    let mut t = sample();
    assert!(update_node_by_id(&mut t, "a21", &NodeEdit::SetLabel("new".to_string())));
    assert_eq!(t[0].children[1].children[0].label, "new");
    assert!(update_node_by_id(&mut t, "b", &NodeEdit::SetTags("x; y , ".to_string())));
    assert_eq!(t[1].tags, vec!["x".to_string(), "y".to_string()]);
    assert!(update_node_by_id(&mut t, "b", &NodeEdit::SetLinks(" l1 \n\n l2".to_string())));
    assert_eq!(t[1].links, vec!["l1".to_string(), "l2".to_string()]);
    assert!(update_node_by_id(&mut t, "c", &NodeEdit::SetStatus(TaskStatus::Blocked)));
    assert_eq!(t[2].status, TaskStatus::Blocked);
    assert!(update_node_by_id(&mut t, "c", &NodeEdit::ToggleExpanded));
    assert!(!t[2].expanded);
    assert!(update_node_by_id(&mut t, "c", &NodeEdit::ToggleShowDetails));
    assert!(!t[2].show_details);
    assert!(update_node_by_id(&mut t, "c", &NodeEdit::SetDescription("d".to_string())));
    assert_eq!(t[2].description, "d");
    assert!(update_node_by_id(&mut t, "a", &NodeEdit::SetChecked(true)));
    assert!(t[0].checked && t[0].children[1].children[0].checked);
    assert!(!update_node_by_id(&mut t, "zz", &NodeEdit::ToggleExpanded));
}

#[test]
fn add_child_expands_and_appends() {
    let mut t = sample();
    t[2].expanded = false;
    assert!(add_child_by_id(&mut t, "c", node("c2", vec![])));
    assert!(t[2].expanded);
    assert_eq!(ids(&t), "a[a1 a2[a21]] b c[c1 c2]");
    assert!(!add_child_by_id(&mut t, "zz", node("q", vec![])));
}

#[test]
fn flags_over_whole_subtrees() {
    let mut t = sample();
    set_checked_deep(&mut t[0], true);
    assert!(t[0].checked && t[0].children[0].checked && t[0].children[1].children[0].checked);
    assert!(!t[1].checked);
    set_all_expanded(&mut t, false);
    assert!(!t[0].expanded && !t[0].children[1].expanded && !t[2].children[0].expanded);
    set_all_show_details(&mut t, false);
    assert!(!t[1].show_details && !t[2].children[0].show_details);
    todo_tree::tree::set_expanded_deep(&mut t[0], true);
    assert!(t[0].children[1].expanded && !t[2].expanded);
    todo_tree::tree::set_show_details_deep(&mut t[2], true);
    assert!(t[2].children[0].show_details);
}

#[test]
fn stats_count_checked_share() {
    let mut t = sample();
    assert_eq!(count_stats(&t), (7, 0, 0));
    set_checked_deep(&mut t[0], true);
    assert_eq!(count_stats(&t), (7, 4, 57));
    assert_eq!(count_stats(&Vec::new()), (0, 0, 0));
    assert_eq!(tree_size(&t), 7);
}

#[test]
fn checking_every_root_gives_full_share() {
    let mut t = sample();
    for n in t.iter_mut() {
        set_checked_deep(n, true);
    }
    assert_eq!(count_stats(&t), (7, 7, 100));
    set_checked_deep(&mut t[0], false);
    assert_eq!(count_stats(&t), (7, 3, 42));
}
