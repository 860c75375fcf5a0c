use todo_tree::fields::{
    is_valid_project_name, links_to_text, normalize_project_name, parse_links_text, parse_tags,
    project_name_to_code, tags_from_list, tags_to_text,
};
use todo_tree::model::{normalize_status_value, TaskStatus};
use todo_tree::text::{collapse_spaces, contains_str, is_blank, str_eq, trim_string};

fn strings(v: &[&str]) -> Vec<String> {
    v.iter().map(|s| s.to_string()).collect()
}

#[test]
fn trim_removes_unicode_whitespace_at_both_ends() {
    assert_eq!(trim_string("  \t hello world \n\u{3000}"), "hello world");
    assert_eq!(trim_string("\u{a0}\u{2003}x"), "x");
    assert_eq!(trim_string("   "), "");
    assert_eq!(trim_string(""), "");
    assert!(is_blank(" \r\n\t"));
    assert!(!is_blank(" a "));
}

#[test]
fn collapse_spaces_keeps_single_spaces_between_words() {
    assert_eq!(collapse_spaces("  Mon    beau\tprojet \n"), "Mon beau projet");
    assert_eq!(collapse_spaces(""), "");
    assert_eq!(collapse_spaces("   "), "");
}

#[test]
fn contains_finds_blocks() {
    assert!(contains_str("backend-api", "end-a"));
    assert!(contains_str("abc", ""));
    assert!(!contains_str("abc", "abcd"));
    assert!(!contains_str("abc", "ac"));
    assert!(str_eq("été", "été"));
    assert!(!str_eq("a", "b"));
}

#[test]
fn parse_tags_splits_on_commas_semicolons_and_newlines() {
    assert_eq!(parse_tags("backend, qa;urgent\n  ops  ,, ;"), strings(&["backend", "qa", "urgent", "ops"]));
    assert_eq!(parse_tags(""), Vec::<String>::new());
    assert_eq!(parse_tags(" , ; \n"), Vec::<String>::new());
}

#[test]
fn tags_text_joins_with_comma_space() {
    assert_eq!(tags_to_text(&strings(&["a", "b c", "d"])), "a, b c, d");
    assert_eq!(tags_to_text(&Vec::new()), "");
}

#[test]
fn tags_from_list_splits_entries_holding_separators() {
    assert_eq!(tags_from_list(&strings(&[" a ", "b;c", ""])), strings(&["a", "b", "c"]));
}

#[test]
fn tags_round_trip_through_text() {
    let tags = parse_tags(" x ; y,z ");
    assert_eq!(parse_tags(&tags_to_text(&tags)), tags);
}

#[test]
fn parse_links_reads_one_link_per_line() {
    assert_eq!(
        parse_links_text("https://a.example\r\n\n   https://b.example  \n"),
        strings(&["https://a.example", "https://b.example"])
    );
    assert_eq!(links_to_text(&strings(&["u", "v"])), "u\nv");
    let links = parse_links_text(" p \n q ");
    assert_eq!(parse_links_text(&links_to_text(&links)), links);
}

#[test]
fn project_names_and_codes() {
    assert_eq!(normalize_project_name("  Mon   Projet  2 "), "Mon Projet 2");
    assert_eq!(project_name_to_code("  Mon   Projet  2 "), "monprojet2");
    assert_eq!(project_name_to_code("ÉTÉ Été"), "tt");
    assert_eq!(project_name_to_code("ABC-def"), "abcdef");
    assert!(is_valid_project_name("x"));
    assert!(!is_valid_project_name("!! éé"));
}

#[test]
fn status_from_text() {
    assert_eq!(TaskStatus::from_str(" done "), TaskStatus::Done);
    assert_eq!(TaskStatus::from_str("Idea"), TaskStatus::Idea);
    assert_eq!(TaskStatus::from_str("BLOCKED"), TaskStatus::Blocked);
    assert_eq!(TaskStatus::from_str("TODO"), TaskStatus::Todo);
    assert_eq!(TaskStatus::from_str("whatever"), TaskStatus::Todo);
    assert_eq!(TaskStatus::from_upper_label("done"), TaskStatus::Todo);
    assert_eq!(normalize_status_value("blocked\n"), TaskStatus::Blocked);
}

#[test]
fn status_labels() {
    assert_eq!(TaskStatus::Todo.as_label(), "TODO");
    assert_eq!(TaskStatus::Done.as_label(), "DONE");
    assert_eq!(TaskStatus::Idea.as_label(), "IDEA");
    assert_eq!(TaskStatus::Blocked.as_label(), "BLOCKED");
    assert_eq!(
        todo_tree::model::default_status_options(),
        vec![TaskStatus::Todo, TaskStatus::Done, TaskStatus::Idea, TaskStatus::Blocked]
    );
    assert_eq!(todo_tree::model::default_status(), TaskStatus::Todo);
}
