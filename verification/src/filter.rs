//! Searching the tree by text and by tags.
use vstd::prelude::*;

use crate::fields::{parse_tags, tags_of_text, tags_text, tags_to_text};
use crate::model::{forest_model, lemma_forest_model, node_model, status_label, NodeModel, TodoNode};
use crate::text::{
    contains_seq, contains_str, join, join_strings, spec_to_lowercase, strs, to_lowercase, trim,
    trim_string,
};
use crate::tree::{clone_forest, clone_strings};

verus! {

/// Whether some text of `hs` contains `needle`.
pub open spec fn some_contains(hs: Seq<Seq<char>>, needle: Seq<char>) -> bool {
    exists|k: int| 0 <= k < hs.len() && contains_seq(#[trigger] hs[k], needle)
}

/// Whether every needle is contained in some text of `hs`.
pub open spec fn every_found(hs: Seq<Seq<char>>, needles: Seq<Seq<char>>) -> bool {
    forall|j: int| 0 <= j < needles.len() ==> some_contains(hs, #[trigger] needles[j])
}

/// Each text in lower case.
pub open spec fn lowered(s: Seq<Seq<char>>) -> Seq<Seq<char>> {
    s.map_values(|t: Seq<char>| spec_to_lowercase(t))
}

/// The texts of a task that a search looks into, in lower case: the label,
/// the status label, the tags, the description and the links.
pub open spec fn haystacks(m: NodeModel) -> Seq<Seq<char>> {
    lowered(
        seq![m.label, status_label(m.status), tags_text(m.tags), m.description, join(m.links, " "@)],
    )
}

/// Whether a task matches a search term (already in lower case): an empty
/// term matches everything; otherwise one of its texts must contain it.
pub open spec fn matches_text(m: NodeModel, term: Seq<char>) -> bool {
    term.len() == 0 || some_contains(haystacks(m), term)
}

/// Whether a task matches a tag filter: every tag written in the filter, in
/// lower case, must be contained in some tag of the task in lower case; a
/// filter without tags matches everything.
pub open spec fn matches_tags(m: NodeModel, tag_filter: Seq<char>) -> bool {
    every_found(lowered(m.tags), lowered(tags_of_text(tag_filter)))
}

/// What remains of a task under a filter: nothing, or the task alone, whose
/// sub-tasks are those that remain of its own.  A task remains when it
/// matches both filters or when some of its sub-tasks remain; in the latter
/// case it is shown expanded.  A task that remains collapsed keeps no
/// sub-tasks.
pub open spec fn filter_one(m: NodeModel, term: Seq<char>, tag_filter: Seq<char>) -> Seq<NodeModel>
    decreases m,
{
    let fc = filter_forest(m.children, term, tag_filter);
    let self_matches = matches_text(m, term) && matches_tags(m, tag_filter);
    let has_children = fc.len() > 0;
    if self_matches || has_children {
        let expanded = if has_children {
            true
        } else {
            m.expanded
        };
        seq![
            NodeModel {
                expanded: expanded,
                children: if expanded {
                    fc
                } else {
                    Seq::empty()
                },
                ..m
            },
        ]
    } else {
        Seq::empty()
    }
}

/// What remains of each task of a forest under a filter, in order.
pub open spec fn filter_forest(s: Seq<NodeModel>, term: Seq<char>, tag_filter: Seq<char>) -> Seq<
    NodeModel,
>
    decreases s,
{
    if s.len() == 0 {
        Seq::empty()
    } else {
        filter_forest(s.drop_last(), term, tag_filter) + filter_one(
            s[s.len() - 1],
            term,
            tag_filter,
        )
    }
}

/// The search term that a text filter gives: nothing when the trimmed text
/// is empty, the trimmed text in lower case otherwise.
pub open spec fn search_term(text_filter: Seq<char>) -> Seq<char> {
    if trim(text_filter).len() == 0 {
        Seq::empty()
    } else {
        spec_to_lowercase(trim(text_filter))
    }
}

/// What `filter_nodes` shows: the forest unchanged when both filters are
/// blank, the filtered forest otherwise.
pub open spec fn filtered(s: Seq<NodeModel>, text_filter: Seq<char>, tag_filter: Seq<char>) -> Seq<
    NodeModel,
> {
    let tags = trim(tag_filter);
    if trim(text_filter).len() == 0 && tags.len() == 0 {
        s
    } else {
        filter_forest(s, search_term(text_filter), tags)
    }
}

/// Blank filters show the tree as it is.
pub proof fn lemma_blank_filters_keep_tree(
    s: Seq<NodeModel>,
    text_filter: Seq<char>,
    tag_filter: Seq<char>,
)
    requires
        trim(text_filter).len() == 0,
        trim(tag_filter).len() == 0,
    ensures
        filtered(s, text_filter, tag_filter) == s,
{
}

/// A blank text filter lets every task through, so that only the tags
/// decide.
pub proof fn lemma_blank_text_matches_all(m: NodeModel, text_filter: Seq<char>)
    requires
        trim(text_filter).len() == 0,
    ensures
        matches_text(m, search_term(text_filter)),
{
}

/// A search term matches a task exactly when it is empty or one of the
/// task's texts, in lower case, contains it: the label, the status label,
/// the tags written as text, the description, or the links joined by
/// spaces.
pub proof fn lemma_search_reads_every_text(m: NodeModel, term: Seq<char>)
    ensures
        matches_text(m, term) <==> {
            ||| term.len() == 0
            ||| contains_seq(spec_to_lowercase(m.label), term)
            ||| contains_seq(spec_to_lowercase(status_label(m.status)), term)
            ||| contains_seq(spec_to_lowercase(tags_text(m.tags)), term)
            ||| contains_seq(spec_to_lowercase(m.description), term)
            ||| contains_seq(spec_to_lowercase(join(m.links, " "@)), term)
        },
{
    let h = haystacks(m);
    assert(h.len() == 5);
    assert(h[0] == spec_to_lowercase(m.label));
    assert(h[1] == spec_to_lowercase(status_label(m.status)));
    assert(h[2] == spec_to_lowercase(tags_text(m.tags)));
    assert(h[3] == spec_to_lowercase(m.description));
    assert(h[4] == spec_to_lowercase(join(m.links, " "@)));
}

/// Whether a task matches the search and the tag filter does not depend on
/// its id, on whether it is expanded or shows its details, nor on its
/// sub-tasks.
pub proof fn lemma_search_ignores_view_state(
    m: NodeModel,
    id: Seq<char>,
    expanded: bool,
    show_details: bool,
    children: Seq<NodeModel>,
    term: Seq<char>,
    tag_filter: Seq<char>,
)
    ensures
        ({
            let v = NodeModel {
                id: id,
                expanded: expanded,
                show_details: show_details,
                children: children,
                ..m
            };
            &&& matches_text(v, term) == matches_text(m, term)
            &&& matches_tags(v, tag_filter) == matches_tags(m, tag_filter)
        }),
{
    let v = NodeModel {
        id: id,
        expanded: expanded,
        show_details: show_details,
        children: children,
        ..m
    };
    lemma_search_reads_every_text(m, term);
    lemma_search_reads_every_text(v, term);
}

/// Whether some text of `haystacks` contains `needle`.
pub fn any_contains(haystacks: &Vec<String>, needle: &str) -> (r: bool)
    ensures
        r == some_contains(strs(haystacks@), needle@),
{
    let ghost hs = strs(haystacks@);
    let mut i: usize = 0;
    while i < haystacks.len()
        invariant
            i <= haystacks@.len(),
            hs == strs(haystacks@),
            forall|k: int| 0 <= k < i ==> !contains_seq(#[trigger] hs[k], needle@),
        decreases haystacks.len() - i,
    {
        if contains_str(haystacks[i].as_str(), needle) {
            assert(contains_seq(hs[i as int], needle@));
            return true;
        }
        i += 1;
    }
    false
}

/// Whether every needle is contained in some text of `haystacks`.
pub fn all_found(haystacks: &Vec<String>, needles: &Vec<String>) -> (r: bool)
    ensures
        r == every_found(strs(haystacks@), strs(needles@)),
{
    let ghost ns = strs(needles@);
    let mut j: usize = 0;
    while j < needles.len()
        invariant
            j <= needles@.len(),
            ns == strs(needles@),
            forall|k: int| 0 <= k < j ==> some_contains(strs(haystacks@), #[trigger] ns[k]),
        decreases needles.len() - j,
    {
        if !any_contains(haystacks, needles[j].as_str()) {
            assert(!some_contains(strs(haystacks@), ns[j as int]));
            return false;
        }
        j += 1;
    }
    true
}

/// Each text of `v` in lower case.
pub fn lowercase_all(v: &Vec<String>) -> (r: Vec<String>)
    ensures
        strs(r@) == lowered(strs(v@)),
{
    let mut r: Vec<String> = Vec::new();
    let mut k: usize = 0;
    while k < v.len()
        invariant
            k <= v@.len(),
            r@.len() == k,
            forall|i: int| 0 <= i < k ==> #[trigger] r@[i]@ == spec_to_lowercase(v@[i]@),
        decreases v.len() - k,
    {
        r.push(to_lowercase(v[k].as_str()));
        k += 1;
    }
    assert(strs(r@) =~= lowered(strs(v@)));
    r
}

/// Whether a task matches a search term already in lower case (see
/// `matches_text`).
pub fn node_matches_text(node: &TodoNode, term: &str) -> (r: bool)
    ensures
        r == matches_text(node@, term@),
{
    if term.unicode_len() == 0 {
        return true;
    }
    let mut texts: Vec<String> = Vec::new();
    texts.push(to_lowercase(node.label.as_str()));
    texts.push(to_lowercase(node.status.as_label()));
    texts.push(to_lowercase(tags_to_text(&node.tags).as_str()));
    texts.push(to_lowercase(node.description.as_str()));
    texts.push(to_lowercase(join_strings(&node.links, " ").as_str()));
    assert(strs(texts@) =~= haystacks(node@));
    any_contains(&texts, term)
}

/// Whether a task matches a tag filter (see `matches_tags`).
pub fn node_matches_tag(node: &TodoNode, tag_filter: &str) -> (r: bool)
    ensures
        r == matches_tags(node@, tag_filter@),
{
    let filters = parse_tags(tag_filter);
    if filters.len() == 0 {
        return true;
    }
    let node_tags = lowercase_all(&node.tags);
    let needles = lowercase_all(&filters);
    all_found(&node_tags, &needles)
}

/// The forest filtered by a search term already in lower case and a tag
/// filter (see `filter_forest`).
pub fn filter_walk(nodes: &Vec<TodoNode>, term: &str, tag_filter: &str) -> (r: Vec<TodoNode>)
    ensures
        forest_model(r@) == filter_forest(forest_model(nodes@), term@, tag_filter@),
    decreases nodes,
{
    let ghost s = forest_model(nodes@);
    proof {
        lemma_forest_model(nodes@);
        assert(s.take(0) =~= Seq::<NodeModel>::empty());
    }
    let mut out: Vec<TodoNode> = Vec::new();
    let mut i: usize = 0;
    while i < nodes.len()
        invariant
            i <= nodes@.len(),
            s == forest_model(nodes@),
            s.len() == nodes@.len(),
            forall|k: int| 0 <= k < nodes@.len() ==> #[trigger] s[k] == node_model(nodes@[k]),
            forest_model(out@) == filter_forest(s.take(i as int), term@, tag_filter@),
        decreases nodes.len() - i,
    {
        let node = &nodes[i];
        proof {
            assert(s.take(i + 1).drop_last() == s.take(i as int));
            assert(s.take(i + 1)[i as int] == s[i as int]);
            assert(decreases_to!(nodes => nodes@[i as int]));
            assert(decreases_to!(nodes@[i as int] => nodes@[i as int].children));
        }
        let filtered_children = filter_walk(&node.children, term, tag_filter);
        let self_matches = node_matches_text(node, term) && node_matches_tag(node, tag_filter);
        let has_matching_children = filtered_children.len() > 0;
        proof {
            lemma_forest_model(filtered_children@);
        }
        let ghost before = out@;
        if self_matches || has_matching_children {
            let expanded = if has_matching_children {
                true
            } else {
                node.expanded
            };
            let children = if expanded {
                filtered_children
            } else {
                Vec::new()
            };
            let kept = TodoNode {
                id: node.id.clone(),
                label: node.label.clone(),
                checked: node.checked,
                expanded,
                show_details: node.show_details,
                status: node.status,
                tags: clone_strings(&node.tags),
                description: node.description.clone(),
                links: clone_strings(&node.links),
                children,
            };
            proof {
                lemma_forest_model(kept.children@);
                assert(forest_model(kept.children@) =~= (if expanded {
                    filter_forest(node@.children, term@, tag_filter@)
                } else {
                    Seq::empty()
                }));
                assert(seq![node_model(kept)] =~= filter_one(s[i as int], term@, tag_filter@));
            }
            out.push(kept);
            proof {
                lemma_forest_model(before);
                lemma_forest_model(out@);
                assert(forest_model(out@) =~= forest_model(before) + filter_one(
                    s[i as int],
                    term@,
                    tag_filter@,
                ));
            }
        } else {
            assert(filter_one(s[i as int], term@, tag_filter@) =~= Seq::<NodeModel>::empty());
            assert(forest_model(out@) =~= forest_model(before) + filter_one(
                s[i as int],
                term@,
                tag_filter@,
            ));
        }
        i += 1;
    }
    assert(s.take(s.len() as int) == s);
    out
}

/// The tree as the search shows it (see `filtered`).
pub fn filter_nodes(nodes: &Vec<TodoNode>, text_filter: &str, tag_filter: &str) -> (r: Vec<
    TodoNode,
>)
    ensures
        forest_model(r@) == filtered(forest_model(nodes@), text_filter@, tag_filter@),
{
    let trimmed = trim_string(text_filter);
    let tags = trim_string(tag_filter);
    let blank_text = trimmed.as_str().unicode_len() == 0;
    if blank_text && tags.as_str().unicode_len() == 0 {
        return clone_forest(nodes);
    }
    let term = if blank_text {
        String::new()
    } else {
        to_lowercase(trimmed.as_str())
    };
    filter_walk(nodes, term.as_str(), tags.as_str())
}

} // verus!
