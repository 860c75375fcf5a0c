//! Markdown export of a project's task tree.
use vstd::prelude::*;

use crate::model::{forest_model, lemma_forest_model, node_model, status_label, NodeModel, TodoNode};
use crate::text::{append_str, contains_seq, is_blank, join, push_char, strs, trim};

verus! {

pub open spec fn checkbox(checked: bool) -> Seq<char> {
    if checked {
        "[X]"@
    } else {
        "[ ]"@
    }
}

/// The title of a task: its label, or `Sans titre` when the label is empty.
pub open spec fn title_of(m: NodeModel) -> Seq<char> {
    if m.label.len() == 0 {
        "Sans titre"@
    } else {
        m.label
    }
}

/// The tags as `#tag`, separated by spaces.
pub open spec fn hash_tags(tags: Seq<Seq<char>>) -> Seq<char>
    decreases tags.len(),
{
    if tags.len() == 0 {
        Seq::empty()
    } else if tags.len() == 1 {
        "#"@ + tags[0]
    } else {
        hash_tags(tags.drop_last()) + " "@ + "#"@ + tags.last()
    }
}

/// `(STATUS)`, followed by the tags as `#tag` when there are any.
pub open spec fn meta_of(m: NodeModel) -> Seq<char> {
    if m.tags.len() == 0 {
        "("@ + status_label(m.status) + ")"@
    } else {
        "("@ + status_label(m.status) + ")"@ + " "@ + hash_tags(m.tags)
    }
}

/// A description on one line: every line feed replaced by a space.
pub open spec fn one_line(d: Seq<char>) -> Seq<char> {
    d.map_values(|c: char| if c == '\n' { ' ' } else { c })
}

/// One line `\n<indent>  - lien: <link>` per link.
pub open spec fn child_links(links: Seq<Seq<char>>, ind: Seq<char>) -> Seq<char>
    decreases links.len(),
{
    if links.len() == 0 {
        Seq::empty()
    } else {
        child_links(links.drop_last(), ind) + "\n"@ + ind + "  - lien: "@ + links.last()
    }
}

/// A task below a root as a list item indented by `ind`, with its
/// description, its links and, indented two spaces more, its sub-tasks.
pub open spec fn child_block(m: NodeModel, ind: Seq<char>) -> Seq<char>
    decreases m,
{
    let line = ind + "- "@ + checkbox(m.checked) + " "@ + title_of(m) + " "@ + meta_of(m);
    let description = if trim(m.description).len() == 0 {
        Seq::empty()
    } else {
        "\n"@ + ind + "  > "@ + one_line(m.description)
    };
    let kids = if m.children.len() == 0 {
        Seq::empty()
    } else {
        "\n"@ + children_block(m.children, ind + "  "@)
    };
    line + description + child_links(m.links, ind) + kids
}

/// The blocks of the tasks of `s`, separated by line feeds.
pub open spec fn children_block(s: Seq<NodeModel>, ind: Seq<char>) -> Seq<char>
    decreases s,
{
    if s.len() == 0 {
        Seq::empty()
    } else if s.len() == 1 {
        child_block(s[0], ind)
    } else {
        children_block(s.drop_last(), ind) + "\n"@ + child_block(s[s.len() - 1], ind)
    }
}

/// The links of a root task as `- lien: <link>` lines.
pub open spec fn root_links(links: Seq<Seq<char>>) -> Seq<char>
    decreases links.len(),
{
    if links.len() == 0 {
        Seq::empty()
    } else if links.len() == 1 {
        "- lien: "@ + links[0]
    } else {
        root_links(links.drop_last()) + "\n"@ + "- lien: "@ + links.last()
    }
}

/// A root task as a `##` section: title line, description as a quote,
/// links, and its sub-tasks as a list, separated by blank lines.
pub open spec fn section_of(m: NodeModel) -> Seq<char> {
    let title = "## "@ + checkbox(m.checked) + " "@ + title_of(m) + " "@ + meta_of(m);
    let description = if trim(m.description).len() == 0 {
        Seq::empty()
    } else {
        "\n\n> "@ + one_line(m.description)
    };
    let links = if m.links.len() == 0 {
        Seq::empty()
    } else {
        "\n\n"@ + root_links(m.links)
    };
    let kids = if m.children.len() == 0 {
        Seq::empty()
    } else {
        "\n\n"@ + children_block(m.children, Seq::empty())
    };
    title + description + links + kids
}

/// The sections of the root tasks, separated by blank lines.
pub open spec fn sections(s: Seq<NodeModel>) -> Seq<char>
    decreases s.len(),
{
    if s.len() == 0 {
        Seq::empty()
    } else if s.len() == 1 {
        section_of(s[0])
    } else {
        sections(s.drop_last()) + "\n\n"@ + section_of(s.last())
    }
}

/// The whole document: a `# TODO <project>` heading, a blank line, then the
/// sections.
pub open spec fn markdown_spec(project_name: Seq<char>, tree: Seq<NodeModel>) -> Seq<char> {
    "# TODO "@ + project_name + "\n\n"@ + sections(tree)
}

pub fn markdown_checkbox(checked: bool) -> (r: &'static str)
    ensures
        r@ == checkbox(checked),
{
    if checked {
        "[X]"
    } else {
        "[ ]"
    }
}

pub fn markdown_meta(node: &TodoNode) -> (r: String)
    ensures
        r@ == meta_of(node@),
{
    let mut r = String::new();
    append_str(&mut r, "(");
    append_str(&mut r, node.status.as_label());
    append_str(&mut r, ")");
    if node.tags.len() > 0 {
        append_str(&mut r, " ");
        let ghost head = r@;
        let ghost tags = strs(node.tags@);
        let mut i: usize = 0;
        while i < node.tags.len()
            invariant
                i <= node.tags@.len(),
                tags == strs(node.tags@),
                r@ == head + hash_tags(tags.take(i as int)),
            decreases node.tags.len() - i,
        {
            proof {
                assert(tags.take(i + 1).drop_last() == tags.take(i as int));
                assert(tags.take(i + 1).last() == node.tags@[i as int]@);
            }
            if i > 0 {
                append_str(&mut r, " ");
            }
            append_str(&mut r, "#");
            append_str(&mut r, node.tags[i].as_str());
            proof {
                if i == 0 {
                    assert(tags.take(0).len() == 0);
                    assert(tags.take(1)[0] == node.tags@[0]@);
                }
            }
            i += 1;
        }
        assert(tags.take(tags.len() as int) == tags);
    }
    r
}

fn push_title(r: &mut String, node: &TodoNode)
    ensures
        final(r)@ == old(r)@ + title_of(node@),
{
    if node.label.as_str().unicode_len() == 0 {
        append_str(r, "Sans titre");
    } else {
        append_str(r, node.label.as_str());
    }
}

fn push_one_line(r: &mut String, d: &String)
    ensures
        final(r)@ == old(r)@ + one_line(d@),
{
    let v = crate::text::chars_of(d.as_str());
    let ghost head = r@;
    let mut i: usize = 0;
    while i < v.len()
        invariant
            i <= v@.len(),
            v@ == d@,
            r@ == head + one_line(v@).take(i as int),
        decreases v.len() - i,
    {
        let c = if v[i] == '\n' {
            ' '
        } else {
            v[i]
        };
        push_char(r, c);
        assert(one_line(v@).take(i + 1) == one_line(v@).take(i as int).push(c));
        i += 1;
    }
    assert(one_line(v@).take(v@.len() as int) == one_line(v@));
}

fn push_child_line(r: &mut String, node: &TodoNode, ind: &String)
    ensures
        final(r)@ == old(r)@ + (ind@ + "- "@ + checkbox(node@.checked) + " "@ + title_of(node@) + " "@
            + meta_of(node@)) + (if trim(node@.description).len() == 0 {
            Seq::empty()
        } else {
            "\n"@ + ind@ + "  > "@ + one_line(node@.description)
        }),
{
    let ghost head = r@;
    let ghost m = node@;
    append_str(r, ind.as_str());
    append_str(r, "- ");
    append_str(r, markdown_checkbox(node.checked));
    append_str(r, " ");
    push_title(r, node);
    append_str(r, " ");
    let meta = markdown_meta(node);
    append_str(r, meta.as_str());
    let ghost line = ind@ + "- "@ + checkbox(m.checked) + " "@ + title_of(m) + " "@ + meta_of(m);
    assert(r@ =~= head + line);
    let ghost mid = r@;
    if !is_blank(node.description.as_str()) {
        append_str(r, "\n");
        append_str(r, ind.as_str());
        append_str(r, "  > ");
        push_one_line(r, &node.description);
        assert(r@ =~= mid + ("\n"@ + ind@ + "  > "@ + one_line(m.description)));
    } else {
        assert(r@ =~= mid + Seq::<char>::empty());
    }
}

fn push_child_links(r: &mut String, links: &Vec<String>, ind: &String)
    ensures
        final(r)@ == old(r)@ + child_links(strs(links@), ind@),
{
    let ghost head = r@;
    let ghost ls = strs(links@);
    let mut i: usize = 0;
    while i < links.len()
        invariant
            i <= links@.len(),
            ls == strs(links@),
            r@ == head + child_links(ls.take(i as int), ind@),
        decreases links.len() - i,
    {
        proof {
            assert(ls.take(i + 1).drop_last() == ls.take(i as int));
            assert(ls.take(i + 1).last() == links@[i as int]@);
        }
        append_str(r, "\n");
        append_str(r, ind.as_str());
        append_str(r, "  - lien: ");
        append_str(r, links[i].as_str());
        proof {
            assert(r@ =~= head + child_links(ls.take(i + 1), ind@));
        }
        i += 1;
    }
    assert(ls.take(ls.len() as int) == ls);
}

fn push_child_block(r: &mut String, node: &TodoNode, ind: &String)
    ensures
        final(r)@ == old(r)@ + child_block(node@, ind@),
    decreases node,
{
    let ghost head = r@;
    let ghost m = node@;
    push_child_line(r, node, ind);
    push_child_links(r, &node.links, ind);
    let ghost mid = r@;
    if node.children.len() > 0 {
        append_str(r, "\n");
        let mut deeper = ind.clone();
        append_str(&mut deeper, "  ");
        proof {
            lemma_forest_model(node.children@);
        }
        push_children_block(r, &node.children, &deeper);
        assert(r@ =~= mid + ("\n"@ + children_block(m.children, ind@ + "  "@)));
    } else {
        proof {
            lemma_forest_model(node.children@);
        }
        assert(r@ =~= mid + Seq::<char>::empty());
    }
    let ghost line = ind@ + "- "@ + checkbox(m.checked) + " "@ + title_of(m) + " "@ + meta_of(m);
    let ghost description = if trim(m.description).len() == 0 {
        Seq::empty()
    } else {
        "\n"@ + ind@ + "  > "@ + one_line(m.description)
    };
    let ghost kids = if m.children.len() == 0 {
        Seq::empty()
    } else {
        "\n"@ + children_block(m.children, ind@ + "  "@)
    };
    assert(child_block(m, ind@) == line + description + child_links(m.links, ind@) + kids);
    assert(r@ =~= head + child_block(m, ind@));
}

fn push_children_block(r: &mut String, nodes: &Vec<TodoNode>, ind: &String)
    ensures
        final(r)@ == old(r)@ + children_block(forest_model(nodes@), ind@),
    decreases nodes,
{
    let ghost head = r@;
    let ghost s = forest_model(nodes@);
    proof {
        lemma_forest_model(nodes@);
    }
    let mut i: usize = 0;
    while i < nodes.len()
        invariant
            i <= nodes@.len(),
            s == forest_model(nodes@),
            s.len() == nodes@.len(),
            forall|k: int| 0 <= k < nodes@.len() ==> #[trigger] s[k] == node_model(nodes@[k]),
            r@ == head + children_block(s.take(i as int), ind@),
        decreases nodes.len() - i,
    {
        proof {
            assert(s.take(i + 1).drop_last() == s.take(i as int));
            assert(s.take(i + 1)[i as int] == s[i as int]);
            if i == 0 {
                assert(s.take(1).len() == 1);
            }
            assert(decreases_to!(nodes => nodes@[i as int]));
        }
        if i > 0 {
            append_str(r, "\n");
        }
        push_child_block(r, &nodes[i], ind);
        i += 1;
    }
    assert(s.take(s.len() as int) == s);
}

fn push_section_head(r: &mut String, node: &TodoNode)
    ensures
        final(r)@ == old(r)@ + ("## "@ + checkbox(node@.checked) + " "@ + title_of(node@) + " "@
            + meta_of(node@)) + (if trim(node@.description).len() == 0 {
            Seq::empty()
        } else {
            "\n\n> "@ + one_line(node@.description)
        }),
{
    let ghost head = r@;
    let ghost m = node@;
    append_str(r, "## ");
    append_str(r, markdown_checkbox(node.checked));
    append_str(r, " ");
    push_title(r, node);
    append_str(r, " ");
    let meta = markdown_meta(node);
    append_str(r, meta.as_str());
    let ghost title = "## "@ + checkbox(m.checked) + " "@ + title_of(m) + " "@ + meta_of(m);
    assert(r@ =~= head + title);
    let ghost mid = r@;
    if !is_blank(node.description.as_str()) {
        append_str(r, "\n\n> ");
        push_one_line(r, &node.description);
        assert(r@ =~= mid + ("\n\n> "@ + one_line(m.description)));
    } else {
        assert(r@ =~= mid + Seq::<char>::empty());
    }
}

fn push_root_links(r: &mut String, links: &Vec<String>)
    ensures
        final(r)@ == old(r)@ + (if links@.len() == 0 {
            Seq::empty()
        } else {
            "\n\n"@ + root_links(strs(links@))
        }),
{
    let ghost start = r@;
    if links.len() == 0 {
        assert(r@ =~= start + Seq::<char>::empty());
        return ;
    }
    append_str(r, "\n\n");
    let ghost head = r@;
    let ghost ls = strs(links@);
    let mut i: usize = 0;
    while i < links.len()
        invariant
            i <= links@.len(),
            ls == strs(links@),
            r@ == head + root_links(ls.take(i as int)),
        decreases links.len() - i,
    {
        proof {
            assert(ls.take(i + 1).drop_last() == ls.take(i as int));
            assert(ls.take(i + 1).last() == links@[i as int]@);
            if i == 0 {
                assert(ls.take(1)[0] == links@[0]@);
            }
        }
        if i > 0 {
            append_str(r, "\n");
        }
        append_str(r, "- lien: ");
        append_str(r, links[i].as_str());
        proof {
            assert(r@ =~= head + root_links(ls.take(i + 1)));
        }
        i += 1;
    }
    assert(ls.take(ls.len() as int) == ls);
    assert(r@ =~= start + ("\n\n"@ + root_links(ls)));
}

fn push_section(r: &mut String, node: &TodoNode)
    ensures
        final(r)@ == old(r)@ + section_of(node@),
{
    let ghost head = r@;
    let ghost m = node@;
    push_section_head(r, node);
    push_root_links(r, &node.links);
    let ghost mid = r@;
    proof {
        lemma_forest_model(node.children@);
    }
    if node.children.len() > 0 {
        append_str(r, "\n\n");
        let top = String::new();
        push_children_block(r, &node.children, &top);
        assert(r@ =~= mid + ("\n\n"@ + children_block(m.children, Seq::empty())));
    } else {
        assert(r@ =~= mid + Seq::<char>::empty());
    }
    assert(r@ =~= head + section_of(m));
}

/// The tree of a project as a Markdown document (see `markdown_spec`).
pub fn export_tree_to_markdown(project_name: &str, tree: &Vec<TodoNode>) -> (r: String)
    ensures
        r@ == markdown_spec(project_name@, forest_model(tree@)),
{
    let mut r = String::new();
    append_str(&mut r, "# TODO ");
    append_str(&mut r, project_name);
    append_str(&mut r, "\n\n");
    let ghost head = r@;
    let ghost s = forest_model(tree@);
    proof {
        lemma_forest_model(tree@);
    }
    let mut i: usize = 0;
    while i < tree.len()
        invariant
            i <= tree@.len(),
            s == forest_model(tree@),
            s.len() == tree@.len(),
            forall|k: int| 0 <= k < tree@.len() ==> #[trigger] s[k] == node_model(tree@[k]),
            r@ == head + sections(s.take(i as int)),
        decreases tree.len() - i,
    {
        proof {
            assert(s.take(i + 1).drop_last() == s.take(i as int));
            assert(s.take(i + 1).last() == s[i as int]);
            if i == 0 {
                assert(s.take(1)[0] == s[0]);
            }
        }
        if i > 0 {
            append_str(&mut r, "\n\n");
        }
        push_section(&mut r, &tree[i]);
        i += 1;
    }
    assert(s.take(s.len() as int) == s);
    r
}

// ---------------------------------------------------------------------------
// Laws
// ---------------------------------------------------------------------------

/// The line that shows one link of a sub-task indented by `ind`.
pub open spec fn child_link_line(ind: Seq<char>, link: Seq<char>) -> Seq<char> {
    "\n"@ + ind + "  - lien: "@ + link
}

/// The links of a sub-task are shown one line per link, in order, none
/// left out: the block is the link lines one after the other.
pub proof fn lemma_child_links_one_line_per_link(links: Seq<Seq<char>>, ind: Seq<char>)
    ensures
        child_links(links, ind) == Seq::new(
            links.len(),
            |i: int| child_link_line(ind, links[i]),
        ).flatten(),
        forall|i: int|
            0 <= i < links.len() ==> contains_seq(
                child_links(links, ind),
                #[trigger] child_link_line(ind, links[i]),
            ),
    decreases links.len(),
{
    let lines = Seq::new(links.len(), |i: int| child_link_line(ind, links[i]));
    lines.lemma_flatten_and_flatten_alt_are_equivalent();
    if links.len() > 0 {
        lemma_child_links_one_line_per_link(links.drop_last(), ind);
        let prev = Seq::new((links.len() - 1) as nat, |i: int| child_link_line(ind, links.drop_last()[i]));
        assert(lines.drop_last() =~= prev);
        prev.lemma_flatten_and_flatten_alt_are_equivalent();
        let head = child_links(links.drop_last(), ind);
        let last = child_link_line(ind, links.last());
        assert(child_links(links, ind) =~= head + last);
        assert forall|i: int| 0 <= i < links.len() implies contains_seq(
            child_links(links, ind),
            #[trigger] child_link_line(ind, links[i]),
        ) by {
            let whole = child_links(links, ind);
            if i == links.len() - 1 {
                assert(whole.subrange(head.len() as int, (head.len() + last.len()) as int) =~= last);
            } else {
                assert(links.drop_last()[i] == links[i]);
                let needle = child_link_line(ind, links[i]);
                let k = choose|k: int|
                    0 <= k && k + needle.len() <= head.len() && #[trigger] head.subrange(
                        k,
                        k + needle.len(),
                    ) == needle;
                assert(whole.subrange(k, k + needle.len()) =~= head.subrange(k, k + needle.len()));
            }
        }
    } else {
        assert(lines =~= Seq::<Seq<char>>::empty());
    }
}

/// The links of a root task are shown as `- lien: <link>` lines, one per
/// link, in order, separated by line feeds.
pub proof fn lemma_root_links_one_line_per_link(links: Seq<Seq<char>>)
    ensures
        root_links(links) == join(links.map_values(|l: Seq<char>| "- lien: "@ + l), "\n"@),
    decreases links.len(),
{
    let shown = links.map_values(|l: Seq<char>| "- lien: "@ + l);
    if links.len() > 1 {
        lemma_root_links_one_line_per_link(links.drop_last());
        assert(shown.drop_last() =~= links.drop_last().map_values(|l: Seq<char>| "- lien: "@ + l));
    }
}

/// The tags are shown as `#tag`, one per tag, in order, separated by
/// spaces.
pub proof fn lemma_hash_tags_one_per_tag(tags: Seq<Seq<char>>)
    ensures
        hash_tags(tags) == join(tags.map_values(|t: Seq<char>| "#"@ + t), " "@),
    decreases tags.len(),
{
    let shown = tags.map_values(|t: Seq<char>| "#"@ + t);
    if tags.len() > 1 {
        lemma_hash_tags_one_per_tag(tags.drop_last());
        assert(shown.drop_last() =~= tags.drop_last().map_values(|t: Seq<char>| "#"@ + t));
        assert(hash_tags(tags) =~= join(shown, " "@));
    }
}

/// What of a task the export reads: the task with its id emptied and its
/// `expanded` and `show_details` flags cleared, and so for every sub-task.
pub open spec fn printed(m: NodeModel) -> NodeModel
    decreases m,
{
    NodeModel {
        id: Seq::empty(),
        expanded: false,
        show_details: false,
        children: printed_forest(m.children),
        ..m
    }
}

/// `printed` applied to each task of a forest.
pub open spec fn printed_forest(s: Seq<NodeModel>) -> Seq<NodeModel>
    decreases s,
{
    if s.len() == 0 {
        Seq::empty()
    } else {
        printed_forest(s.drop_last()).push(printed(s[s.len() - 1]))
    }
}

proof fn lemma_printed_forest(s: Seq<NodeModel>)
    ensures
        printed_forest(s).len() == s.len(),
        forall|i: int| 0 <= i < s.len() ==> #[trigger] printed_forest(s)[i] == printed(s[i]),
    decreases s.len(),
{
    if s.len() > 0 {
        lemma_printed_forest(s.drop_last());
    }
}

proof fn lemma_child_block_printed(m: NodeModel, ind: Seq<char>)
    ensures
        child_block(printed(m), ind) == child_block(m, ind),
    decreases m,
{
    lemma_printed_forest(m.children);
    lemma_children_block_printed(m.children, ind + "  "@);
}

proof fn lemma_children_block_printed(s: Seq<NodeModel>, ind: Seq<char>)
    ensures
        children_block(printed_forest(s), ind) == children_block(s, ind),
    decreases s,
{
    lemma_printed_forest(s);
    let p = printed_forest(s);
    if s.len() == 1 {
        lemma_child_block_printed(s[0], ind);
    } else if s.len() > 1 {
        lemma_children_block_printed(s.drop_last(), ind);
        lemma_child_block_printed(s[s.len() - 1], ind);
        assert(p.drop_last() =~= printed_forest(s.drop_last()));
    }
}

proof fn lemma_section_printed(m: NodeModel)
    ensures
        section_of(printed(m)) == section_of(m),
{
    lemma_printed_forest(m.children);
    lemma_children_block_printed(m.children, Seq::empty());
}

proof fn lemma_sections_printed(s: Seq<NodeModel>)
    ensures
        sections(printed_forest(s)) == sections(s),
    decreases s.len(),
{
    lemma_printed_forest(s);
    let p = printed_forest(s);
    if s.len() == 1 {
        lemma_section_printed(s[0]);
    } else if s.len() > 1 {
        lemma_sections_printed(s.drop_last());
        lemma_section_printed(s.last());
        assert(p.drop_last() =~= printed_forest(s.drop_last()));
        assert(p.last() == printed(s.last()));
    }
}

/// The Markdown export never shows ids, nor whether tasks are expanded or
/// show their details: two trees that differ only there (collapsed
/// sub-tasks and hidden details included) give the same document.
pub proof fn lemma_markdown_ignores_ids_and_view_flags(
    project_name: Seq<char>,
    t1: Seq<NodeModel>,
    t2: Seq<NodeModel>,
)
    requires
        printed_forest(t1) == printed_forest(t2),
    ensures
        markdown_spec(project_name, t1) == markdown_spec(project_name, t2),
{
    lemma_sections_printed(t1);
    lemma_sections_printed(t2);
}

} // verus!
