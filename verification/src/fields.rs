//! The text fields of tasks and projects: tag lists, link lists, project
//! names and the codes derived from them.
use vstd::prelude::*;

use crate::text::{
    ascii_alnum_only, collapse_spaces, collapse_spaces_spec, has_ascii_alphanumeric,
    is_ascii_alnum, is_sep, join, join_strings, keep_ascii_alphanumeric,
    lemma_collapse_spaces_idempotent, lemma_split_concat, lemma_split_join,
    lemma_split_one_piece, lemma_split_trimmed_items, lemma_trim_after_space, lemma_trim_fixed,
    lemma_trimmed_nonempty_fixed, lemma_trimmed_nonempty_single, pieces, spec_to_lowercase, split_trimmed, split_trimmed_spec,
    strs, to_lowercase, trim, trimmed_nonempty, Separators,
};

verus! {

/// The tags written in a text: the pieces between `,`, `;` and line feeds,
/// trimmed, the empty ones left out.
pub open spec fn tags_of_text(s: Seq<char>) -> Seq<Seq<char>> {
    split_trimmed_spec(Separators::TagList, s)
}

/// Tags written as one text, separated by `", "`.
pub open spec fn tags_text(tags: Seq<Seq<char>>) -> Seq<char> {
    join(tags, ", "@)
}

/// The links written in a text, one per line: each line trimmed, the empty
/// ones left out.  (`str::lines` also drops a carriage return before each
/// line feed; trimming removes it anyway.)
pub open spec fn links_of_text(s: Seq<char>) -> Seq<Seq<char>> {
    split_trimmed_spec(Separators::Lines, s)
}

/// Links written as one text, one per line.
pub open spec fn links_text(links: Seq<Seq<char>>) -> Seq<char> {
    join(links, "\n"@)
}

/// A project name with its words separated by single spaces.
pub open spec fn project_name_spec(name: Seq<char>) -> Seq<char> {
    collapse_spaces_spec(name)
}

/// The code of a project: its normalized name in lower case, with all but
/// ASCII letters and digits left out.
pub open spec fn project_code_spec(name: Seq<char>) -> Seq<char> {
    ascii_alnum_only(spec_to_lowercase(project_name_spec(name)))
}

/// A name is usable when it holds at least one ASCII letter or digit.
pub open spec fn valid_project_name_spec(name: Seq<char>) -> bool {
    exists|i: int| 0 <= i < name.len() && is_ascii_alnum(#[trigger] name[i])
}

pub fn parse_tags(tags: &str) -> (r: Vec<String>)
    ensures
        strs(r@) == tags_of_text(tags@),
{
    split_trimmed(tags, Separators::TagList)
}

pub fn tags_to_text(tags: &Vec<String>) -> (r: String)
    ensures
        r@ == tags_text(strs(tags@)),
{
    join_strings(tags, ", ")
}

/// The tags of a list read back from storage: the list written as text and
/// read again, so that an entry holding separators gives several tags.
pub fn tags_from_list(list: &Vec<String>) -> (r: Vec<String>)
    ensures
        strs(r@) == tags_of_text(tags_text(strs(list@))),
{
    let text = tags_to_text(list);
    parse_tags(text.as_str())
}

pub fn parse_links_text(raw: &str) -> (r: Vec<String>)
    ensures
        strs(r@) == links_of_text(raw@),
{
    split_trimmed(raw, Separators::Lines)
}

pub fn links_to_text(links: &Vec<String>) -> (r: String)
    ensures
        r@ == links_text(strs(links@)),
{
    join_strings(links, "\n")
}

pub fn normalize_project_name(name: &str) -> (r: String)
    ensures
        r@ == project_name_spec(name@),
{
    collapse_spaces(name)
}

pub fn project_name_to_code(name: &str) -> (r: String)
    ensures
        r@ == project_code_spec(name@),
{
    let normalized = normalize_project_name(name);
    let lower = to_lowercase(normalized.as_str());
    keep_ascii_alphanumeric(lower.as_str())
}

pub fn is_valid_project_name(name: &str) -> (r: bool)
    ensures
        r == valid_project_name_spec(name@),
{
    has_ascii_alphanumeric(name)
}

// ---------------------------------------------------------------------------
// Laws
// ---------------------------------------------------------------------------

/// Tags as they come out of a text: not empty, trimmed, without `,`, `;`
/// or line feed.
pub open spec fn clean_items(kind: Separators, ps: Seq<Seq<char>>) -> bool {
    forall|i: int|
        0 <= i < ps.len() ==> {
            &&& (#[trigger] ps[i]).len() > 0
            &&& trim(ps[i]) == ps[i]
            &&& forall|j: int| 0 <= j < ps[i].len() ==> !is_sep(kind, #[trigger] ps[i][j])
        }
}

proof fn lemma_tags_text_pieces(ps: Seq<Seq<char>>)
    requires
        ps.len() >= 1,
        clean_items(Separators::TagList, ps),
    ensures
        trimmed_nonempty(pieces(Separators::TagList, join(ps, ", "@))) == ps,
    decreases ps.len(),
{
    let k = Separators::TagList;
    reveal_strlit(", ");
    if ps.len() == 1 {
        let p = ps[0];
        lemma_split_one_piece(k, p);
        assert(join(ps, ", "@) == p);
        lemma_trimmed_nonempty_single(p);
        assert(trim(p) == p);
        assert(ps =~= seq![p]);
    } else {
        let init = ps.drop_last();
        let last = ps.last();
        assert(clean_items(k, init)) by {
            assert forall|i: int| 0 <= i < init.len() implies init[i] == ps[i] by {}
        }
        lemma_tags_text_pieces(init);
        assert(last == ps[ps.len() - 1]);
        let q = seq![' '] + last;
        assert forall|j: int| 0 <= j < q.len() implies !is_sep(k, #[trigger] q[j]) by {
            if j > 0 {
                assert(q[j] == last[j - 1]);
            }
        }
        lemma_split_one_piece(k, q);
        assert(", "@ =~= seq![','] + seq![' ']);
        let ji = join(init, ", "@);
        assert(join(ps, ", "@) =~= ji + seq![','] + q);
        lemma_split_concat(k, ji, ',', q);
        let all = pieces(k, ji) + seq![q];
        assert(all.drop_last() =~= pieces(k, ji));
        assert(all.last() == q);
        lemma_trim_after_space(last);
        assert(init.push(last) =~= ps);
    }
}

/// Writing clean tags as text and reading them back gives the same tags.
pub proof fn lemma_tags_roundtrip(ps: Seq<Seq<char>>)
    requires
        clean_items(Separators::TagList, ps),
    ensures
        tags_of_text(tags_text(ps)) == ps,
{
    if ps.len() == 0 {
        assert(join(ps, ", "@) =~= Seq::<char>::empty());
        lemma_split_one_piece(Separators::TagList, Seq::<char>::empty());
        lemma_trimmed_nonempty_single(Seq::<char>::empty());
        assert(trim(Seq::<char>::empty()) =~= Seq::<char>::empty());
        assert(ps =~= Seq::<Seq<char>>::empty());
    } else {
        lemma_tags_text_pieces(ps);
    }
}

/// Tags read from a text, written back as text and read again, are the same
/// tags: the tag field of a task shows what it holds.
pub proof fn lemma_tags_text_stable(s: Seq<char>)
    ensures
        tags_of_text(tags_text(tags_of_text(s))) == tags_of_text(s),
{
    lemma_split_trimmed_items(Separators::TagList, s);
    lemma_tags_roundtrip(tags_of_text(s));
}

/// Writing clean links one per line and reading them back gives the same
/// links.
pub proof fn lemma_links_roundtrip(ls: Seq<Seq<char>>)
    requires
        clean_items(Separators::Lines, ls),
    ensures
        links_of_text(links_text(ls)) == ls,
{
    reveal_strlit("\n");
    assert("\n"@ =~= seq!['\n']);
    if ls.len() == 0 {
        assert(join(ls, "\n"@) =~= Seq::<char>::empty());
        lemma_split_one_piece(Separators::Lines, Seq::<char>::empty());
        lemma_trimmed_nonempty_single(Seq::<char>::empty());
        assert(trim(Seq::<char>::empty()) =~= Seq::<char>::empty());
        assert(ls =~= Seq::<Seq<char>>::empty());
    } else {
        assert(is_sep(Separators::Lines, '\n'));
        lemma_split_join(Separators::Lines, ls, '\n');
        lemma_trimmed_nonempty_fixed(ls);
    }
}

/// Links read from a text, written back one per line and read again, are
/// the same links.
pub proof fn lemma_links_text_stable(s: Seq<char>)
    ensures
        links_of_text(links_text(links_of_text(s))) == links_of_text(s),
{
    lemma_split_trimmed_items(Separators::Lines, s);
    lemma_links_roundtrip(links_of_text(s));
}

/// A project name already normalized stays as it is, and so does its code.
pub proof fn lemma_project_name_idempotent(name: Seq<char>)
    ensures
        project_name_spec(project_name_spec(name)) == project_name_spec(name),
        project_code_spec(project_name_spec(name)) == project_code_spec(name),
{
    lemma_collapse_spaces_idempotent(name);
}

} // verus!
