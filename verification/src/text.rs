//! Character-level text handling: whitespace, trimming, splitting, joining,
//! substring search and case mapping.
use vstd::prelude::*;

verus! {

// ---------------------------------------------------------------------------
// Characters
// ---------------------------------------------------------------------------

/// The Unicode `White_Space` property, which `char::is_whitespace` follows.
pub open spec fn is_ws(c: char) -> bool {
    let n = c as u32;
    ||| 0x09 <= n <= 0x0D
    ||| n == 0x20
    ||| n == 0x85
    ||| n == 0xA0
    ||| n == 0x1680
    ||| 0x2000 <= n <= 0x200A
    ||| n == 0x2028
    ||| n == 0x2029
    ||| n == 0x202F
    ||| n == 0x205F
    ||| n == 0x3000
}

/// ASCII letters and digits, as `char::is_ascii_alphanumeric` defines them.
pub open spec fn is_ascii_alnum(c: char) -> bool {
    ||| ('0' <= c && c <= '9')
    ||| ('a' <= c && c <= 'z')
    ||| ('A' <= c && c <= 'Z')
}

pub fn is_whitespace(c: char) -> (r: bool)
    ensures
        r == is_ws(c),
{
    let n = c as u32;
    (0x09 <= n && n <= 0x0D) || n == 0x20 || n == 0x85 || n == 0xA0 || n == 0x1680 || (0x2000
        <= n && n <= 0x200A) || n == 0x2028 || n == 0x2029 || n == 0x202F || n == 0x205F || n
        == 0x3000
}

pub fn is_ascii_alphanumeric(c: char) -> (r: bool)
    ensures
        r == is_ascii_alnum(c),
{
    ('0' <= c && c <= '9') || ('a' <= c && c <= 'z') || ('A' <= c && c <= 'Z')
}

// ---------------------------------------------------------------------------
// Strings as sequences
// ---------------------------------------------------------------------------

/// The views of a sequence of strings.
pub open spec fn strs(v: Seq<String>) -> Seq<Seq<char>> {
    v.map_values(|s: String| s@)
}

/// `s` without its leading whitespace.
pub open spec fn trim_start(s: Seq<char>) -> Seq<char>
    decreases s.len(),
{
    if s.len() > 0 && is_ws(s[0]) {
        trim_start(s.drop_first())
    } else {
        s
    }
}

/// `s` without its trailing whitespace.
pub open spec fn trim_end(s: Seq<char>) -> Seq<char>
    decreases s.len(),
{
    if s.len() > 0 && is_ws(s.last()) {
        trim_end(s.drop_last())
    } else {
        s
    }
}

/// `s` without leading and trailing whitespace (`str::trim`).
pub open spec fn trim(s: Seq<char>) -> Seq<char> {
    trim_end(trim_start(s))
}

/// The pieces of `s` between the characters for which `is_sep` holds, empty
/// pieces included: `n` separators give `n + 1` pieces (`str::split`).
pub open spec fn split_when(s: Seq<char>, is_sep: spec_fn(char) -> bool) -> Seq<Seq<char>>
    decreases s.len(),
{
    if s.len() == 0 {
        seq![Seq::<char>::empty()]
    } else {
        let init = split_when(s.drop_last(), is_sep);
        if is_sep(s.last()) {
            init.push(Seq::<char>::empty())
        } else {
            init.update(init.len() - 1, init.last().push(s.last()))
        }
    }
}

/// Each piece trimmed, the pieces that are then empty left out.
pub open spec fn trimmed_nonempty(pieces: Seq<Seq<char>>) -> Seq<Seq<char>>
    decreases pieces.len(),
{
    if pieces.len() == 0 {
        Seq::empty()
    } else {
        let init = trimmed_nonempty(pieces.drop_last());
        let t = trim(pieces.last());
        if t.len() > 0 {
            init.push(t)
        } else {
            init
        }
    }
}

/// The pieces that are not empty, in order.
pub open spec fn nonempty(pieces: Seq<Seq<char>>) -> Seq<Seq<char>>
    decreases pieces.len(),
{
    if pieces.len() == 0 {
        Seq::empty()
    } else {
        let init = nonempty(pieces.drop_last());
        if pieces.last().len() > 0 {
            init.push(pieces.last())
        } else {
            init
        }
    }
}

/// The pieces with `sep` between each two of them (`[String]::join`).
pub open spec fn join(pieces: Seq<Seq<char>>, sep: Seq<char>) -> Seq<char>
    decreases pieces.len(),
{
    if pieces.len() == 0 {
        Seq::empty()
    } else if pieces.len() == 1 {
        pieces[0]
    } else {
        join(pieces.drop_last(), sep) + sep + pieces.last()
    }
}


/// `needle` occurs in `hay` as a contiguous block (`str::contains`).
pub open spec fn contains_seq(hay: Seq<char>, needle: Seq<char>) -> bool {
    exists|i: int|
        0 <= i && i + needle.len() <= hay.len() && #[trigger] hay.subrange(i, i + needle.len())
            == needle
}

/// The characters of `s` for which `keep` holds, in order.
pub open spec fn keep_chars(s: Seq<char>, keep: spec_fn(char) -> bool) -> Seq<char>
    decreases s.len(),
{
    if s.len() == 0 {
        Seq::empty()
    } else if keep(s.last()) {
        keep_chars(s.drop_last(), keep).push(s.last())
    } else {
        keep_chars(s.drop_last(), keep)
    }
}

/// What `str::to_lowercase` returns for a string.
pub uninterp spec fn spec_to_lowercase(s: Seq<char>) -> Seq<char>;

/// What `str::to_uppercase` returns for a string.
pub uninterp spec fn spec_to_uppercase(s: Seq<char>) -> Seq<char>;

// ---------------------------------------------------------------------------
// Calls into std that vstd does not specify
// ---------------------------------------------------------------------------

/// `String::push`: appends one character.
#[verifier::external_body]
pub(crate) fn push_char(s: &mut String, c: char)
    ensures
        final(s)@ == old(s)@.push(c),
{
    s.push(c);
}

/// `str::to_lowercase`: the result is named by `spec_to_lowercase`, a
/// function of the input alone; the Unicode case tables are not restated.
#[verifier::external_body]
pub(crate) fn to_lowercase(s: &str) -> (r: String)
    ensures
        r@ == spec_to_lowercase(s@),
{
    s.to_lowercase()
}

/// `str::to_uppercase`: the result is named by `spec_to_uppercase`, a
/// function of the input alone; the Unicode case tables are not restated.
#[verifier::external_body]
pub(crate) fn to_uppercase(s: &str) -> (r: String)
    ensures
        r@ == spec_to_uppercase(s@),
{
    s.to_uppercase()
}

// ---------------------------------------------------------------------------
// Executable helpers
// ---------------------------------------------------------------------------

pub fn chars_of(s: &str) -> (v: Vec<char>)
    ensures
        v@ == s@,
{
    let mut v: Vec<char> = Vec::new();
    for c in it: s.chars()
        invariant
            v@ == it.seq().take(it.index() as int),
            it.seq() == s@,
    {
        v.push(c);
    }
    v
}

/// The string made of `v[from..to]`.
pub fn string_of_range(v: &Vec<char>, from: usize, to: usize) -> (r: String)
    requires
        from <= to <= v@.len(),
    ensures
        r@ == v@.subrange(from as int, to as int),
{
    let mut r = String::new();
    let mut i = from;
    while i < to
        invariant
            from <= i <= to <= v@.len(),
            r@ == v@.subrange(from as int, i as int),
        decreases to - i,
    {
        push_char(&mut r, v[i]);
        assert(v@.subrange(from as int, i + 1) == v@.subrange(from as int, i as int).push(v@[i as int]));
        i += 1;
    }
    r
}

pub fn string_from(s: &str) -> (r: String)
    ensures
        r@ == s@,
{
    let v = chars_of(s);
    let r = string_of_range(&v, 0, v.len());
    assert(v@.subrange(0, v@.len() as int) == v@);
    r
}

pub fn append_str(r: &mut String, s: &str)
    ensures
        final(r)@ == old(r)@ + s@,
{
    let v = chars_of(s);
    let mut i: usize = 0;
    while i < v.len()
        invariant
            i <= v@.len(),
            v@ == s@,
            r@ == old(r)@ + v@.subrange(0, i as int),
        decreases v.len() - i,
    {
        push_char(r, v[i]);
        assert(v@.subrange(0, i + 1) == v@.subrange(0, i as int).push(v@[i as int]));
        i += 1;
    }
    assert(v@.subrange(0, v@.len() as int) == v@);
}

pub fn str_eq(a: &str, b: &str) -> (r: bool)
    ensures
        r == (a@ == b@),
{
    let x = chars_of(a);
    let y = chars_of(b);
    if x.len() != y.len() {
        return false;
    }
    let mut i: usize = 0;
    while i < x.len()
        invariant
            x@ == a@,
            y@ == b@,
            x@.len() == y@.len(),
            i <= x@.len(),
            forall|k: int| 0 <= k < i ==> x@[k] == y@[k],
        decreases x.len() - i,
    {
        if x[i] != y[i] {
            return false;
        }
        i += 1;
    }
    assert(x@ =~= y@);
    true
}


// ---------------------------------------------------------------------------
// Splitting and joining
// ---------------------------------------------------------------------------

/// Which characters separate the pieces of a text.
#[derive(Clone, Copy, PartialEq, Eq, Structural, Debug)]
pub enum Separators {
    /// `,`, `;` and line feed: the separators of a tag list.
    TagList,
    /// Line feed alone: one piece per line.
    Lines,
    /// Unicode whitespace.
    Whitespace,
}

pub open spec fn is_sep(kind: Separators, c: char) -> bool {
    match kind {
        Separators::TagList => c == ',' || c == ';' || c == '\n',
        Separators::Lines => c == '\n',
        Separators::Whitespace => is_ws(c),
    }
}

pub fn is_separator(kind: Separators, c: char) -> (r: bool)
    ensures
        r == is_sep(kind, c),
{
    match kind {
        Separators::TagList => c == ',' || c == ';' || c == '\n',
        Separators::Lines => c == '\n',
        Separators::Whitespace => is_whitespace(c),
    }
}

/// The raw pieces of `s` between separators of `kind`.
pub open spec fn pieces(kind: Separators, s: Seq<char>) -> Seq<Seq<char>> {
    split_when(s, |c: char| is_sep(kind, c))
}

/// The pieces of `s`, trimmed, with the empty ones left out.
pub open spec fn split_trimmed_spec(kind: Separators, s: Seq<char>) -> Seq<Seq<char>> {
    trimmed_nonempty(pieces(kind, s))
}

/// Splits `s` at the separators of `kind`, trims each piece and leaves out
/// the pieces that are then empty.
pub fn split_trimmed(s: &str, kind: Separators) -> (r: Vec<String>)
    ensures
        strs(r@) == split_trimmed_spec(kind, s@),
{
    let v = chars_of(s);
    let mut out: Vec<String> = Vec::new();
    let mut start: usize = 0;
    let mut i: usize = 0;
    let ghost mut done: Seq<Seq<char>> = Seq::empty();
    proof {
        assert(v@.take(0) =~= Seq::<char>::empty());
        assert(pieces(kind, Seq::<char>::empty()) == seq![Seq::<char>::empty()]);
        assert(done.push(v@.subrange(0, 0)) =~= seq![Seq::<char>::empty()]);
    }
    while i < v.len()
        invariant
            v@ == s@,
            start <= i <= v@.len(),
            pieces(kind, v@.take(i as int)) == done.push(v@.subrange(start as int, i as int)),
            strs(out@) == trimmed_nonempty(done),
        decreases v.len() - i,
    {
        let c = v[i];
        assert(v@.take(i + 1).drop_last() == v@.take(i as int));
        assert(v@.take(i + 1).last() == c);
        if is_separator(kind, c) {
            let (a, b) = trim_bounds_range(&v, start, i);
            if a < b {
                let piece = string_of_range(&v, a, b);
                out.push(piece);
            }
            proof {
                let p = v@.subrange(start as int, i as int);
                assert(trimmed_nonempty(done.push(p)).len() >= 0);
                assert(done.push(p).drop_last() == done);
                assert(strs(out@) == trimmed_nonempty(done.push(p)));
                done = done.push(p);
                assert(v@.subrange(i + 1, i + 1) == Seq::<char>::empty());
            }
            start = i + 1;
        } else {
            proof {
                let p = v@.subrange(start as int, i as int);
                assert(p.push(c) == v@.subrange(start as int, i + 1));
                assert(done.push(p).update(done.len() as int, p.push(c)) == done.push(p.push(c)));
            }
        }
        i += 1;
    }
    assert(v@.take(v@.len() as int) == v@);
    let (a, b) = trim_bounds_range(&v, start, v.len());
    if a < b {
        let piece = string_of_range(&v, a, b);
        out.push(piece);
    }
    proof {
        let p = v@.subrange(start as int, v@.len() as int);
        assert(done.push(p).drop_last() == done);
    }
    out
}

/// `trim(v[from..to]) == v[r.0..r.1]`.
pub fn trim_bounds_range(v: &Vec<char>, from: usize, to: usize) -> (r: (usize, usize))
    requires
        from <= to <= v@.len(),
    ensures
        from <= r.0 <= r.1 <= to,
        trim(v@.subrange(from as int, to as int)) == v@.subrange(r.0 as int, r.1 as int),
{
    let mut i: usize = from;
    while i < to && is_whitespace(v[i])
        invariant
            from <= i <= to <= v@.len(),
            forall|m: int| from <= m < i ==> is_ws(#[trigger] v@[m]),
        decreases to - i,
    {
        i += 1;
    }
    let ghost w = v@.subrange(from as int, to as int);
    proof {
        assert forall|m: int| 0 <= m < i - from implies is_ws(#[trigger] w[m]) by {
            assert(w[m] == v@[m + from]);
        }
        if i < to {
            assert(w[i - from] == v@[i as int]);
        }
        lemma_trim_start_skip(w, 0, i - from);
        assert(w.subrange(0, w.len() as int) == w);
    }
    let ghost t = v@.subrange(i as int, to as int);
    assert(w.subrange(i - from, w.len() as int) == t);
    let mut j: usize = to;
    while j > i && is_whitespace(v[j - 1])
        invariant
            from <= i <= j <= to <= v@.len(),
            forall|m: int| j <= m < to ==> is_ws(#[trigger] v@[m]),
        decreases j,
    {
        j -= 1;
    }
    proof {
        let n = to - i;
        assert forall|m: int| j - i <= m < n implies is_ws(#[trigger] t[m]) by {
            assert(t[m] == v@[m + i]);
        }
        if j > i {
            assert(t[j - i - 1] == v@[j - 1]);
        }
        lemma_trim_end_skip(t, n, j - i);
        assert(t.subrange(0, n) == t);
        assert(t.subrange(0, j - i) == v@.subrange(i as int, j as int));
    }
    (i, j)
}

/// The maximal runs of non-whitespace characters (`str::split_whitespace`).
pub open spec fn words(s: Seq<char>) -> Seq<Seq<char>> {
    nonempty(pieces(Separators::Whitespace, s))
}

pub proof fn lemma_pieces_have_no_separator(kind: Separators, s: Seq<char>)
    ensures
        pieces(kind, s).len() >= 1,
        forall|i: int, j: int|
            0 <= i < pieces(kind, s).len() && 0 <= j < pieces(kind, s)[i].len() ==> !is_sep(
                kind,
                #[trigger] pieces(kind, s)[i][j],
            ),
    decreases s.len(),
{
    if s.len() > 0 {
        lemma_pieces_have_no_separator(kind, s.drop_last());
        let init = pieces(kind, s.drop_last());
        assert(pieces(kind, s) == split_when(s, |c: char| is_sep(kind, c)));
        if !is_sep(kind, s.last()) {
            let ps = pieces(kind, s);
            assert forall|i: int, j: int|
                0 <= i < ps.len() && 0 <= j < ps[i].len() implies !is_sep(kind, #[trigger] ps[i][j]) by {
                if i == init.len() - 1 {
                    assert(ps[i] == init.last().push(s.last()));
                    if j < init.last().len() {
                        assert(ps[i][j] == init[i][j]);
                    }
                } else {
                    assert(ps[i] == init[i]);
                }
            }
        } else {
            let ps = pieces(kind, s);
            assert forall|i: int, j: int|
                0 <= i < ps.len() && 0 <= j < ps[i].len() implies !is_sep(kind, #[trigger] ps[i][j]) by {
                if i < init.len() {
                    assert(ps[i] == init[i]);
                }
            }
        }
    }
}

pub proof fn lemma_trim_without_whitespace(p: Seq<char>)
    requires
        forall|j: int| 0 <= j < p.len() ==> !is_ws(#[trigger] p[j]),
    ensures
        trim(p) == p,
{
    if p.len() > 0 {
        assert(!is_ws(p[0]));
        assert(trim_start(p) == p);
        assert(!is_ws(p.last()));
    }
}

pub proof fn lemma_words_are_trimmed_pieces(s: Seq<char>)
    ensures
        words(s) == split_trimmed_spec(Separators::Whitespace, s),
{
    lemma_pieces_have_no_separator(Separators::Whitespace, s);
    lemma_trimmed_nonempty_is_nonempty(pieces(Separators::Whitespace, s));
}

pub proof fn lemma_trimmed_nonempty_is_nonempty(ps: Seq<Seq<char>>)
    requires
        forall|i: int, j: int|
            0 <= i < ps.len() && 0 <= j < ps[i].len() ==> !is_ws(#[trigger] ps[i][j]),
    ensures
        trimmed_nonempty(ps) == nonempty(ps),
    decreases ps.len(),
{
    if ps.len() > 0 {
        let init = ps.drop_last();
        assert forall|i: int, j: int|
            0 <= i < init.len() && 0 <= j < init[i].len() implies !is_ws(#[trigger] init[i][j]) by {
            assert(init[i] == ps[i]);
        }
        lemma_trimmed_nonempty_is_nonempty(init);
        let last = ps.last();
        assert forall|j: int| 0 <= j < last.len() implies !is_ws(#[trigger] last[j]) by {
            assert(last[j] == ps[ps.len() - 1][j]);
        }
        lemma_trim_without_whitespace(last);
    }
}

/// `split_whitespace().collect::<Vec<_>>().join(" ")`: the words of `s`
/// joined by single spaces.
pub fn collapse_spaces(s: &str) -> (r: String)
    ensures
        r@ == collapse_spaces_spec(s@),
{
    let ws = split_trimmed(s, Separators::Whitespace);
    proof {
        lemma_words_are_trimmed_pieces(s@);
        reveal_strlit(" ");
        assert(" "@ =~= seq![' ']);
    }
    join_strings(&ws, " ")
}

/// The words of `s` joined by single spaces.
pub open spec fn collapse_spaces_spec(s: Seq<char>) -> Seq<char> {
    join(words(s), seq![' '])
}

/// Joins `parts` with `sep` between each two of them.
pub fn join_strings(parts: &Vec<String>, sep: &str) -> (r: String)
    ensures
        r@ == join(strs(parts@), sep@),
{
    let mut r = String::new();
    let mut i: usize = 0;
    while i < parts.len()
        invariant
            i <= parts@.len(),
            r@ == join(strs(parts@).take(i as int), sep@),
        decreases parts.len() - i,
    {
        proof {
            let ps = strs(parts@);
            assert(ps.take(i + 1).drop_last() == ps.take(i as int));
            assert(ps.take(i + 1).last() == parts@[i as int]@);
        }
        if i > 0 {
            append_str(&mut r, sep);
        }
        append_str(&mut r, parts[i].as_str());
        proof {
            let ps = strs(parts@);
            if i == 0 {
                assert(ps.take(1)[0] == parts@[0]@);
                assert(Seq::<char>::empty() + parts@[0]@ == parts@[0]@);
            }
        }
        i += 1;
    }
    assert(strs(parts@).take(parts@.len() as int) == strs(parts@));
    r
}

/// The characters of `s` that are ASCII letters or digits, in order.
pub open spec fn ascii_alnum_only(s: Seq<char>) -> Seq<char> {
    keep_chars(s, |c: char| is_ascii_alnum(c))
}

pub fn keep_ascii_alphanumeric(s: &str) -> (r: String)
    ensures
        r@ == ascii_alnum_only(s@),
{
    let v = chars_of(s);
    let mut r = String::new();
    let mut i: usize = 0;
    while i < v.len()
        invariant
            v@ == s@,
            i <= v@.len(),
            r@ == ascii_alnum_only(v@.take(i as int)),
        decreases v.len() - i,
    {
        assert(v@.take(i + 1).drop_last() == v@.take(i as int));
        assert(v@.take(i + 1).last() == v@[i as int]);
        if is_ascii_alphanumeric(v[i]) {
            push_char(&mut r, v[i]);
        }
        i += 1;
    }
    assert(v@.take(v@.len() as int) == v@);
    r
}

pub fn has_ascii_alphanumeric(s: &str) -> (r: bool)
    ensures
        r == (exists|i: int| 0 <= i < s@.len() && is_ascii_alnum(#[trigger] s@[i])),
{
    let v = chars_of(s);
    let mut i: usize = 0;
    while i < v.len()
        invariant
            v@ == s@,
            i <= v@.len(),
            forall|k: int| 0 <= k < i ==> !is_ascii_alnum(#[trigger] v@[k]),
        decreases v.len() - i,
    {
        if is_ascii_alphanumeric(v[i]) {
            return true;
        }
        i += 1;
    }
    false
}

/// Whether `needle` occurs in `hay` (`str::contains`).
pub fn contains_str(hay: &str, needle: &str) -> (r: bool)
    ensures
        r == contains_seq(hay@, needle@),
{
    let h = chars_of(hay);
    let n = chars_of(needle);
    if n.len() > h.len() {
        return false;
    }
    let mut i: usize = 0;
    while i <= h.len() - n.len()
        invariant
            h@ == hay@,
            n@ == needle@,
            n@.len() <= h@.len(),
            i <= h@.len() - n@.len() + 1,
            forall|k: int| 0 <= k < i ==> #[trigger] h@.subrange(k, k + n@.len()) != n@,
        ensures
            forall|k: int| 0 <= k <= h@.len() - n@.len() ==> #[trigger] h@.subrange(k, k + n@.len()) != n@,
        decreases h.len() - i,
    {
        let mut j: usize = 0;
        while j < n.len() && h[i + j] == n[j]
            invariant
                i + n@.len() <= h@.len(),
                h@.len() == h.len(),
                n@.len() == n.len(),
                j <= n@.len(),
                forall|m: int| 0 <= m < j ==> h@[i + m] == n@[m],
            decreases n.len() - j,
        {
            j += 1;
        }
        if j == n.len() {
            assert(h@.subrange(i as int, i + n@.len()) =~= n@);
            return true;
        }
        assert(h@.subrange(i as int, i + n@.len())[j as int] != n@[j as int]);
        i += 1;
    }
    false
}

pub proof fn lemma_trim_start_skip(s: Seq<char>, i: int, k: int)
    requires
        0 <= i <= k <= s.len(),
        forall|m: int| i <= m < k ==> is_ws(#[trigger] s[m]),
        k == s.len() || !is_ws(s[k]),
    ensures
        trim_start(s.subrange(i, s.len() as int)) == s.subrange(k, s.len() as int),
    decreases k - i,
{
    let t = s.subrange(i, s.len() as int);
    if i < k {
        assert(t.drop_first() == s.subrange(i + 1, s.len() as int));
        lemma_trim_start_skip(s, i + 1, k);
    }
}

pub proof fn lemma_trim_end_skip(s: Seq<char>, j: int, k: int)
    requires
        0 <= k <= j <= s.len(),
        forall|m: int| k <= m < j ==> is_ws(#[trigger] s[m]),
        k == 0 || !is_ws(s[k - 1]),
    ensures
        trim_end(s.subrange(0, j)) == s.subrange(0, k),
    decreases j - k,
{
    let t = s.subrange(0, j);
    if k < j {
        assert(t.drop_last() == s.subrange(0, j - 1));
        lemma_trim_end_skip(s, j - 1, k);
    }
}

/// The indices `(start, end)` such that `trim(v) == v[start..end]`.
pub fn trim_bounds(v: &Vec<char>) -> (r: (usize, usize))
    ensures
        r.0 <= r.1 <= v@.len(),
        trim(v@) == v@.subrange(r.0 as int, r.1 as int),
{
    let mut i: usize = 0;
    while i < v.len() && is_whitespace(v[i])
        invariant
            i <= v@.len(),
            forall|m: int| 0 <= m < i ==> is_ws(#[trigger] v@[m]),
        decreases v.len() - i,
    {
        i += 1;
    }
    proof {
        lemma_trim_start_skip(v@, 0, i as int);
        assert(v@.subrange(0, v@.len() as int) == v@);
    }
    let ghost t = v@.subrange(i as int, v@.len() as int);
    let mut j: usize = v.len();
    while j > i && is_whitespace(v[j - 1])
        invariant
            i <= j <= v@.len(),
            forall|m: int| j <= m < v@.len() ==> is_ws(#[trigger] v@[m]),
        decreases j,
    {
        j -= 1;
    }
    proof {
        let n = v@.len() - i;
        assert forall|m: int| j - i <= m < n implies is_ws(#[trigger] t[m]) by {
            assert(t[m] == v@[m + i]);
        }
        if j > i {
            assert(t[j - i - 1] == v@[j - 1]);
        }
        lemma_trim_end_skip(t, n, j - i);
        assert(t.subrange(0, n) == t);
        assert(t.subrange(0, j - i) == v@.subrange(i as int, j as int));
    }
    (i, j)
}

/// `str::trim`, as an owned string.
pub fn trim_string(s: &str) -> (r: String)
    ensures
        r@ == trim(s@),
{
    let v = chars_of(s);
    let (a, b) = trim_bounds(&v);
    string_of_range(&v, a, b)
}

/// Whether the trimmed text is empty (`s.trim().is_empty()`).
pub fn is_blank(s: &str) -> (r: bool)
    ensures
        r == (trim(s@).len() == 0),
{
    let v = chars_of(s);
    let (a, b) = trim_bounds(&v);
    a == b
}

// ---------------------------------------------------------------------------
// Facts about trimming, splitting and joining
// ---------------------------------------------------------------------------

pub proof fn lemma_trim_start_shape(s: Seq<char>)
    ensures
        trim_start(s) == s.subrange(s.len() - trim_start(s).len(), s.len() as int),
        trim_start(s).len() <= s.len(),
        trim_start(s).len() > 0 ==> !is_ws(trim_start(s)[0]),
    decreases s.len(),
{
    if s.len() > 0 && is_ws(s[0]) {
        lemma_trim_start_shape(s.drop_first());
        assert(s.drop_first().subrange(
            s.drop_first().len() - trim_start(s).len(),
            s.drop_first().len() as int,
        ) == s.subrange(s.len() - trim_start(s).len(), s.len() as int));
    } else {
        assert(s.subrange(0, s.len() as int) == s);
    }
}

pub proof fn lemma_trim_end_shape(s: Seq<char>)
    ensures
        trim_end(s) == s.subrange(0, trim_end(s).len() as int),
        trim_end(s).len() <= s.len(),
        trim_end(s).len() > 0 ==> !is_ws(trim_end(s).last()),
    decreases s.len(),
{
    if s.len() > 0 && is_ws(s.last()) {
        lemma_trim_end_shape(s.drop_last());
        assert(s.drop_last().subrange(0, trim_end(s).len() as int) == s.subrange(
            0,
            trim_end(s).len() as int,
        ));
    } else {
        assert(s.subrange(0, s.len() as int) == s);
    }
}

/// A sequence that neither starts nor ends with whitespace is its own trim.
pub proof fn lemma_trim_fixed(p: Seq<char>)
    requires
        p.len() > 0 ==> !is_ws(p[0]) && !is_ws(p.last()),
    ensures
        trim(p) == p,
{
}

/// `trim(s)` is a block of `s` that neither starts nor ends with whitespace.
pub proof fn lemma_trim_shape(s: Seq<char>)
    ensures
        exists|a: int| 0 <= a && a + trim(s).len() <= s.len() && #[trigger] s.subrange(a, a + trim(s).len()) == trim(s),
        trim(s).len() > 0 ==> !is_ws(trim(s)[0]) && !is_ws(trim(s).last()),
{
    let t1 = trim_start(s);
    lemma_trim_start_shape(s);
    lemma_trim_end_shape(t1);
    let t = trim(s);
    let a = s.len() - t1.len();
    assert(s.subrange(a, a + t.len()) == t);
    if t.len() > 0 {
        assert(t[0] == t1[0]);
    }
}

pub proof fn lemma_trim_idempotent(s: Seq<char>)
    ensures
        trim(trim(s)) == trim(s),
{
    lemma_trim_shape(s);
    lemma_trim_fixed(trim(s));
}

/// Leading whitespace does not change the trim.
pub proof fn lemma_trim_after_space(p: Seq<char>)
    ensures
        trim(seq![' '] + p) == trim(p),
{
    let q = seq![' '] + p;
    assert(q.drop_first() == p);
    assert(is_ws(q[0]));
}

pub proof fn lemma_split_one_piece(kind: Separators, p: Seq<char>)
    requires
        forall|j: int| 0 <= j < p.len() ==> !is_sep(kind, #[trigger] p[j]),
    ensures
        pieces(kind, p) == seq![p],
    decreases p.len(),
{
    if p.len() == 0 {
        assert(pieces(kind, p) == split_when(p, |c: char| is_sep(kind, c)));
        assert(p =~= Seq::<char>::empty());
        assert(pieces(kind, p) =~= seq![p]);
    } else {
        let init = p.drop_last();
        assert forall|j: int| 0 <= j < init.len() implies !is_sep(kind, #[trigger] init[j]) by {
            assert(init[j] == p[j]);
        }
        lemma_split_one_piece(kind, init);
        assert(pieces(kind, p) == split_when(p, |c: char| is_sep(kind, c)));
        assert(init.push(p.last()) == p);
        assert(!is_sep(kind, p[p.len() - 1]));
        assert(pieces(kind, p) =~= seq![p]);
    }
}

/// Splitting at a separator character splits the pieces on either side.
pub proof fn lemma_split_concat(kind: Separators, x: Seq<char>, c: char, y: Seq<char>)
    requires
        is_sep(kind, c),
    ensures
        pieces(kind, x + seq![c] + y) == pieces(kind, x) + pieces(kind, y),
    decreases y.len(),
{
    let z = x + seq![c] + y;
    if y.len() == 0 {
        assert(z.drop_last() == x);
        assert(z.last() == c);
        assert(pieces(kind, z) == split_when(z, |ch: char| is_sep(kind, ch)));
        assert(pieces(kind, y) == split_when(y, |ch: char| is_sep(kind, ch)));
        assert(pieces(kind, z) =~= pieces(kind, x) + pieces(kind, y));
    } else {
        let y1 = y.drop_last();
        lemma_split_concat(kind, x, c, y1);
        lemma_pieces_have_no_separator(kind, y1);
        assert(z.drop_last() == x + seq![c] + y1);
        assert(z.last() == y.last());
        assert(pieces(kind, z) == split_when(z, |ch: char| is_sep(kind, ch)));
        assert(pieces(kind, y) == split_when(y, |ch: char| is_sep(kind, ch)));
        assert(pieces(kind, z) =~= pieces(kind, x) + pieces(kind, y));
    }
}

/// Joining pieces without separators by one separator character and
/// splitting again gives the pieces back.
pub proof fn lemma_split_join(kind: Separators, ps: Seq<Seq<char>>, c: char)
    requires
        is_sep(kind, c),
        ps.len() >= 1,
        forall|i: int, j: int|
            0 <= i < ps.len() && 0 <= j < ps[i].len() ==> !is_sep(kind, #[trigger] ps[i][j]),
    ensures
        pieces(kind, join(ps, seq![c])) == ps,
    decreases ps.len(),
{
    if ps.len() == 1 {
        let p = ps[0];
        assert forall|j: int| 0 <= j < p.len() implies !is_sep(kind, #[trigger] p[j]) by {
            assert(p[j] == ps[0][j]);
        }
        lemma_split_one_piece(kind, p);
        assert(pieces(kind, join(ps, seq![c])) =~= ps);
    } else {
        let init = ps.drop_last();
        assert forall|i: int, j: int| 0 <= i < init.len() && 0 <= j < init[i].len() implies !is_sep(
            kind,
            #[trigger] init[i][j],
        ) by {
            assert(init[i] == ps[i]);
        }
        lemma_split_join(kind, init, c);
        let last = ps.last();
        assert forall|j: int| 0 <= j < last.len() implies !is_sep(kind, #[trigger] last[j]) by {
            assert(last[j] == ps[ps.len() - 1][j]);
        }
        lemma_split_one_piece(kind, last);
        lemma_split_concat(kind, join(init, seq![c]), c, last);
        assert(ps == init + seq![last]);
    }
}

/// Pieces that are trimmed and not empty come out of `trimmed_nonempty`
/// unchanged.
pub proof fn lemma_trimmed_nonempty_fixed(ps: Seq<Seq<char>>)
    requires
        forall|i: int| 0 <= i < ps.len() ==> (#[trigger] ps[i]).len() > 0 && trim(ps[i]) == ps[i],
    ensures
        trimmed_nonempty(ps) == ps,
    decreases ps.len(),
{
    if ps.len() > 0 {
        let init = ps.drop_last();
        assert forall|i: int| 0 <= i < init.len() implies (#[trigger] init[i]).len() > 0 && trim(init[i]) == init[i] by {
            assert(init[i] == ps[i]);
        }
        lemma_trimmed_nonempty_fixed(init);
        assert(ps.last() == ps[ps.len() - 1]);
        assert(init.push(ps.last()) == ps);
    }
}

/// Each piece that `trimmed_nonempty` keeps is the trim of some piece, and
/// is not empty.
pub proof fn lemma_trimmed_nonempty_items(ps: Seq<Seq<char>>)
    ensures
        forall|i: int|
            0 <= i < trimmed_nonempty(ps).len() ==> (#[trigger] trimmed_nonempty(ps)[i]).len() > 0
                && exists|j: int| 0 <= j < ps.len() && trimmed_nonempty(ps)[i] == trim(#[trigger] ps[j]),
    decreases ps.len(),
{
    if ps.len() > 0 {
        let init = ps.drop_last();
        lemma_trimmed_nonempty_items(init);
        let r = trimmed_nonempty(ps);
        assert forall|i: int| 0 <= i < r.len() implies (#[trigger] r[i]).len() > 0 && exists|j: int|
            0 <= j < ps.len() && r[i] == trim(#[trigger] ps[j]) by {
            if i < trimmed_nonempty(init).len() {
                assert(r[i] == trimmed_nonempty(init)[i]);
                let j = choose|j: int| 0 <= j < init.len() && trimmed_nonempty(init)[i] == trim(#[trigger] init[j]);
                assert(init[j] == ps[j]);
            } else {
                assert(r[i] == trim(ps.last()));
                assert(ps[ps.len() - 1] == ps.last());
            }
        }
    }
}

/// What `split_trimmed_spec` gives are trimmed, non-empty pieces without
/// separators.
pub proof fn lemma_split_trimmed_items(kind: Separators, s: Seq<char>)
    ensures
        forall|i: int|
            0 <= i < split_trimmed_spec(kind, s).len() ==> {
                let t = #[trigger] split_trimmed_spec(kind, s)[i];
                &&& t.len() > 0
                &&& trim(t) == t
                &&& forall|j: int| 0 <= j < t.len() ==> !is_sep(kind, #[trigger] t[j])
            },
{
    let ps = pieces(kind, s);
    lemma_trimmed_nonempty_items(ps);
    lemma_pieces_have_no_separator(kind, s);
    let r = split_trimmed_spec(kind, s);
    assert forall|i: int| 0 <= i < r.len() implies {
        let t = #[trigger] r[i];
        &&& t.len() > 0
        &&& trim(t) == t
        &&& forall|j: int| 0 <= j < t.len() ==> !is_sep(kind, #[trigger] t[j])
    } by {
        let t = r[i];
        let k = choose|k: int| 0 <= k < ps.len() && t == trim(#[trigger] ps[k]);
        lemma_trim_idempotent(ps[k]);
        lemma_trim_shape(ps[k]);
        let a = choose|a: int| 0 <= a && a + trim(ps[k]).len() <= ps[k].len() && #[trigger] ps[k].subrange(a, a + trim(ps[k]).len()) == trim(ps[k]);
        assert forall|j: int| 0 <= j < t.len() implies !is_sep(kind, #[trigger] t[j]) by {
            assert(t[j] == ps[k].subrange(a, a + t.len())[j]);
            assert(ps[k][a + j] == t[j]);
        }
    }
}

pub proof fn lemma_trimmed_nonempty_single(p: Seq<char>)
    ensures
        trimmed_nonempty(seq![p]) == (if trim(p).len() > 0 {
            seq![trim(p)]
        } else {
            Seq::<Seq<char>>::empty()
        }),
{
    let e = seq![p];
    assert(e.drop_last() =~= Seq::<Seq<char>>::empty());
    assert(trimmed_nonempty(Seq::<Seq<char>>::empty()) == Seq::<Seq<char>>::empty());
    assert(e.last() == p);
    assert(Seq::<Seq<char>>::empty().push(trim(p)) =~= seq![trim(p)]);
}

pub proof fn lemma_nonempty_single(p: Seq<char>)
    ensures
        nonempty(seq![p]) == (if p.len() > 0 {
            seq![p]
        } else {
            Seq::<Seq<char>>::empty()
        }),
{
    let e = seq![p];
    assert(e.drop_last() =~= Seq::<Seq<char>>::empty());
    assert(nonempty(Seq::<Seq<char>>::empty()) == Seq::<Seq<char>>::empty());
    assert(e.last() == p);
    assert(Seq::<Seq<char>>::empty().push(p) =~= seq![p]);
}

pub proof fn lemma_nonempty_items(ps: Seq<Seq<char>>)
    ensures
        forall|i: int|
            0 <= i < nonempty(ps).len() ==> (#[trigger] nonempty(ps)[i]).len() > 0 && exists|j: int|
                0 <= j < ps.len() && nonempty(ps)[i] == #[trigger] ps[j],
    decreases ps.len(),
{
    if ps.len() > 0 {
        let init = ps.drop_last();
        lemma_nonempty_items(init);
        let r = nonempty(ps);
        assert forall|i: int| 0 <= i < r.len() implies (#[trigger] r[i]).len() > 0 && exists|j: int|
            0 <= j < ps.len() && r[i] == #[trigger] ps[j] by {
            if i < nonempty(init).len() {
                assert(r[i] == nonempty(init)[i]);
                let j = choose|j: int| 0 <= j < init.len() && nonempty(init)[i] == #[trigger] init[j];
                assert(init[j] == ps[j]);
            } else {
                assert(ps[ps.len() - 1] == ps.last());
            }
        }
    }
}

pub proof fn lemma_nonempty_fixed(ps: Seq<Seq<char>>)
    requires
        forall|i: int| 0 <= i < ps.len() ==> (#[trigger] ps[i]).len() > 0,
    ensures
        nonempty(ps) == ps,
    decreases ps.len(),
{
    if ps.len() > 0 {
        let init = ps.drop_last();
        assert forall|i: int| 0 <= i < init.len() implies (#[trigger] init[i]).len() > 0 by {
            assert(init[i] == ps[i]);
        }
        lemma_nonempty_fixed(init);
        assert(ps[ps.len() - 1] == ps.last());
        assert(init.push(ps.last()) == ps);
    }
}

/// Collapsing the spaces of a text a second time changes nothing.
pub proof fn lemma_collapse_spaces_idempotent(s: Seq<char>)
    ensures
        collapse_spaces_spec(collapse_spaces_spec(s)) == collapse_spaces_spec(s),
{
    let w = words(s);
    let ps = pieces(Separators::Whitespace, s);
    lemma_nonempty_items(ps);
    lemma_pieces_have_no_separator(Separators::Whitespace, s);
    if w.len() == 0 {
        assert(join(w, seq![' ']) =~= Seq::<char>::empty());
        lemma_split_one_piece(Separators::Whitespace, Seq::<char>::empty());
        lemma_nonempty_single(Seq::<char>::empty());
    } else {
        assert forall|i: int, j: int| 0 <= i < w.len() && 0 <= j < w[i].len() implies !is_sep(
            Separators::Whitespace,
            #[trigger] w[i][j],
        ) by {
            let k = choose|k: int| 0 <= k < ps.len() && w[i] == #[trigger] ps[k];
            assert(w[i][j] == ps[k][j]);
        }
        assert(is_sep(Separators::Whitespace, ' '));
        lemma_split_join(Separators::Whitespace, w, ' ');
        lemma_nonempty_fixed(w);
    }
}

} // verus!
