//! HTML to Markdown conversion, file-name slugs, code-block dedenting and clean-up of the
//! text that WeChat pages leave behind.
use vstd::prelude::*;

use crate::text::{
    lemma_join_concat, trim_end_ws, trim_start_ws, lemma_split_on_nonempty,
    lemma_split_on_pieces, lemma_split_on_join, lemma_trim_start_join, lemma_trim_end_join,
    lemma_trim_start_suffix, lemma_trim_end_rest, trim_end_chars,
    all_ws, char_utf8_len, chars_of, decimal, decimal_exec, ends_with, ends_with_exec, extend_chars, find,
    find_from, find_from_exec, is_blank, lemma_find_at, lemma_find_from_none, is_whitespace, is_ws, join, join_exec,
    lemma_find_from_found, lines, matches_at, matches_at_exec, replace_all, replace_all_exec,
    slice_chars, split_on, split_on_exec,
    split_lines, string_of, lemma_trim_ws_shape, lemma_lines_no_newline, lemma_lines_of_join,
    no_newline, strip_cr, trim_chars, trim_end_char, trim_end_matching, trim_ws, utf8_len,
    views,
};
use crate::trusted::{
    char_is_alphanumeric, compile_pattern, format_iso_datetime, group1_matches, html_to_markdown,
    is_alphanumeric, iso_datetime_text,
    markdown_of, opt_string_views, regex_compiles, regex_first_removed, regex_group1, remove_first_match,
    to_lowercase, unicode_lowercase,
};

verus! {

// ---------------------------------------------------------------------------
// Slugs
// ---------------------------------------------------------------------------

/// The most bytes a slug may take in UTF-8.
pub const SLUG_MAX_BYTES: usize = 200;

/// A character that a slug keeps: alphanumeric, `'-'`, a CJK ideograph (U+4E00 to U+9FFF)
/// or whitespace.
pub open spec fn keep_in_slug(c: char) -> bool {
    char_is_alphanumeric(c) || c == '-' || ('\u{4e00}' <= c && c <= '\u{9fff}') || is_ws(c)
}

/// A kept character as it stands in a slug: whitespace becomes `'-'`.
pub open spec fn slug_char(c: char) -> char {
    if is_ws(c) {
        '-'
    } else {
        c
    }
}

/// The kept characters of `s`, each as it stands in a slug.
pub open spec fn slug_chars(s: Seq<char>) -> Seq<char> {
    s.filter(|c: char| keep_in_slug(c)).map_values(|c: char| slug_char(c))
}

/// Bytes that `s` takes in UTF-8.
pub open spec fn utf8_total(s: Seq<char>) -> nat
    decreases s.len(),
{
    if s.len() == 0 {
        0
    } else {
        utf8_total(s.drop_last()) + utf8_len(s.last())
    }
}

/// The longest prefix of `s` that fits in `budget` bytes of UTF-8.
pub open spec fn prefix_within(s: Seq<char>, budget: nat) -> Seq<char>
    decreases s.len(),
{
    if s.len() == 0 || utf8_len(s[0]) > budget {
        Seq::empty()
    } else {
        seq![s[0]] + prefix_within(s.drop_first(), (budget - utf8_len(s[0])) as nat)
    }
}

/// The slug of a lowercased title: trimmed, reduced to kept characters with whitespace as
/// `'-'`, trailing dashes dropped, cut to 200 bytes at a character boundary, trailing
/// dashes dropped again, and `"article"` wherever that leaves nothing.
pub open spec fn slug_of(lower: Seq<char>) -> Seq<char> {
    let s = trim_end_char(slug_chars(trim_ws(lower)), '-');
    if s.len() == 0 {
        "article"@
    } else {
        let r = trim_end_char(prefix_within(s, SLUG_MAX_BYTES as nat), '-');
        if r.len() == 0 {
            "article"@
        } else {
            r
        }
    }
}

fn keep_in_slug_exec(c: char) -> (b: bool)
    ensures
        b == keep_in_slug(c),
{
    is_alphanumeric(c) || c == '-' || ('\u{4e00}' <= c && c <= '\u{9fff}') || is_whitespace(c)
}

/// The kept characters of `v`, each as it stands in a slug.
fn slug_chars_exec(v: &Vec<char>) -> (r: Vec<char>)
    ensures
        r@ == slug_chars(v@),
{
    let mut r: Vec<char> = Vec::new();
    let mut i: usize = 0;
    while i < v.len()
        invariant
            i <= v.len(),
            r@ == slug_chars(v@.take(i as int)),
        decreases v.len() - i,
    {
        let c = v[i];
        proof {
            reveal_with_fuel(Seq::filter, 1);
            assert(v@.take(i + 1).drop_last() =~= v@.take(i as int));
        }
        if keep_in_slug_exec(c) {
            r.push(if is_whitespace(c) {
                '-'
            } else {
                c
            });
            proof {
                let f = v@.take(i as int).filter(|c: char| keep_in_slug(c));
                assert(v@.take(i + 1).filter(|c: char| keep_in_slug(c)) == f.push(c));
                assert(f.push(c).map_values(|c: char| slug_char(c)) =~= f.map_values(
                    |c: char| slug_char(c),
                ).push(slug_char(c)));
            }
        } else {
            proof {
                assert(v@.take(i + 1).filter(|c: char| keep_in_slug(c)) == v@.take(
                    i as int,
                ).filter(|c: char| keep_in_slug(c)));
            }
        }
        i += 1;
    }
    proof {
        assert(v@.take(v.len() as int) =~= v@);
    }
    r
}

/// The longest prefix of `v` that fits in `budget` bytes of UTF-8.
fn prefix_within_exec(v: &Vec<char>, budget: usize) -> (r: Vec<char>)
    ensures
        r@ == prefix_within(v@, budget as nat),
{
    let mut used: usize = 0;
    let mut i: usize = 0;
    proof {
        assert(v@.skip(0) =~= v@);
        assert(v@.take(0) =~= Seq::<char>::empty());
    }
    while i < v.len() && char_utf8_len(v[i]) <= budget - used
        invariant
            i <= v.len(),
            used <= budget,
            prefix_within(v@, budget as nat) == v@.take(i as int) + prefix_within(
                v@.skip(i as int),
                (budget - used) as nat,
            ),
        decreases v.len() - i,
    {
        let n = char_utf8_len(v[i]);
        proof {
            let s = v@.skip(i as int);
            assert(s.drop_first() =~= v@.skip(i + 1));
            assert(v@.take(i as int) + seq![v@[i as int]] =~= v@.take(i + 1));
            assert(v@.take(i as int) + (seq![v@[i as int]] + prefix_within(
                v@.skip(i + 1),
                (budget - used - n) as nat,
            )) =~= v@.take(i + 1) + prefix_within(v@.skip(i + 1), (budget - used - n) as nat));
        }
        used += n;
        i += 1;
    }
    proof {
        assert(prefix_within(v@.skip(i as int), (budget - used) as nat) =~= Seq::<char>::empty());
        assert(v@.take(i as int) + Seq::<char>::empty() =~= v@.take(i as int));
        assert(v@.take(i as int) =~= v@.subrange(0, i as int));
    }
    slice_chars(v, 0, i)
}

/// Turns a title into a file-name slug: lowercase, trimmed, only alphanumerics, `'-'` and
/// CJK ideographs kept, whitespace as `'-'`, at most 200 bytes, never ending in `'-'`,
/// and `"article"` where nothing is left.
pub fn slugify(text: &str) -> (r: String)
    ensures
        r@ == slug_of(unicode_lowercase(text@)),
{
    let lower = to_lowercase(text);
    slug_from_lowercase(lower.as_str())
}

/// The slug of an already lowercased title.
pub fn slug_from_lowercase(lower: &str) -> (r: String)
    ensures
        r@ == slug_of(lower@),
{
    let lv = chars_of(lower);
    let trimmed = trim_chars(&lv);
    let kept = slug_chars_exec(&trimmed);
    let s = trim_end_matching(&kept, '-');
    if s.len() == 0 {
        return String::from_str("article");
    }
    let cut = prefix_within_exec(&s, SLUG_MAX_BYTES);
    let r = trim_end_matching(&cut, '-');
    if r.len() == 0 {
        return String::from_str("article");
    }
    string_of(&r)
}


// ---------------------------------------------------------------------------
// Dedenting
// ---------------------------------------------------------------------------

/// Number of spaces and tabs that `l` starts with.
pub open spec fn indent_of(l: Seq<char>) -> nat
    decreases l.len(),
{
    if l.len() > 0 && (l[0] == ' ' || l[0] == '\t') {
        1 + indent_of(l.drop_first())
    } else {
        0
    }
}

/// The smallest indent among the lines that hold more than whitespace, if any does.
pub open spec fn min_indent(ls: Seq<Seq<char>>) -> Option<nat>
    decreases ls.len(),
{
    if ls.len() == 0 {
        None
    } else {
        let rest = min_indent(ls.drop_first());
        if all_ws(ls[0]) {
            rest
        } else {
            match rest {
                None => Some(indent_of(ls[0])),
                Some(m) => Some(if indent_of(ls[0]) < m {
                    indent_of(ls[0])
                } else {
                    m
                }),
            }
        }
    }
}

/// A line once `m` columns of indent are taken off: blank lines become empty.
pub open spec fn dedent_line(l: Seq<char>, m: nat) -> Seq<char> {
    if all_ws(l) {
        Seq::empty()
    } else {
        l.skip(m as int)
    }
}

/// `text` with the indent common to its non-blank lines removed: unchanged where that
/// indent is zero, otherwise its lines, blank ones emptied, joined with `'\n'`.
pub open spec fn dedent(text: Seq<char>) -> Seq<char> {
    let ls = lines(text);
    let m: nat = match min_indent(ls) {
        Some(m) => m,
        None => 0,
    };
    if ls.len() == 0 {
        Seq::empty()
    } else if m == 0 {
        text
    } else {
        join(ls.map_values(|l: Seq<char>| dedent_line(l, m)), seq!['\n'])
    }
}

proof fn lemma_indent_bound(l: Seq<char>)
    ensures
        indent_of(l) <= l.len(),
        forall|k: int| 0 <= k < indent_of(l) ==> (#[trigger] l[k] == ' ' || l[k] == '\t'),
        indent_of(l) < l.len() ==> !(l[indent_of(l) as int] == ' ' || l[indent_of(l) as int]
            == '\t'),
    decreases l.len(),
{
    if l.len() > 0 && (l[0] == ' ' || l[0] == '\t') {
        lemma_indent_bound(l.drop_first());
        assert forall|k: int| 0 <= k < indent_of(l) implies (#[trigger] l[k] == ' ' || l[k]
            == '\t') by {
            if k > 0 {
                assert(l[k] == l.drop_first()[k - 1]);
            }
        }
    }
}

/// Number of spaces and tabs that `l` starts with.
fn indent_exec(l: &Vec<char>) -> (n: usize)
    ensures
        n == indent_of(l@),
{
    let mut i: usize = 0;
    proof {
        assert(l@.skip(0) =~= l@);
    }
    while i < l.len() && (l[i] == ' ' || l[i] == '\t')
        invariant
            i <= l.len(),
            indent_of(l@) == i + indent_of(l@.skip(i as int)),
        decreases l.len() - i,
    {
        proof {
            assert(l@.skip(i as int).drop_first() =~= l@.skip(i + 1));
        }
        i += 1;
    }
    i
}

/// The smallest indent among the lines that hold more than whitespace.
fn min_indent_exec(ls: &Vec<Vec<char>>) -> (r: Option<usize>)
    ensures
        match r {
            Some(m) => min_indent(views(ls@)) == Some(m as nat),
            None => min_indent(views(ls@)) is None,
        },
{
    let ghost vs = views(ls@);
    let mut best: Option<usize> = None;
    let mut i: usize = ls.len();
    proof {
        assert(vs.skip(ls.len() as int) =~= Seq::<Seq<char>>::empty());
    }
    while i > 0
        invariant
            i <= ls.len(),
            vs == views(ls@),
            match best {
                Some(m) => min_indent(vs.skip(i as int)) == Some(m as nat),
                None => min_indent(vs.skip(i as int)) is None,
            },
        decreases i,
    {
        i -= 1;
        proof {
            assert(vs.skip(i as int).drop_first() =~= vs.skip(i + 1));
            assert(vs.skip(i as int)[0] == ls@[i as int]@);
        }
        if !is_blank(&ls[i]) {
            let n = indent_exec(&ls[i]);
            best = match best {
                None => Some(n),
                Some(m) => Some(if n < m {
                    n
                } else {
                    m
                }),
            };
        }
    }
    proof {
        assert(vs.skip(0) =~= vs);
    }
    best
}

/// `v` with the indent common to its non-blank lines removed.
pub fn dedent_chars(v: &Vec<char>) -> (r: Vec<char>)
    ensures
        r@ == dedent(v@),
{
    let ls = split_lines(v);
    if ls.len() == 0 {
        return Vec::new();
    }
    let m: usize = match min_indent_exec(&ls) {
        Some(m) => m,
        None => 0,
    };
    if m == 0 {
        return slice_chars(v, 0, v.len());
    }
    let ghost vs = views(ls@);
    let mut out: Vec<Vec<char>> = Vec::new();
    let mut i: usize = 0;
    while i < ls.len()
        invariant
            i <= ls.len(),
            vs == views(ls@),
            vs == lines(v@),
            min_indent(vs) == Some(m as nat),
            views(out@) == vs.take(i as int).map_values(|l: Seq<char>| dedent_line(l, m as nat)),
        decreases ls.len() - i,
    {
        let line = &ls[i];
        let d: Vec<char> = if is_blank(line) {
            Vec::new()
        } else {
            proof {
                lemma_min_indent_le(vs, i as int);
                lemma_indent_bound(line@);
            }
            slice_chars(line, m, line.len())
        };
        proof {
            assert(d@ == dedent_line(vs[i as int], m as nat));
        }
        let ghost prev = views(out@);
        out.push(d);
        proof {
            assert(views(out@) =~= prev.push(d@));
            assert(vs.take(i + 1).map_values(|l: Seq<char>| dedent_line(l, m as nat)) =~= vs.take(
                i as int,
            ).map_values(|l: Seq<char>| dedent_line(l, m as nat)).push(
                dedent_line(vs[i as int], m as nat),
            ));
        }
        i += 1;
    }
    proof {
        assert(vs.take(ls.len() as int) =~= vs);
    }
    let nl: Vec<char> = vec!['\n'];
    proof {
        assert(nl@ =~= seq!['\n']);
    }
    join_exec(&out, &nl)
}

proof fn lemma_min_indent_le(ls: Seq<Seq<char>>, i: int)
    requires
        0 <= i < ls.len(),
        !all_ws(ls[i]),
    ensures
        min_indent(ls) is Some,
        min_indent(ls)->0 <= indent_of(ls[i]),
    decreases ls.len(),
{
    if i > 0 {
        assert(ls.drop_first()[i - 1] == ls[i]);
        lemma_min_indent_le(ls.drop_first(), i - 1);
    }
}

/// Removes the indent common to the non-blank lines of `text`; the text comes back as it
/// was where that indent is zero, and otherwise as its lines joined with `'\n'`.
pub fn dedent_text(text: &str) -> (r: String)
    ensures
        r@ == dedent(text@),
{
    let v = chars_of(text);
    let d = dedent_chars(&v);
    string_of(&d)
}

// ---------------------------------------------------------------------------
// Code blocks
// ---------------------------------------------------------------------------

/// The fence that opens and closes a code block.
pub open spec fn fence() -> Seq<char> {
    seq!['`', '`', '`']
}

/// A newline followed by a fence: where a code block closes.
pub open spec fn closing_fence() -> Seq<char> {
    seq!['\n', '`', '`', '`']
}

/// The first position at or after `p` that holds no `'\n'`.
pub open spec fn skip_newlines(md: Seq<char>, p: int) -> int
    decreases md.len() - p,
{
    if 0 <= p < md.len() && md[p] == '\n' {
        skip_newlines(md, p + 1)
    } else {
        p
    }
}

pub proof fn lemma_skip_newlines(md: Seq<char>, p: int)
    requires
        0 <= p <= md.len(),
    ensures
        p <= skip_newlines(md, p) <= md.len(),
    decreases md.len() - p,
{
    if 0 <= p < md.len() && md[p] == '\n' {
        lemma_skip_newlines(md, p + 1);
    }
}

/// `prefix` in front of what a rest of the text gives, or `None` where the rest fails.
pub open spec fn prepend(prefix: Seq<char>, rest: Option<Seq<char>>) -> Option<Seq<char>> {
    match rest {
        Some(r) => Some(prefix + r),
        None => None,
    }
}

/// What dedenting the code blocks of `md` gives from position `pos` on. At a fence, the
/// fence line is copied and the code up to the closing fence (or to the end) is dedented;
/// elsewhere the text is copied up to the next fence; after either, newlines are skipped.
/// `None` where a fence line has no newline after it: no code can start there.
pub open spec fn dedent_blocks_from(md: Seq<char>, pos: int) -> Option<Seq<char>>
    decreases md.len() - pos,
{
    if pos < 0 || pos >= md.len() {
        Some(Seq::empty())
    } else if matches_at(md, fence(), pos) {
        let fence_end = match find_from(md, seq!['\n'], pos + 3) {
            Some(j) => j,
            None => md.len() as int,
        };
        let content_start = fence_end + 1;
        if content_start > md.len() {
            None
        } else {
            proof {
                if find_from(md, seq!['\n'], pos + 3) is Some {
                    lemma_find_from_found(md, seq!['\n'], pos + 3);
                }
            }
            let fence_line = md.subrange(pos, fence_end);
            match find_from(md, closing_fence(), content_start) {
                Some(k) => {
                    proof {
                        lemma_find_from_found(md, closing_fence(), content_start);
                        lemma_skip_newlines(md, k + 4);
                    }
                    prepend(
                        fence_line + seq!['\n'] + dedent(md.subrange(content_start, k))
                            + seq!['\n', '`', '`', '`', '\n'],
                        dedent_blocks_from(md, skip_newlines(md, k + 4)),
                    )
                },
                None => Some(
                    fence_line + seq!['\n'] + dedent(md.subrange(content_start, md.len() as int)),
                ),
            }
        }
    } else {
        let next_fence = match find_from(md, fence(), pos + 1) {
            Some(j) => j,
            None => md.len() as int,
        };
        proof {
            if find_from(md, fence(), pos + 1) is Some {
                lemma_find_from_found(md, fence(), pos + 1);
            }
            lemma_skip_newlines(md, next_fence);
        }
        prepend(md.subrange(pos, next_fence), dedent_blocks_from(md, skip_newlines(md, next_fence)))
    }
}

/// What dedenting the code blocks of `md` gives; `None` where `md` has a fence with no
/// newline after it.
pub open spec fn dedent_blocks(md: Seq<char>) -> Option<Seq<char>> {
    dedent_blocks_from(md, 0)
}

/// The first position at or after `p` that holds no `'\n'`.
fn skip_newlines_exec(md: &Vec<char>, p: usize) -> (q: usize)
    requires
        p <= md.len(),
    ensures
        q == skip_newlines(md@, p as int),
{
    let mut q = p;
    while q < md.len() && md[q] == '\n'
        invariant
            p <= q <= md.len(),
            skip_newlines(md@, p as int) == skip_newlines(md@, q as int),
        decreases md.len() - q,
    {
        q += 1;
    }
    q
}

/// The views of an optional character vector.
pub open spec fn opt_chars_view(o: Option<Vec<char>>) -> Option<Seq<char>> {
    match o {
        Some(v) => Some(v@),
        None => None,
    }
}

/// Dedents the code blocks of `md`; `None` where `md` has a fence with no newline after it.
pub fn dedent_blocks_checked(md: &Vec<char>) -> (r: Option<Vec<char>>)
    ensures
        opt_chars_view(r) == dedent_blocks(md@),
{
    let mut result: Vec<char> = Vec::new();
    let mut pos: usize = 0;
    let fence_v: Vec<char> = vec!['`', '`', '`'];
    let close_v: Vec<char> = vec!['\n', '`', '`', '`'];
    let nl_v: Vec<char> = vec!['\n'];
    proof {
        assert(fence_v@ =~= fence());
        assert(close_v@ =~= closing_fence());
        assert(nl_v@ =~= seq!['\n']);
        assert(result@ + md@.subrange(0, 0) =~= result@);
    }
    while pos < md.len()
        invariant
            pos <= md.len(),
            fence_v@ == fence(),
            close_v@ == closing_fence(),
            nl_v@ == seq!['\n'],
            dedent_blocks(md@) == prepend(result@, dedent_blocks_from(md@, pos as int)),
        decreases md.len() - pos,
    {
        let ghost before = result@;
        if matches_at_exec(md, &fence_v, pos) {
            let fence_end: usize = match find_from_exec(md, &nl_v, pos + 3) {
                Some(j) => {
                    proof {
                        lemma_find_from_found(md@, nl_v@, pos + 3);
                    }
                    j
                },
                None => md.len(),
            };
            if fence_end >= md.len() {
                // a fence with no newline after it: no code block can start here
                proof {
                    assert(dedent_blocks_from(md@, pos as int) is None);
                }
                return None;
            }
            let content_start = fence_end + 1;
            let fence_line = slice_chars(md, pos, fence_end);
            match find_from_exec(md, &close_v, content_start) {
                Some(k) => {
                    proof {
                        lemma_find_from_found(md@, close_v@, content_start as int);
                    }
                    let code = slice_chars(md, content_start, k);
                    let d = dedent_chars(&code);
                    extend_chars(&mut result, &fence_line);
                    result.push('\n');
                    extend_chars(&mut result, &d);
                    let tail: Vec<char> = vec!['\n', '`', '`', '`', '\n'];
                    extend_chars(&mut result, &tail);
                    proof {
                        assert(result@ =~= before + (fence_line@ + seq!['\n'] + d@ + seq![
                            '\n',
                            '`',
                            '`',
                            '`',
                            '\n',
                        ]));
                        lemma_skip_newlines(md@, k + 4);
                    }
                    pos = skip_newlines_exec(md, k + 4);
                    proof {
                        lemma_prepend_assoc(before, fence_line@ + seq!['\n'] + d@ + seq![
                            '\n',
                            '`',
                            '`',
                            '`',
                            '\n',
                        ], dedent_blocks_from(md@, pos as int));
                    }
                },
                None => {
                    let code = slice_chars(md, content_start, md.len());
                    let d = dedent_chars(&code);
                    extend_chars(&mut result, &fence_line);
                    result.push('\n');
                    extend_chars(&mut result, &d);
                    proof {
                        assert(result@ =~= before + (fence_line@ + seq!['\n'] + d@));
                    }
                    return Some(result);
                },
            }
        } else {
            let next_fence: usize = match find_from_exec(md, &fence_v, pos + 1) {
                Some(j) => {
                    proof {
                        lemma_find_from_found(md@, fence_v@, pos + 1);
                    }
                    j
                },
                None => md.len(),
            };
            let piece = slice_chars(md, pos, next_fence);
            extend_chars(&mut result, &piece);
            proof {
                lemma_skip_newlines(md@, next_fence as int);
            }
            pos = skip_newlines_exec(md, next_fence);
            proof {
                lemma_prepend_assoc(before, piece@, dedent_blocks_from(md@, pos as int));
            }
        }
    }
    proof {
        assert(result@ + Seq::<char>::empty() =~= result@);
    }
    Some(result)
}

proof fn lemma_prepend_assoc(a: Seq<char>, b: Seq<char>, rest: Option<Seq<char>>)
    ensures
        prepend(a, prepend(b, rest)) == prepend(a + b, rest),
{
    if let Some(r) = rest {
        assert(a + (b + r) =~= a + b + r);
    }
}

/// Removes the indent common to the lines of each fenced code block of `md`, and drops
/// the newlines that follow a block or a run of text.
pub fn dedent_code_blocks(md: &str) -> (r: String)
    requires
        dedent_blocks(md@) is Some,
    ensures
        Some(r@) == dedent_blocks(md@),
{
    let v = chars_of(md);
    match dedent_blocks_checked(&v) {
        Some(d) => string_of(&d),
        None => String::new(),
    }
}

// ---------------------------------------------------------------------------
// Images
// ---------------------------------------------------------------------------

/// The pattern that finds the source URL of each `<img>` tag.
pub const IMG_SRC_PATTERN: &'static str = "<img[^>]+src=[\"']([^\"']+)[\"']";

/// The part of a URL before its first `'?'`.
pub open spec fn url_path(url: Seq<char>) -> Seq<char> {
    match find(url, seq!['?']) {
        Some(i) => url.take(i),
        None => url,
    }
}

/// The image format that a URL's path names, compared without regard to case:
/// `.png` → `png`, `.jpg`/`.jpeg` → `jpg`, `.gif` → `gif`, `.webp` → `webp`,
/// `.bmp` → `bmp`, anything else → `png`.
pub open spec fn image_ext_of(url: Seq<char>) -> Seq<char> {
    ext_of_lowercase(unicode_lowercase(url_path(url)))
}

/// The image format that a lowercased path names by its ending.
pub open spec fn ext_of_lowercase(lower: Seq<char>) -> Seq<char> {
    if ends_with(lower, ".png"@) {
        "png"@
    } else if ends_with(lower, ".jpg"@) || ends_with(lower, ".jpeg"@) {
        "jpg"@
    } else if ends_with(lower, ".gif"@) {
        "gif"@
    } else if ends_with(lower, ".webp"@) {
        "webp"@
    } else if ends_with(lower, ".bmp"@) {
        "bmp"@
    } else {
        "png"@
    }
}

/// The image format that an already lowercased URL path names by its ending.
pub fn image_ext_from_lowercase(lower: &str) -> (r: String)
    ensures
        r@ == ext_of_lowercase(lower@),
{
    let lower = chars_of(lower);
    if ends_with_exec(&lower, &chars_of(".png")) {
        String::from_str("png")
    } else if ends_with_exec(&lower, &chars_of(".jpg")) || ends_with_exec(
        &lower,
        &chars_of(".jpeg"),
    ) {
        String::from_str("jpg")
    } else if ends_with_exec(&lower, &chars_of(".gif")) {
        String::from_str("gif")
    } else if ends_with_exec(&lower, &chars_of(".webp")) {
        String::from_str("webp")
    } else if ends_with_exec(&lower, &chars_of(".bmp")) {
        String::from_str("bmp")
    } else {
        String::from_str("png")
    }
}

/// Infers an image's file extension from its URL, ignoring the query and case.
pub fn image_ext_from_url(url: &str) -> (r: String)
    ensures
        r@ == image_ext_of(url@),
{
    let v = chars_of(url);
    let q: Vec<char> = vec!['?'];
    proof {
        assert(q@ =~= seq!['?']);
    }
    let path = match find_from_exec(&v, &q, 0) {
        Some(i) => {
            proof {
                lemma_find_from_found(v@, q@, 0);
            }
            slice_chars(&v, 0, i)
        },
        None => slice_chars(&v, 0, v.len()),
    };
    proof {
        assert(path@ =~= url_path(url@));
    }
    let path_s = string_of(&path);
    let lower_s = to_lowercase(path_s.as_str());
    image_ext_from_lowercase(lower_s.as_str())
}

/// An image found in converted HTML: its position, its format and where it is fetched from.
pub struct ExtractedImage {
    pub index: usize,
    pub format: String,
    pub url: String,
}

impl View for ExtractedImage {
    type V = (int, Seq<char>, Seq<char>);

    open spec fn view(&self) -> (int, Seq<char>, Seq<char>) {
        (self.index as int, self.format@, self.url@)
    }
}

/// The Markdown of a converted page and the images found in it.
pub struct ConversionResult {
    pub markdown: String,
    pub images: Vec<ExtractedImage>,
}

/// The views of a vector of images.
pub open spec fn image_views(v: Seq<ExtractedImage>) -> Seq<(int, Seq<char>, Seq<char>)> {
    v.map_values(|img: ExtractedImage| img@)
}

impl View for ConversionResult {
    type V = (Seq<char>, Seq<(int, Seq<char>, Seq<char>)>);

    open spec fn view(&self) -> (Seq<char>, Seq<(int, Seq<char>, Seq<char>)>) {
        (self.markdown@, image_views(self.images@))
    }
}

/// A capture taken as a string, empty where the group did not take part.
pub open spec fn capture_text(o: Option<Seq<char>>) -> Seq<char> {
    match o {
        Some(s) => s,
        None => Seq::empty(),
    }
}

/// The non-empty `src` URLs of the `<img>` tags of `html`, in order.
pub open spec fn img_sources(html: Seq<char>) -> Seq<Seq<char>> {
    regex_group1(IMG_SRC_PATTERN@, html).map_values(|o: Option<Seq<char>>| capture_text(o)).filter(
        |u: Seq<char>| u.len() > 0,
    )
}

/// The images of a page: the `i`-th source URL with index `i` and the format its URL names.
pub open spec fn image_list(srcs: Seq<Seq<char>>) -> Seq<(int, Seq<char>, Seq<char>)> {
    Seq::new(srcs.len(), |i: int| (i, image_ext_of(srcs[i]), srcs[i]))
}

/// How Markdown refers to an image at `url`: `](url)`.
pub open spec fn image_ref(url: Seq<char>) -> Seq<char> {
    seq![']', '('] + url + seq![')']
}

/// How Markdown refers to the local copy of image `i`: `](imgs/i.ext)`.
pub open spec fn local_image_ref(i: nat, ext: Seq<char>) -> Seq<char> {
    seq![']', '(', 'i', 'm', 'g', 's', '/'] + decimal(i) + seq!['.'] + ext + seq![')']
}

/// `md` with the references to images `i` onwards pointed at their local copies.
pub open spec fn localize_from(md: Seq<char>, srcs: Seq<Seq<char>>, i: int) -> Seq<char>
    decreases srcs.len() - i,
{
    if i < 0 || i >= srcs.len() {
        md
    } else {
        localize_from(
            replace_all(md, image_ref(srcs[i]), local_image_ref(i as nat, image_ext_of(srcs[i]))),
            srcs,
            i + 1,
        )
    }
}

/// What converting `html` gives: the converter's Markdown (empty where it gave none),
/// with image references pointed at `imgs/` when `localize` holds, code blocks dedented;
/// and the page's images. `None` where the image pattern does not compile, the converter
/// fails, or the Markdown has a fence with no newline after it.
pub open spec fn conversion(html: Seq<char>, localize: bool) -> Option<
    (Seq<char>, Seq<(int, Seq<char>, Seq<char>)>),
> {
    if !regex_compiles(IMG_SRC_PATTERN@) {
        None
    } else {
        match markdown_of(html) {
            None => None,
            Some(content) => {
                let md0 = capture_text(content);
                let srcs = img_sources(html);
                let md1 = if localize {
                    localize_from(md0, srcs, 0)
                } else {
                    md0
                };
                match dedent_blocks(md1) {
                    None => None,
                    Some(md) => Some((md, image_list(srcs))),
                }
            },
        }
    }
}

/// The non-empty `src` URLs of the `<img>` tags of `html`, each with the format it names.
fn extract_img_srcs(html: &str) -> (r: Vec<(String, String)>)
    requires
        regex_compiles(IMG_SRC_PATTERN@),
    ensures
        r@.len() == img_sources(html@).len(),
        forall|i: int|
            0 <= i < r@.len() ==> (#[trigger] r@[i]).0@ == img_sources(html@)[i] && r@[i].1@
                == image_ext_of(img_sources(html@)[i]),
{
    let mut results: Vec<(String, String)> = Vec::new();
    let p = match compile_pattern(IMG_SRC_PATTERN) {
        Ok(p) => p,
        Err(_) => {
            return results;
        },
    };
    let caps = group1_matches(&p, html);
    let ghost texts = regex_group1(IMG_SRC_PATTERN@, html@).map_values(
        |o: Option<Seq<char>>| capture_text(o),
    );
    let mut i: usize = 0;
    while i < caps.len()
        invariant
            i <= caps.len(),
            texts.len() == caps@.len(),
            forall|k: int| 0 <= k < caps@.len() ==> #[trigger] texts[k] == capture_text(
                opt_string_views(caps@)[k],
            ),
            results@.len() == texts.take(i as int).filter(|u: Seq<char>| u.len() > 0).len(),
            forall|k: int|
                0 <= k < results@.len() ==> (#[trigger] results@[k]).0@ == texts.take(
                    i as int,
                ).filter(|u: Seq<char>| u.len() > 0)[k] && results@[k].1@ == image_ext_of(
                    texts.take(i as int).filter(|u: Seq<char>| u.len() > 0)[k],
                ),
        decreases caps.len() - i,
    {
        let url: String = match &caps[i] {
            Some(s) => s.clone(),
            None => String::new(),
        };
        proof {
            assert(url@ == texts[i as int]);
            reveal_with_fuel(Seq::filter, 1);
            assert(texts.take(i + 1).drop_last() =~= texts.take(i as int));
        }
        let uv = chars_of(url.as_str());
        if uv.len() > 0 {
            let ext = image_ext_from_url(url.as_str());
            results.push((url, ext));
        }
        i += 1;
    }
    proof {
        assert(texts.take(caps.len() as int) =~= texts);
    }
    results
}

proof fn lemma_localize_step(md: Seq<char>, srcs: Seq<Seq<char>>, i: int)
    requires
        0 <= i < srcs.len(),
    ensures
        localize_from(md, srcs, i) == localize_from(
            replace_all(md, image_ref(srcs[i]), local_image_ref(i as nat, image_ext_of(srcs[i]))),
            srcs,
            i + 1,
        ),
{
}

/// The view of an optional conversion result.
pub open spec fn opt_conversion_view(o: Option<ConversionResult>) -> Option<
    (Seq<char>, Seq<(int, Seq<char>, Seq<char>)>),
> {
    match o {
        Some(r) => Some(r@),
        None => None,
    }
}

/// Converts HTML to Markdown; `None` exactly where `conversion` says the conversion fails.
fn convert_checked(html: &str, localize_image_refs: bool) -> (r: Option<ConversionResult>)
    ensures
        opt_conversion_view(r) == conversion(html@, localize_image_refs),
{
    match compile_pattern(IMG_SRC_PATTERN) {
        Ok(_) => {},
        Err(_) => {
            return None;
        },
    }
    let img_urls = extract_img_srcs(html);
    let ghost srcs = img_sources(html@);
    let content = html_to_markdown(html);
    let md0: Vec<char> = match content {
        Ok(Some(c)) => chars_of(c.as_str()),
        Ok(None) => Vec::new(),
        Err(_) => {
            return None;
        },
    };
    let mut markdown = md0;
    let mut images: Vec<ExtractedImage> = Vec::new();
    let mut i: usize = 0;
    while i < img_urls.len()
        invariant
            i <= img_urls.len(),
            img_urls@.len() == srcs.len(),
            forall|k: int|
                0 <= k < img_urls@.len() ==> (#[trigger] img_urls@[k]).0@ == srcs[k]
                    && img_urls@[k].1@ == image_ext_of(srcs[k]),
            localize_image_refs ==> localize_from(md0@, srcs, 0) == localize_from(
                markdown@,
                srcs,
                i as int,
            ),
            !localize_image_refs ==> markdown@ == md0@,
            image_views(images@) == image_list(srcs).take(i as int),
        decreases img_urls.len() - i,
    {
        let url = &img_urls[i].0;
        let ext = &img_urls[i].1;
        if localize_image_refs {
            let mut old_ref: Vec<char> = vec![']', '('];
            extend_chars(&mut old_ref, &chars_of(url.as_str()));
            old_ref.push(')');
            let mut new_ref: Vec<char> = vec![']', '(', 'i', 'm', 'g', 's', '/'];
            extend_chars(&mut new_ref, &decimal_exec(i as u64));
            new_ref.push('.');
            extend_chars(&mut new_ref, &chars_of(ext.as_str()));
            new_ref.push(')');
            proof {
                assert(old_ref@ =~= image_ref(srcs[i as int]));
                assert(new_ref@ =~= local_image_ref(i as nat, image_ext_of(srcs[i as int])));
                lemma_localize_step(markdown@, srcs, i as int);
            }
            markdown = replace_all_exec(&markdown, &old_ref, &new_ref);
        }
        let ghost prev = image_views(images@);
        images.push(ExtractedImage { index: i, format: ext.clone(), url: url.clone() });
        proof {
            assert(image_views(images@) =~= prev.push((i as int, ext@, url@)));
            assert(image_list(srcs).take(i + 1) =~= image_list(srcs).take(i as int).push(
                image_list(srcs)[i as int],
            ));
        }
        i += 1;
    }
    proof {
        assert(image_list(srcs).take(img_urls.len() as int) =~= image_list(srcs));
    }
    match dedent_blocks_checked(&markdown) {
        Some(md) => Some(ConversionResult { markdown: string_of(&md), images }),
        None => None,
    }
}

/// Whether converting `html` succeeds, that is, where `convert_html` (when `localize` is
/// false) or `convert_html_for_download` (when it holds) can be called.
pub fn conversion_succeeds(html: &str, localize: bool) -> (b: bool)
    ensures
        b == conversion(html@, localize) is Some,
{
    match convert_checked(html, localize) {
        Some(_) => true,
        None => false,
    }
}

fn convert_html_internal(html: &str, localize_image_refs: bool) -> (r: ConversionResult)
    requires
        conversion(html@, localize_image_refs) is Some,
    ensures
        Some(r@) == conversion(html@, localize_image_refs),
{
    match convert_checked(html, localize_image_refs) {
        Some(r) => r,
        None => ConversionResult { markdown: String::new(), images: Vec::new() },
    }
}

/// Converts HTML to Markdown, leaving image URLs as they are, and lists the page's images.
pub fn convert_html(html: &str) -> (r: ConversionResult)
    requires
        conversion(html@, false) is Some,
    ensures
        Some(r@) == conversion(html@, false),
{
    convert_html_internal(html, false)
}

/// Converts HTML to Markdown with each image reference pointed at `imgs/<index>.<format>`,
/// and lists the page's images.
pub fn convert_html_for_download(html: &str) -> (r: ConversionResult)
    requires
        conversion(html@, true) is Some,
    ensures
        Some(r@) == conversion(html@, true),
{
    convert_html_internal(html, true)
}

// ---------------------------------------------------------------------------
// Page header and tail
// ---------------------------------------------------------------------------

/// The paragraph that holds the cover image at the top of `content_html`.
pub const COVER_PATTERN: &'static str = "<p><img\\s+alt=\"cover_image\"[^>]*></p>";

/// The title heading at the top of `content_html`.
pub const H1_PATTERN: &'static str = "<h1[^>]*>.*?</h1>";

/// The author line (starting with 原创) at the top of `content_html`.
pub const AUTHOR_PATTERN: &'static str = "<p>\\s*原创.*?</p>";

/// The three header patterns compile.
pub open spec fn header_patterns_compile() -> bool {
    regex_compiles(COVER_PATTERN@) && regex_compiles(H1_PATTERN@) && regex_compiles(
        AUTHOR_PATTERN@,
    )
}

/// `html` with its first cover paragraph, then its first `<h1>`, then its first author line
/// removed, and trimmed.
pub open spec fn stripped_header(html: Seq<char>) -> Seq<char> {
    trim_ws(
        regex_first_removed(
            AUTHOR_PATTERN@,
            regex_first_removed(H1_PATTERN@, regex_first_removed(COVER_PATTERN@, html)),
        ),
    )
}

/// Removes the cover image, the title heading and the author line from the top of an
/// article's full HTML, and trims the rest.
pub fn strip_content_html_header(html: &str) -> (r: String)
    requires
        header_patterns_compile(),
    ensures
        r@ == stripped_header(html@),
{
    let (cover, h1, author) = match (
        compile_pattern(COVER_PATTERN),
        compile_pattern(H1_PATTERN),
        compile_pattern(AUTHOR_PATTERN),
    ) {
        (Ok(c), Ok(h), Ok(a)) => (c, h, a),
        _ => {
            return String::new();
        },
    };
    let s1 = remove_first_match(&cover, html);
    let s2 = remove_first_match(&h1, s1.as_str());
    let s3 = remove_first_match(&author, s2.as_str());
    let v = chars_of(s3.as_str());
    let t = trim_chars(&v);
    string_of(&t)
}

/// The lines at which WeChat's page furniture begins: the text is cut at the first of each.
pub open spec fn tail_markers() -> Seq<Seq<char>> {
    seq!["\n预览时标签不可点"@, "\n微信扫一扫"@, "\n使用小程序"@, "\n打开小程序"@]
}

/// The button labels that WeChat leaves on lines of their own.
pub open spec fn ui_words() -> Seq<Seq<char>> {
    seq![
        "知道了"@,
        "打开小程序"@,
        "打开"@,
        "允许"@,
        "取消"@,
        "视频"@,
        "小程序"@,
        "赞"@,
        "在看"@,
        "分享"@,
        "留言"@,
        "收藏"@,
        "听过"@,
        "跳过"@,
        "轻触阅读原文"@,
        "向上滑动看下一个"@,
        "向下滑动看下一个"@,
    ]
}

/// `t` cut at the first occurrence of `m`, if any.
pub open spec fn cut_at(t: Seq<char>, m: Seq<char>) -> Seq<char> {
    match find(t, m) {
        Some(i) => t.take(i),
        None => t,
    }
}

/// `t` cut at each marker of `ms` in turn.
pub open spec fn cut_at_all(t: Seq<char>, ms: Seq<Seq<char>>) -> Seq<char>
    decreases ms.len(),
{
    if ms.len() == 0 {
        t
    } else {
        cut_at_all(cut_at(t, ms[0]), ms.drop_first())
    }
}

/// Every line of `ls` holds only whitespace.
pub open spec fn all_blank(ls: Seq<Seq<char>>) -> bool {
    forall|j: int| 0 <= j < ls.len() ==> all_ws(#[trigger] ls[j])
}

/// A button line, given the lines kept after it: a button label on its own, or a label
/// with trailing whitespace where only blank lines are kept after it (trimming the text
/// would leave the label alone on its last line).
pub open spec fn is_button_line(l: Seq<char>, rest: Seq<Seq<char>>) -> bool {
    ui_words().contains(l) || (all_blank(rest) && ui_words().contains(trim_end_ws(l)))
}

/// The lines of `ls` that are kept, deciding from the last line back.
pub open spec fn drop_button_tail(ls: Seq<Seq<char>>) -> Seq<Seq<char>>
    decreases ls.len(),
{
    if ls.len() == 0 {
        Seq::empty()
    } else {
        let rest = drop_button_tail(ls.drop_first());
        if is_button_line(ls[0], rest) {
            rest
        } else {
            seq![ls[0]] + rest
        }
    }
}

/// `ls` without its button lines; the first line always stays.
pub open spec fn drop_button_lines(ls: Seq<Seq<char>>) -> Seq<Seq<char>> {
    if ls.len() == 0 {
        ls
    } else {
        seq![ls[0]] + drop_button_tail(ls.drop_first())
    }
}

/// `t` without its isolated button lines: a label is removed, with the `'\n'` before it,
/// only where it fills a whole line (followed at most by whitespace, where nothing but
/// blank lines is kept after it).
pub open spec fn remove_button_lines(t: Seq<char>) -> Seq<char> {
    join(drop_button_lines(split_on(t, '\n')), seq!['\n'])
}

/// What `clean_tail` makes of a text.
pub open spec fn cleaned_tail(text: Seq<char>) -> Seq<char> {
    trim_ws(remove_button_lines(cut_at_all(text, tail_markers())))
}

/// `m` starts with `'\n'`, holds no other, and has a character after it.
pub open spec fn newline_led(m: Seq<char>) -> bool {
    m.len() >= 2 && m[0] == '\n' && forall|q: int| 1 <= q < m.len() ==> #[trigger] m[q] != '\n'
}

proof fn lemma_tail_markers_led()
    ensures
        forall|k: int| 0 <= k < 4 ==> newline_led(#[trigger] tail_markers()[k]),
        forall|k: int, l: int|
            0 <= k < 4 && 0 <= l < 4 && k != l ==> (#[trigger] tail_markers()[k])[1] != (
            #[trigger] tail_markers()[l])[1],
        tail_markers().len() == 4,
{
    reveal_strlit("\n预览时标签不可点");
    reveal_strlit("\n微信扫一扫");
    reveal_strlit("\n使用小程序");
    reveal_strlit("\n打开小程序");
}

/// Where `t` is followed by text that starts with `'\n'`, a newline-led marker is first
/// found where it is first found in `t`, or not within `t` at all.
proof fn lemma_find_across(t: Seq<char>, u: Seq<char>, mk: Seq<char>)
    requires
        u.len() > 0,
        u[0] == '\n',
        newline_led(mk),
    ensures
        find(t, mk) is Some ==> find(t + u, mk) == find(t, mk),
        find(t, mk) is None ==> find(t + u, mk) is None || find(t + u, mk)->0 >= t.len(),
{
    let h = t + u;
    assert forall|p: int| 0 <= p < t.len() implies matches_at(h, mk, p) == matches_at(t, mk, p) by {
        if p + mk.len() <= t.len() {
            assert(h.subrange(p, p + mk.len()) =~= t.subrange(p, p + mk.len()));
        } else {
            let q = t.len() - p;
            if matches_at(h, mk, p) {
                assert(h.subrange(p, p + mk.len())[q] == h[t.len() as int]);
                assert(mk[q] != '\n');
            }
        }
    }
    match find(t, mk) {
        Some(i) => {
            lemma_find_from_found(t, mk, 0);
            lemma_find_at(h, mk, i);
        },
        None => {
            lemma_find_from_none(t, mk, 0);
            match find(h, mk) {
                Some(j) => {
                    lemma_find_from_found(h, mk, 0);
                    if j < t.len() {
                        assert(matches_at(t, mk, j));
                    }
                },
                None => {},
            }
        },
    }
}

/// Cutting `t + u`, where `u` starts with the marker `m`, at another marker `mk` cuts `t`
/// as it would alone, or leaves `t` whole with a rest that still starts with `m`.
proof fn lemma_cut_across(t: Seq<char>, u: Seq<char>, m: Seq<char>, mk: Seq<char>)
    requires
        newline_led(m),
        newline_led(mk),
        m == mk || m[1] != mk[1],
        matches_at(u, m, 0),
    ensures
        cut_at(t + u, mk) == cut_at(t, mk) || (m != mk && exists|u2: Seq<char>|
            matches_at(u2, m, 0) && cut_at(t + u, mk) == cut_at(t, mk) + u2),
{
    let h = t + u;
    assert(u[0] == m[0]) by {
        assert(u.subrange(0, m.len() as int)[0] == u[0]);
    }
    lemma_find_across(t, u, mk);
    match find(t, mk) {
        Some(i) => {
            lemma_find_from_found(t, mk, 0);
            assert(h.take(i) =~= t.take(i));
        },
        None => {
            match find(h, mk) {
                None => {
                    let tl = t.len() as int;
                    lemma_find_from_none(h, mk, 0);
                    if m == mk {
                        assert(h.subrange(tl, tl + m.len()) =~= u.subrange(0, m.len() as int));
                        assert(matches_at(h, mk, tl));
                    }
                    assert(cut_at(t, mk) + u =~= h);
                },
                Some(j) => {
                    lemma_find_from_found(h, mk, 0);
                    let tl = t.len() as int;
                    if m == mk {
                        assert(matches_at(h, mk, tl)) by {
                            assert(h.subrange(tl, tl + m.len()) =~= u.subrange(0, m.len() as int));
                        }
                        assert(j == tl);
                        assert(h.take(j) =~= t);
                    } else {
                        if j < tl + m.len() {
                            assert(h[j] == mk[0]) by {
                                assert(h.subrange(j, j + mk.len())[0] == h[j]);
                            }
                            assert(h[j] == u[j - tl]);
                            assert(u[j - tl] == m[j - tl]) by {
                                assert(u.subrange(0, m.len() as int)[j - tl] == u[j - tl]);
                            }
                            if j == tl {
                                assert(h[j + 1] == mk[1]) by {
                                    assert(h.subrange(j, j + mk.len())[1] == h[j + 1]);
                                }
                                assert(h[j + 1] == u[1]);
                                assert(u[1] == m[1]) by {
                                    assert(u.subrange(0, m.len() as int)[1] == u[1]);
                                }
                            }
                        }
                        let u2 = u.take(j - tl);
                        assert(h.take(j) =~= t + u2);
                        assert(u2.subrange(0, m.len() as int) =~= u.subrange(0, m.len() as int));
                        assert(matches_at(u2, m, 0));
                    }
                },
            }
        },
    }
}

proof fn lemma_cut_all_across(t: Seq<char>, u: Seq<char>, m: Seq<char>, ms: Seq<Seq<char>>)
    requires
        newline_led(m),
        forall|k: int| 0 <= k < ms.len() ==> newline_led(#[trigger] ms[k]),
        forall|k: int| 0 <= k < ms.len() ==> #[trigger] ms[k] == m || ms[k][1] != m[1],
        ms.contains(m),
        matches_at(u, m, 0),
    ensures
        cut_at_all(t + u, ms) == cut_at_all(t, ms),
    decreases ms.len(),
{
    let mk = ms[0];
    let rest = ms.drop_first();
    lemma_cut_across(t, u, m, mk);
    if cut_at(t + u, mk) != cut_at(t, mk) {
        let u2 = choose|u2: Seq<char>|
            matches_at(u2, m, 0) && cut_at(t + u, mk) == cut_at(t, mk) + u2;
        assert(rest.contains(m)) by {
            let k = choose|k: int| 0 <= k < ms.len() && ms[k] == m;
            assert(k != 0);
            assert(rest[k - 1] == m);
        }
        assert forall|k: int| 0 <= k < rest.len() implies newline_led(#[trigger] rest[k]) by {
            assert(rest[k] == ms[k + 1]);
        }
        assert forall|k: int| 0 <= k < rest.len() implies #[trigger] rest[k] == m || rest[k][1]
            != m[1] by {
            assert(rest[k] == ms[k + 1]);
        }
        lemma_cut_all_across(cut_at(t, mk), u2, m, rest);
    }
}

/// Nothing from the first line of WeChat's page furniture on reaches the cleaned text:
/// whatever follows a marker, the text cleans as the part before it does.
pub proof fn lemma_tail_cut_at_marker(t: Seq<char>, k: int, s: Seq<char>)
    requires
        0 <= k < tail_markers().len(),
    ensures
        cleaned_tail(t + tail_markers()[k] + s) == cleaned_tail(t),
{
    lemma_tail_markers_led();
    let m = tail_markers()[k];
    let u = m + s;
    assert(u.subrange(0, m.len() as int) =~= m);
    assert(tail_markers().contains(m)) by {
        assert(tail_markers()[k] == m);
    }
    assert(t + tail_markers()[k] + s =~= t + u);
    lemma_cut_all_across(t, u, m, tail_markers());
}

proof fn lemma_drop_button_tail(ls: Seq<Seq<char>>)
    requires
        forall|i: int| 0 <= i < ls.len() ==> !(#[trigger] ls[i]).contains('\n'),
    ensures
        forall|p: int|
            0 <= p < drop_button_tail(ls).len() ==> !(#[trigger] drop_button_tail(ls)[p]).contains(
                '\n',
            ) && !ui_words().contains(drop_button_tail(ls)[p]) && (all_blank(
                drop_button_tail(ls).skip(p + 1),
            ) ==> !ui_words().contains(trim_end_ws(drop_button_tail(ls)[p]))),
    decreases ls.len(),
{
    if ls.len() > 0 {
        let d = ls.drop_first();
        assert forall|i: int| 0 <= i < d.len() implies !(#[trigger] d[i]).contains('\n') by {
            assert(d[i] == ls[i + 1]);
        }
        lemma_drop_button_tail(d);
        let rest = drop_button_tail(d);
        let out = drop_button_tail(ls);
        if !is_button_line(ls[0], rest) {
            assert(out == seq![ls[0]] + rest);
            assert forall|p: int| 0 <= p < out.len() implies !(#[trigger] out[p]).contains('\n')
                && !ui_words().contains(out[p]) && (all_blank(out.skip(p + 1))
                ==> !ui_words().contains(trim_end_ws(out[p]))) by {
                if p == 0 {
                    assert(out.skip(1) =~= rest);
                } else {
                    assert(out[p] == rest[p - 1]);
                    assert(out.skip(p + 1) =~= rest.skip(p));
                }
            }
        }
    }
}

/// The lines that hold only a button label (and whitespace around it), spelled out.
proof fn lemma_button_labels_listed()
    ensures
        seq![
            "知道了"@,
            "打开小程序"@,
            "打开"@,
            "允许"@,
            "取消"@,
            "视频"@,
            "小程序"@,
            "赞"@,
            "在看"@,
            "分享"@,
            "留言"@,
            "收藏"@,
            "听过"@,
            "跳过"@,
            "轻触阅读原文"@,
            "向上滑动看下一个"@,
            "向下滑动看下一个"@,
        ] == ui_words(),
        forall|k: int|
            0 <= k < ui_words().len() ==> (#[trigger] ui_words()[k]).len() > 0 && !is_ws(
                ui_words()[k][0],
            ) && !is_ws(ui_words()[k].last()),
{
    reveal_strlit("知道了");
    reveal_strlit("打开小程序");
    reveal_strlit("打开");
    reveal_strlit("允许");
    reveal_strlit("取消");
    reveal_strlit("视频");
    reveal_strlit("小程序");
    reveal_strlit("赞");
    reveal_strlit("在看");
    reveal_strlit("分享");
    reveal_strlit("留言");
    reveal_strlit("收藏");
    reveal_strlit("听过");
    reveal_strlit("跳过");
    reveal_strlit("轻触阅读原文");
    reveal_strlit("向上滑动看下一个");
    reveal_strlit("向下滑动看下一个");
}

/// After cleaning, no line but the first is one of WeChat's button labels: 知道了,
/// 打开小程序, 打开, 允许, 取消, 视频, 小程序, 赞, 在看, 分享, 留言, 收藏, 听过, 跳过,
/// 轻触阅读原文, 向上滑动看下一个 or 向下滑动看下一个.
pub proof fn lemma_no_button_line_after_first(text: Seq<char>)
    ensures
        forall|i: int|
            1 <= i < split_on(cleaned_tail(text), '\n').len() ==> !seq![
                "知道了"@,
                "打开小程序"@,
                "打开"@,
                "允许"@,
                "取消"@,
                "视频"@,
                "小程序"@,
                "赞"@,
                "在看"@,
                "分享"@,
                "留言"@,
                "收藏"@,
                "听过"@,
                "跳过"@,
                "轻触阅读原文"@,
                "向上滑动看下一个"@,
                "向下滑动看下一个"@,
            ].contains(#[trigger] split_on(cleaned_tail(text), '\n')[i]),
{
    lemma_button_labels_listed();
    let nl = seq!['\n'];
    let x = cut_at_all(text, tail_markers());
    let s = split_on(x, '\n');
    lemma_split_on_nonempty(x, '\n');
    lemma_split_on_pieces(x, '\n');
    let d = s.drop_first();
    assert forall|i: int| 0 <= i < d.len() implies !(#[trigger] d[i]).contains('\n') by {
        assert(d[i] == s[i + 1]);
    }
    let tl = drop_button_tail(d);
    lemma_drop_button_tail(d);
    let k = drop_button_lines(s);
    assert(k == seq![s[0]] + tl);
    assert forall|i: int| 0 <= i < k.len() implies !(#[trigger] k[i]).contains('\n') by {
        if i > 0 {
            assert(k[i] == tl[i - 1]);
        }
    }
    lemma_trim_start_join(k);
    let f = choose|f: int|
        0 <= f < k.len() && trim_start_ws(join(k, nl)) == join(
            seq![trim_start_ws(#[trigger] k[f])] + k.skip(f + 1),
            nl,
        );
    let m = seq![trim_start_ws(k[f])] + k.skip(f + 1);
    lemma_trim_end_join(m);
    let g = choose|g: int|
        0 <= g < m.len() && trim_end_ws(join(m, nl)) == join(
            m.take(g).push(trim_end_ws(#[trigger] m[g])),
            nl,
        ) && forall|h: int| g < h < m.len() ==> all_ws(#[trigger] m[h]);
    let n = m.take(g).push(trim_end_ws(m[g]));
    assert(cleaned_tail(text) == join(n, nl));
    assert forall|i: int| 0 <= i < m.len() implies !(#[trigger] m[i]).contains('\n') by {
        if i == 0 {
            lemma_trim_start_suffix(k[f]);
            let t = trim_start_ws(k[f]);
            if t.contains('\n') {
                let q = choose|q: int| 0 <= q < t.len() && t[q] == '\n';
                assert(k[f][k[f].len() - t.len() + q] == '\n');
            }
        } else {
            assert(m[i] == k[f + i]);
        }
    }
    assert forall|i: int| 0 <= i < n.len() implies !(#[trigger] n[i]).contains('\n') by {
        if i < g {
            assert(n[i] == m[i]);
        } else {
            lemma_trim_end_rest(m[g]);
            let t = trim_end_ws(m[g]);
            if t.contains('\n') {
                let q = choose|q: int| 0 <= q < t.len() && t[q] == '\n';
                assert(m[g][q] == '\n');
            }
        }
    }
    lemma_split_on_join(n, '\n');
    assert forall|i: int| 1 <= i < n.len() implies !ui_words().contains(#[trigger] n[i]) by {
        let p = f + i - 1;
        assert(m[i] == k[f + i]);
        assert(k[f + i] == tl[p]);
        if i < g {
            assert(n[i] == m[i]);
        } else {
            assert(n[i] == trim_end_ws(tl[p]));
            assert forall|q: int| 0 <= q < tl.skip(p + 1).len() implies all_ws(
                #[trigger] tl.skip(p + 1)[q],
            ) by {
                assert(tl.skip(p + 1)[q] == tl[p + 1 + q]);
                assert(k[f + i + 1 + q] == tl[p + 1 + q]);
                assert(m[g + 1 + q] == k[f + i + 1 + q]);
            }
        }
    }
}

/// The views of a vector of string slices.
pub open spec fn str_views(v: Seq<&str>) -> Seq<Seq<char>> {
    v.map_values(|s: &str| s@)
}

/// Whether `l` is one of the button labels.
fn is_button_label(l: &Vec<char>) -> (b: bool)
    ensures
        b == ui_words().contains(l@),
{
    let words: Vec<&str> = vec![
        "知道了",
        "打开小程序",
        "打开",
        "允许",
        "取消",
        "视频",
        "小程序",
        "赞",
        "在看",
        "分享",
        "留言",
        "收藏",
        "听过",
        "跳过",
        "轻触阅读原文",
        "向上滑动看下一个",
        "向下滑动看下一个",
    ];
    proof {
        assert(str_views(words@) =~= ui_words());
    }
    let mut j: usize = 0;
    while j < words.len()
        invariant
            j <= words.len(),
            str_views(words@) == ui_words(),
            forall|k: int| 0 <= k < j ==> ui_words()[k] != l@,
        decreases words.len() - j,
    {
        let w = chars_of(words[j]);
        proof {
            assert(w@ == ui_words()[j as int]);
        }
        if w.len() == l.len() && matches_at_exec(l, &w, 0) {
            proof {
                assert(l@.subrange(0, l@.len() as int) =~= l@);
            }
            return true;
        }
        proof {
            assert(l@.subrange(0, l@.len() as int) =~= l@);
        }
        j += 1;
    }
    false
}

/// Cuts a converted article at WeChat's page furniture, removes the lines that hold
/// nothing but a button label and whitespace (the first line excepted), and trims the
/// rest.
pub fn clean_tail(text: &str) -> (r: String)
    ensures
        r@ == cleaned_tail(text@),
{
    let markers: Vec<&str> = vec!["\n预览时标签不可点", "\n微信扫一扫", "\n使用小程序", "\n打开小程序"];
    proof {
        assert(str_views(markers@) =~= tail_markers());
    }
    let mut t = chars_of(text);
    let mut i: usize = 0;
    proof {
        assert(tail_markers().skip(0) =~= tail_markers());
    }
    while i < markers.len()
        invariant
            i <= markers.len(),
            str_views(markers@) == tail_markers(),
            cut_at_all(text@, tail_markers()) == cut_at_all(t@, tail_markers().skip(i as int)),
        decreases markers.len() - i,
    {
        let m = chars_of(markers[i]);
        proof {
            assert(m@ == tail_markers()[i as int]);
            assert(tail_markers().skip(i as int).drop_first() =~= tail_markers().skip(i + 1));
        }
        let ghost prev = t@;
        match find_from_exec(&t, &m, 0) {
            Some(k) => {
                proof {
                    lemma_find_from_found(t@, m@, 0);
                }
                t = slice_chars(&t, 0, k);
                proof {
                    assert(t@ =~= cut_at(prev, m@));
                }
            },
            None => {},
        }
        i += 1;
    }
    proof {
        assert(tail_markers().skip(4) =~= Seq::<Seq<char>>::empty());
    }
    let lines = split_on_exec(&t, '\n');
    let ghost ls = views(lines@);
    proof {
        lemma_split_on_nonempty(t@, '\n');
    }
    let mut tail: Vec<Vec<char>> = Vec::new();
    let mut blank = true;
    let mut j: usize = lines.len();
    proof {
        assert(ls.skip(j as int) =~= Seq::<Seq<char>>::empty());
    }
    while j > 1
        invariant
            1 <= j <= lines.len(),
            ls == views(lines@),
            views(tail@) == drop_button_tail(ls.skip(j as int)),
            blank == all_blank(views(tail@)),
        decreases j,
    {
        j -= 1;
        let ghost rest = views(tail@);
        proof {
            assert(ls.skip(j as int).drop_first() =~= ls.skip(j + 1));
            assert(ls.skip(j as int)[0] == lines@[j as int]@);
        }
        let line = &lines[j];
        let drop = is_button_label(line) || (blank && is_button_label(&trim_end_chars(line)));
        if !drop {
            let copy = slice_chars(line, 0, line.len());
            proof {
                assert(copy@ =~= line@);
            }
            let lb = is_blank(&copy);
            tail.insert(0, copy);
            proof {
                assert(views(tail@) =~= seq![line@] + rest);
                assert(all_blank(views(tail@)) == (lb && all_blank(rest))) by {
                    if lb && all_blank(rest) {
                        assert forall|q: int| 0 <= q < views(tail@).len() implies all_ws(
                            #[trigger] views(tail@)[q],
                        ) by {
                            if q > 0 {
                                assert(views(tail@)[q] == rest[q - 1]);
                            }
                        }
                    }
                    if all_blank(views(tail@)) {
                        assert(all_ws(views(tail@)[0]));
                        assert forall|q: int| 0 <= q < rest.len() implies all_ws(#[trigger] rest[q]) by {
                            assert(views(tail@)[q + 1] == rest[q]);
                        }
                    }
                }
            }
            blank = blank && lb;
        }
    }
    let first = slice_chars(&lines[0], 0, lines[0].len());
    proof {
        assert(first@ =~= lines@[0]@);
        assert(ls[0] == lines@[0]@);
    }
    let mut kept: Vec<Vec<char>> = Vec::new();
    kept.push(first);
    let ghost tl = views(tail@);
    let ghost k0 = kept@;
    let ghost t0 = tail@;
    kept.append(&mut tail);
    proof {
        assert(kept@ == k0 + t0);
        assert(views(kept@) =~= views(k0) + views(t0));
        assert(ls.skip(1) =~= ls.drop_first());
        assert(views(kept@) =~= seq![ls[0]] + tl);
        assert(views(kept@) == drop_button_lines(ls));
    }
    let nl: Vec<char> = vec!['\n'];
    proof {
        assert(nl@ =~= seq!['\n']);
    }
    let t = join_exec(&kept, &nl);
    let r = trim_chars(&t);
    string_of(&r)
}

/// Whether the three header patterns compile, that is, where `strip_content_html_header`
/// can be called.
pub fn header_patterns_ok() -> (b: bool)
    ensures
        b == header_patterns_compile(),
{
    let a = match compile_pattern(COVER_PATTERN) {
        Ok(_) => true,
        Err(_) => false,
    };
    let b = match compile_pattern(H1_PATTERN) {
        Ok(_) => true,
        Err(_) => false,
    };
    let c = match compile_pattern(AUTHOR_PATTERN) {
        Ok(_) => true,
        Err(_) => false,
    };
    a && b && c
}

// ---------------------------------------------------------------------------
// Articles
// ---------------------------------------------------------------------------

/// `s` as a double-quoted YAML scalar: backslashes doubled, then double quotes escaped.
pub open spec fn yaml_quoted(s: Seq<char>) -> Seq<char> {
    seq!['"'] + replace_all(replace_all(s, seq!['\\'], seq!['\\', '\\']), seq!['"'], seq!['\\', '"'])
        + seq!['"']
}

/// `line` as a one-line sequence where `cond` holds, otherwise no line.
pub open spec fn line_if(cond: bool, line: Seq<char>) -> Seq<Seq<char>> {
    if cond {
        seq![line]
    } else {
        Seq::empty()
    }
}

/// The lines of an article's YAML front matter, between two `---` lines: title, author,
/// cover image (if any), URL (if any), MP id, description (if any), and publish time
/// (quoted, when the timestamp is positive and chrono can render it). Every value is
/// quoted.
pub open spec fn front_matter(
    title: Seq<char>,
    author: Seq<char>,
    mp_id: Seq<char>,
    url: Seq<char>,
    pic_url: Seq<char>,
    description: Seq<char>,
    ts: int,
) -> Seq<Seq<char>> {
    seq!["---"@, "title: "@ + yaml_quoted(title), "author: "@ + yaml_quoted(author)]
        + line_if(pic_url.len() > 0, "coverImage: "@ + yaml_quoted(pic_url))
        + line_if(url.len() > 0, "url: "@ + yaml_quoted(url))
        + seq!["mp_id: "@ + yaml_quoted(mp_id)]
        + line_if(description.len() > 0, "description: "@ + yaml_quoted(description))
        + line_if(
        ts > 0 && iso_datetime_text(ts) is Some,
        "publish_time: "@ + yaml_quoted(iso_datetime_text(ts)->0),
    ) + seq!["---"@]
}

/// An article's Markdown file: its front matter lines joined with `'\n'`, a `'\n'`, the
/// body, and a final `'\n'`.
pub open spec fn article_markdown(
    title: Seq<char>,
    author: Seq<char>,
    mp_id: Seq<char>,
    url: Seq<char>,
    pic_url: Seq<char>,
    description: Seq<char>,
    ts: int,
    html: Seq<char>,
    download_images: bool,
) -> Seq<char> {
    join(front_matter(title, author, mp_id, url, pic_url, description, ts), seq!['\n']) + seq![
        '\n',
    ] + article_body(html, download_images) + seq!['\n']
}

/// An article published at a positive time that chrono can render has the line
/// `publish_time: "<YYYY-MM-DDTHH:MM:SS>"` in its front matter, between two `'\n'`s.
#[verifier::rlimit(40)]
pub proof fn lemma_publish_time_line(
    title: Seq<char>,
    author: Seq<char>,
    mp_id: Seq<char>,
    url: Seq<char>,
    pic_url: Seq<char>,
    description: Seq<char>,
    ts: int,
    html: Seq<char>,
    download_images: bool,
)
    requires
        ts > 0,
        iso_datetime_text(ts) is Some,
    ensures
        exists|k: int|
            matches_at(
                article_markdown(title, author, mp_id, url, pic_url, description, ts, html, download_images),
                seq!['\n'] + "publish_time: "@ + yaml_quoted(iso_datetime_text(ts)->0) + seq!['\n'],
                k,
            ),
{
    let line = "publish_time: "@ + yaml_quoted(iso_datetime_text(ts)->0);
    let head = seq!["---"@, "title: "@ + yaml_quoted(title), "author: "@ + yaml_quoted(author)]
        + line_if(pic_url.len() > 0, "coverImage: "@ + yaml_quoted(pic_url))
        + line_if(url.len() > 0, "url: "@ + yaml_quoted(url))
        + seq!["mp_id: "@ + yaml_quoted(mp_id)]
        + line_if(description.len() > 0, "description: "@ + yaml_quoted(description));
    let fm = front_matter(title, author, mp_id, url, pic_url, description, ts);
    assert(fm =~= head + (seq![line] + seq!["---"@]));
    let nl = seq!['\n'];
    lemma_join_concat(head, seq![line] + seq!["---"@], nl);
    lemma_join_concat(seq![line], seq!["---"@], nl);
    assert(join(seq![line], nl) == line);
    assert(join(seq!["---"@], nl) == "---"@);
    let md = article_markdown(title, author, mp_id, url, pic_url, description, ts, html, download_images);
    let pat = nl + line + nl;
    let jh = join(head, nl);
    let k = jh.len() as int;
    let body = article_body(html, download_images);
    let rest = "---"@ + nl + body + nl;
    assert(join(fm, nl) == jh + nl + (line + nl + "---"@));
    assert(md == join(fm, nl) + nl + body + nl);
    assert(md =~= jh + pat + rest);
    assert(md.subrange(k, k + pat.len()) =~= pat);
    assert(pat =~= seq!['\n'] + "publish_time: "@ + yaml_quoted(iso_datetime_text(ts)->0) + seq![
        '\n',
    ]);
    assert(matches_at(md, pat, k));
}

/// The body of an article: empty for empty HTML, otherwise its conversion with the tail
/// cleaned.
pub open spec fn article_body(html: Seq<char>, download_images: bool) -> Seq<char> {
    if html.len() == 0 {
        Seq::empty()
    } else {
        cleaned_tail((conversion(html, download_images)->0).0)
    }
}

/// The images of an article: none for empty HTML, otherwise those its conversion found.
pub open spec fn article_images(html: Seq<char>, download_images: bool) -> Seq<
    (int, Seq<char>, Seq<char>),
> {
    if html.len() == 0 {
        Seq::empty()
    } else {
        (conversion(html, download_images)->0).1
    }
}

/// Pushes `prefix` followed by `s` quoted for YAML onto `lines`.
fn push_quoted_line(lines: &mut Vec<Vec<char>>, prefix: &str, s: &str)
    ensures
        views(final(lines)@) == views(old(lines)@).push(prefix@ + yaml_quoted(s@)),
{
    let v = chars_of(s);
    let bs: Vec<char> = vec!['\\'];
    let bs2: Vec<char> = vec!['\\', '\\'];
    let dq: Vec<char> = vec!['"'];
    let esc_dq: Vec<char> = vec!['\\', '"'];
    proof {
        assert(bs@ =~= seq!['\\']);
        assert(bs2@ =~= seq!['\\', '\\']);
        assert(dq@ =~= seq!['"']);
        assert(esc_dq@ =~= seq!['\\', '"']);
    }
    let e1 = replace_all_exec(&v, &bs, &bs2);
    let e2 = replace_all_exec(&e1, &dq, &esc_dq);
    let mut line = chars_of(prefix);
    line.push('"');
    extend_chars(&mut line, &e2);
    line.push('"');
    proof {
        assert(line@ =~= prefix@ + yaml_quoted(s@));
    }
    let ghost prev = views(lines@);
    lines.push(line);
    proof {
        assert(views(lines@) =~= prev.push(prefix@ + yaml_quoted(s@)));
    }
}

/// Pushes a line onto `lines`.
fn push_line(lines: &mut Vec<Vec<char>>, line: Vec<char>)
    ensures
        views(final(lines)@) == views(old(lines)@).push(line@),
{
    let ghost prev = views(lines@);
    lines.push(line);
    proof {
        assert(views(lines@) =~= prev.push(line@));
    }
}

/// The lines of an article's front matter.
fn front_matter_lines(
    title: &str,
    author: &str,
    mp_id: &str,
    url: &str,
    pic_url: &str,
    description: &str,
    ts: i64,
) -> (fm: Vec<Vec<char>>)
    ensures
        views(fm@) == front_matter(title@, author@, mp_id@, url@, pic_url@, description@, ts as int),
{
    let mut fm: Vec<Vec<char>> = Vec::new();
    push_line(&mut fm, chars_of("---"));
    push_quoted_line(&mut fm, "title: ", title);
    push_quoted_line(&mut fm, "author: ", author);
    let ghost base = views(fm@);
    if !pic_url.is_empty() {
        push_quoted_line(&mut fm, "coverImage: ", pic_url);
    }
    let ghost with_pic = views(fm@);
    assert(with_pic =~= base + line_if(pic_url@.len() > 0, "coverImage: "@ + yaml_quoted(pic_url@)));
    if !url.is_empty() {
        push_quoted_line(&mut fm, "url: ", url);
    }
    let ghost with_url = views(fm@);
    assert(with_url =~= with_pic + line_if(url@.len() > 0, "url: "@ + yaml_quoted(url@)));
    push_quoted_line(&mut fm, "mp_id: ", mp_id);
    let ghost with_id = views(fm@);
    if !description.is_empty() {
        push_quoted_line(&mut fm, "description: ", description);
    }
    let ghost with_desc = views(fm@);
    assert(with_desc =~= with_id + line_if(
        description@.len() > 0,
        "description: "@ + yaml_quoted(description@),
    ));
    if ts > 0 {
        match format_iso_datetime(ts) {
            Some(dt) => {
                push_quoted_line(&mut fm, "publish_time: ", dt.as_str());
            },
            None => {},
        }
    }
    let ghost with_time = views(fm@);
    assert(with_time =~= with_desc + line_if(
        ts > 0 && iso_datetime_text(ts as int) is Some,
        "publish_time: "@ + yaml_quoted(iso_datetime_text(ts as int)->0),
    ));
    push_line(&mut fm, chars_of("---"));
    assert(views(fm@) =~= front_matter(
        title@,
        author@,
        mp_id@,
        url@,
        pic_url@,
        description@,
        ts as int,
    ));
    fm
}

/// The body of an article and its images.
fn article_body_exec(html: &str, download_images: bool) -> (r: (Vec<char>, Vec<ExtractedImage>))
    requires
        html@.len() > 0 ==> conversion(html@, download_images) is Some,
    ensures
        r.0@ == article_body(html@, download_images),
        image_views(r.1@) == article_images(html@, download_images),
{
    if html.is_empty() {
        (Vec::new(), Vec::new())
    } else {
        let conv = if download_images {
            convert_html_for_download(html)
        } else {
            convert_html(html)
        };
        let cleaned = clean_tail(conv.markdown.as_str());
        (chars_of(cleaned.as_str()), conv.images)
    }
}

/// Renders an article as Markdown: YAML front matter, a `'\n'`, the converted body with its
/// tail cleaned, and a final `'\n'`; also the images found in it (with references pointed
/// at `imgs/` when `download_images` holds).
pub fn article_to_md(
    title: &str,
    author: &str,
    mp_id: &str,
    url: &str,
    pic_url: &str,
    description: &str,
    ts: i64,
    html: &str,
    download_images: bool,
) -> (r: (String, Vec<ExtractedImage>))
    requires
        html@.len() > 0 ==> conversion(html@, download_images) is Some,
    ensures
        r.0@ == article_markdown(
            title@,
            author@,
            mp_id@,
            url@,
            pic_url@,
            description@,
            ts as int,
            html@,
            download_images,
        ),
        image_views(r.1@) == article_images(html@, download_images),
{
    let fm = front_matter_lines(title, author, mp_id, url, pic_url, description, ts);
    let (body, images) = article_body_exec(html, download_images);
    let nl: Vec<char> = vec!['\n'];
    assert(nl@ =~= seq!['\n']);
    let mut out = join_exec(&fm, &nl);
    out.push('\n');
    extend_chars(&mut out, &body);
    out.push('\n');
    (string_of(&out), images)
}


// ---------------------------------------------------------------------------
// What a slug looks like
// ---------------------------------------------------------------------------

proof fn lemma_trim_end_char_prefix(s: Seq<char>, c: char)
    ensures
        trim_end_char(s, c).len() <= s.len(),
        trim_end_char(s, c) == s.take(trim_end_char(s, c).len() as int),
        trim_end_char(s, c).len() > 0 ==> trim_end_char(s, c).last() != c,
    decreases s.len(),
{
    if s.len() > 0 && s.last() == c {
        lemma_trim_end_char_prefix(s.drop_last(), c);
        let t = trim_end_char(s.drop_last(), c);
        assert(s.drop_last().take(t.len() as int) =~= s.take(t.len() as int));
    } else {
        assert(s.take(s.len() as int) =~= s);
    }
}

proof fn lemma_utf8_total_prepend(c: char, t: Seq<char>)
    ensures
        utf8_total(seq![c] + t) == utf8_len(c) + utf8_total(t),
    decreases t.len(),
{
    if t.len() > 0 {
        assert((seq![c] + t).drop_last() =~= seq![c] + t.drop_last());
        assert((seq![c] + t).last() == t.last());
        lemma_utf8_total_prepend(c, t.drop_last());
    } else {
        assert(seq![c] + t =~= seq![c]);
        assert(seq![c].drop_last() =~= Seq::<char>::empty());
        assert(utf8_total(Seq::<char>::empty()) == 0);
        assert(utf8_total(t) == 0);
    }
}

proof fn lemma_utf8_total_take(s: Seq<char>, k: int)
    requires
        0 <= k <= s.len(),
    ensures
        utf8_total(s.take(k)) <= utf8_total(s),
    decreases s.len(),
{
    if k < s.len() {
        assert(s.drop_last().take(k) =~= s.take(k));
        lemma_utf8_total_take(s.drop_last(), k);
    } else {
        assert(s.take(k) =~= s);
    }
}

proof fn lemma_prefix_within(s: Seq<char>, budget: nat)
    ensures
        prefix_within(s, budget).len() <= s.len(),
        prefix_within(s, budget) == s.take(prefix_within(s, budget).len() as int),
        utf8_total(prefix_within(s, budget)) <= budget,
    decreases s.len(),
{
    if s.len() == 0 || utf8_len(s[0]) > budget {
        assert(s.take(0) =~= Seq::<char>::empty());
    } else {
        let rest = prefix_within(s.drop_first(), (budget - utf8_len(s[0])) as nat);
        lemma_prefix_within(s.drop_first(), (budget - utf8_len(s[0])) as nat);
        lemma_utf8_total_prepend(s[0], rest);
        assert(seq![s[0]] + rest =~= s.take(rest.len() + 1int));
    }
}

proof fn lemma_slug_chars_no_ws(s: Seq<char>)
    ensures
        forall|i: int| 0 <= i < slug_chars(s).len() ==> !is_ws(#[trigger] slug_chars(s)[i]),
{
}

/// A character that a slug may hold: alphanumeric (as `char::is_alphanumeric` says), `'-'`,
/// or a CJK ideograph (U+4E00 to U+9FFF).
pub open spec fn slug_class(c: char) -> bool {
    char_is_alphanumeric(c) || c == '-' || ('\u{4e00}' <= c && c <= '\u{9fff}')
}

proof fn lemma_slug_chars_class(s: Seq<char>)
    ensures
        forall|i: int| 0 <= i < slug_chars(s).len() ==> slug_class(#[trigger] slug_chars(s)[i]),
{
    let f = s.filter(|c: char| keep_in_slug(c));
    assert forall|i: int| 0 <= i < slug_chars(s).len() implies slug_class(
        #[trigger] slug_chars(s)[i],
    ) by {
        s.lemma_filter_pred(|c: char| keep_in_slug(c), i);
        assert(slug_chars(s)[i] == slug_char(f[i]));
    }
}

/// Every character of a slug is alphanumeric, `'-'` or a CJK ideograph, unless the slug is
/// the fallback `article`.
pub proof fn lemma_slug_class(lower: Seq<char>)
    ensures
        slug_of(lower) == "article"@ || forall|i: int|
            0 <= i < slug_of(lower).len() ==> slug_class(#[trigger] slug_of(lower)[i]),
{
    let kept = slug_chars(trim_ws(lower));
    lemma_slug_chars_class(trim_ws(lower));
    let s = trim_end_char(kept, '-');
    lemma_trim_end_char_prefix(kept, '-');
    if s.len() > 0 {
        let p = prefix_within(s, SLUG_MAX_BYTES as nat);
        lemma_prefix_within(s, SLUG_MAX_BYTES as nat);
        let r = trim_end_char(p, '-');
        lemma_trim_end_char_prefix(p, '-');
        if r.len() > 0 {
            assert forall|i: int| 0 <= i < r.len() implies slug_class(#[trigger] r[i]) by {
                assert(r[i] == p[i]);
                assert(p[i] == s[i]);
                assert(s[i] == kept[i]);
            }
        }
    }
}

proof fn lemma_prefix_within_fits(s: Seq<char>, budget: nat)
    requires
        utf8_total(s) <= budget,
    ensures
        prefix_within(s, budget) == s,
    decreases s.len(),
{
    if s.len() > 0 {
        let rest = s.drop_first();
        assert(seq![s[0]] + rest =~= s);
        lemma_utf8_total_prepend(s[0], rest);
        lemma_prefix_within_fits(rest, (budget - utf8_len(s[0])) as nat);
    }
}

proof fn lemma_prefix_within_longest(s: Seq<char>, budget: nat)
    ensures
        prefix_within(s, budget).len() < s.len() ==> utf8_total(prefix_within(s, budget))
            + utf8_len(s[prefix_within(s, budget).len() as int]) > budget,
        s.len() > 0 && budget >= 4 ==> prefix_within(s, budget).len() > 0,
    decreases s.len(),
{
    if s.len() > 0 && utf8_len(s[0]) <= budget {
        let rest = s.drop_first();
        let b2 = (budget - utf8_len(s[0])) as nat;
        lemma_prefix_within_longest(rest, b2);
        let p = prefix_within(rest, b2);
        lemma_utf8_total_prepend(s[0], p);
        if p.len() < rest.len() {
            assert(s[p.len() + 1int] == rest[p.len() as int]);
        }
    } else if s.len() > 0 {
        assert(utf8_total(Seq::<char>::empty()) == 0);
    }
}

proof fn lemma_filter_keeps_all(s: Seq<char>, pred: spec_fn(char) -> bool)
    requires
        forall|i: int| 0 <= i < s.len() ==> pred(#[trigger] s[i]),
    ensures
        s.filter(pred) == s,
    decreases s.len(),
{
    reveal_with_fuel(Seq::filter, 1);
    if s.len() > 0 {
        let d = s.drop_last();
        assert forall|i: int| 0 <= i < d.len() implies pred(#[trigger] d[i]) by {
            assert(d[i] == s[i]);
        }
        lemma_filter_keeps_all(d, pred);
        assert(pred(s[s.len() - 1]));
        assert(d.push(s.last()) =~= s);
    }
}

/// A lowercased title made of alphanumeric characters (as `char::is_alphanumeric` says)
/// and whitespace, beginning and ending with an alphanumeric character other than `'-'`,
/// that fits in 200 bytes keeps every character in its slug, in order, each whitespace
/// character becoming `'-'`.
pub proof fn lemma_slug_keeps_words(t: Seq<char>)
    requires
        t.len() > 0,
        !is_ws(t[0]),
        !is_ws(t.last()),
        t.last() != '-',
        forall|i: int| 0 <= i < t.len() ==> is_ws(#[trigger] t[i]) || char_is_alphanumeric(t[i]),
        utf8_total(t) <= SLUG_MAX_BYTES,
    ensures
        slug_of(t).len() == t.len(),
        forall|i: int|
            0 <= i < t.len() ==> #[trigger] slug_of(t)[i] == if is_ws(t[i]) {
                '-'
            } else {
                t[i]
            },
{
    assert(trim_start_ws(t) == t);
    assert(trim_end_ws(t) == t);
    let pred = |c: char| keep_in_slug(c);
    lemma_filter_keeps_all(t, pred);
    let m = slug_chars(t);
    assert(m.len() == t.len());
    assert(m.last() == t.last()) by {
        assert(m[t.len() - 1] == slug_char(t[t.len() - 1]));
    }
    assert(trim_end_char(m, '-') == m);
    assert forall|k: int| 0 <= k < m.len() implies utf8_len(#[trigger] m[k]) <= utf8_len(t[k]) by {
        assert(m[k] == slug_char(t[k]));
    }
    lemma_utf8_total_le(m, t);
    lemma_prefix_within_fits(m, SLUG_MAX_BYTES as nat);
    assert(trim_end_char(prefix_within(m, SLUG_MAX_BYTES as nat), '-') == m);
    assert forall|i: int| 0 <= i < t.len() implies #[trigger] slug_of(t)[i] == if is_ws(t[i]) {
        '-'
    } else {
        t[i]
    } by {
        assert(m[i] == slug_char(t[i]));
    }
}

proof fn lemma_utf8_total_le(a: Seq<char>, b: Seq<char>)
    requires
        a.len() == b.len(),
        forall|k: int| 0 <= k < a.len() ==> utf8_len(#[trigger] a[k]) <= utf8_len(b[k]),
    ensures
        utf8_total(a) <= utf8_total(b),
    decreases a.len(),
{
    if a.len() > 0 {
        assert forall|k: int| 0 <= k < a.drop_last().len() implies utf8_len(
            #[trigger] a.drop_last()[k],
        ) <= utf8_len(b.drop_last()[k]) by {
            assert(a.drop_last()[k] == a[k]);
            assert(b.drop_last()[k] == b[k]);
        }
        lemma_utf8_total_le(a.drop_last(), b.drop_last());
        assert(utf8_len(a[a.len() - 1]) <= utf8_len(b[b.len() - 1]));
    }
}

/// A lowercased title made only of alphanumeric characters (as `char::is_alphanumeric`
/// says) other than `'-'`, with no whitespace, becomes its own longest leading part that
/// fits in 200 bytes: every character up to the cut is kept, and the next one would not
/// fit.
pub proof fn lemma_slug_keeps_alphanumerics(t: Seq<char>)
    requires
        t.len() > 0,
        forall|i: int|
            0 <= i < t.len() ==> char_is_alphanumeric(#[trigger] t[i]) && !is_ws(t[i]) && t[i]
                != '-',
    ensures
        slug_of(t).len() > 0,
        slug_of(t).len() <= t.len(),
        slug_of(t) == t.take(slug_of(t).len() as int),
        utf8_total(slug_of(t)) <= SLUG_MAX_BYTES,
        slug_of(t).len() < t.len() ==> utf8_total(slug_of(t)) + utf8_len(
            t[slug_of(t).len() as int],
        ) > SLUG_MAX_BYTES,
{
    assert(trim_start_ws(t) == t);
    assert(trim_end_ws(t) == t) by {
        assert(t.last() == t[t.len() - 1]);
    }
    let pred = |c: char| keep_in_slug(c);
    lemma_filter_keeps_all(t, pred);
    let m = slug_chars(t);
    assert(m =~= t) by {
        assert forall|k: int| 0 <= k < t.len() implies m[k] == t[k] by {
            assert(m[k] == slug_char(t[k]));
        }
    }
    assert(trim_end_char(m, '-') == m) by {
        assert(m.last() == t[t.len() - 1]);
    }
    let p = prefix_within(t, SLUG_MAX_BYTES as nat);
    lemma_prefix_within(t, SLUG_MAX_BYTES as nat);
    lemma_prefix_within_longest(t, SLUG_MAX_BYTES as nat);
    assert(p.last() == t[p.len() - 1]);
    assert(trim_end_char(p, '-') == p);
}

/// A slug is never empty, takes at most 200 bytes in UTF-8, never ends with `'-'` and holds
/// no whitespace.
pub proof fn lemma_slug_shape(lower: Seq<char>)
    ensures
        slug_of(lower).len() > 0,
        utf8_total(slug_of(lower)) <= SLUG_MAX_BYTES,
        slug_of(lower).last() != '-',
        forall|i: int| 0 <= i < slug_of(lower).len() ==> !is_ws(#[trigger] slug_of(lower)[i]),
{
    reveal_strlit("article");
    reveal_with_fuel(utf8_total, 8);
    let kept = slug_chars(trim_ws(lower));
    lemma_slug_chars_no_ws(trim_ws(lower));
    let s = trim_end_char(kept, '-');
    lemma_trim_end_char_prefix(kept, '-');
    if s.len() > 0 {
        let p = prefix_within(s, SLUG_MAX_BYTES as nat);
        lemma_prefix_within(s, SLUG_MAX_BYTES as nat);
        let r = trim_end_char(p, '-');
        lemma_trim_end_char_prefix(p, '-');
        if r.len() > 0 {
            lemma_utf8_total_take(p, r.len() as int);
            assert forall|i: int| 0 <= i < r.len() implies !is_ws(#[trigger] r[i]) by {
                assert(r[i] == p[i]);
                assert(p[i] == s[i]);
                assert(s[i] == kept[i]);
            }
        }
    }
}

/// The format an image URL names is one of `png`, `jpg`, `gif`, `webp` and `bmp`.
pub proof fn lemma_image_ext_known(url: Seq<char>)
    ensures
        image_ext_of(url) == "png"@ || image_ext_of(url) == "jpg"@ || image_ext_of(url) == "gif"@
            || image_ext_of(url) == "webp"@ || image_ext_of(url) == "bmp"@,
{
}

/// Converting for download finds the same images as converting plainly: the `i`-th
/// non-empty `src` captured by the image pattern, in the order the page holds them, with
/// index `i` and the format its URL names. Only the Markdown differs, and without
/// downloading it is the converter's Markdown with its code blocks dedented.
pub proof fn lemma_download_lists_same_images(html: Seq<char>)
    requires
        conversion(html, false) is Some,
        conversion(html, true) is Some,
    ensures
        (conversion(html, false)->0).1 == (conversion(html, true)->0).1,
        (conversion(html, false)->0).1.len() == img_sources(html).len(),
        forall|i: int|
            0 <= i < (conversion(html, false)->0).1.len() ==> (#[trigger] (conversion(
                html,
                false,
            )->0).1[i]) == (i, image_ext_of(img_sources(html)[i]), img_sources(html)[i]),
        Some((conversion(html, false)->0).0) == dedent_blocks(
            capture_text(markdown_of(html)->0),
        ),
{
}

/// A text whose non-blank lines share no indent (one of them starts with neither a space
/// nor a tab, or none holds more than whitespace) comes back from dedenting unchanged.
pub proof fn lemma_dedent_without_common_indent(text: Seq<char>)
    requires
        min_indent(lines(text)) is None || min_indent(lines(text)) == Some(0nat),
    ensures
        dedent(text) == text,
{
    if text.len() > 0 {
        assert(lines(text).len() > 0);
    }
}

/// Dedenting twice gives what dedenting once gives.
pub proof fn lemma_dedent_idempotent(text: Seq<char>)
    ensures
        dedent(dedent(text)) == dedent(text),
{
    let m = min_indent(lines(text));
    if lines(text).len() == 0 {
        assert(dedent(text) =~= Seq::<char>::empty());
        lemma_dedent_without_common_indent(Seq::<char>::empty());
    } else if m is None || m == Some(0nat) {
        lemma_dedent_without_common_indent(text);
    } else {
        lemma_dedent_removes_common_indent(text);
        lemma_dedent_without_common_indent(dedent(text));
    }
}

/// A page without images converts to the same result whether or not its images are to be
/// downloaded.
pub proof fn lemma_same_markdown_without_images(html: Seq<char>)
    requires
        img_sources(html).len() == 0,
    ensures
        conversion(html, true) == conversion(html, false),
{
    if regex_compiles(IMG_SRC_PATTERN@) && markdown_of(html) is Some {
        let md0 = capture_text(markdown_of(html)->0);
        assert(localize_from(md0, img_sources(html), 0) == md0);
    }
}

/// A cleaned article text neither starts nor ends with whitespace.
pub proof fn lemma_cleaned_tail_trimmed(text: Seq<char>)
    ensures
        cleaned_tail(text).len() > 0 ==> !is_ws(cleaned_tail(text)[0]) && !is_ws(
            cleaned_tail(text).last(),
        ),
{
    lemma_trim_ws_shape(remove_button_lines(cut_at_all(text, tail_markers())));
}

proof fn lemma_min_indent_witness(ls: Seq<Seq<char>>)
    requires
        min_indent(ls) is Some,
    ensures
        exists|w: int|
            0 <= w < ls.len() && !all_ws(#[trigger] ls[w]) && indent_of(ls[w]) == min_indent(
                ls,
            )->0,
    decreases ls.len(),
{
    let rest = ls.drop_first();
    if all_ws(ls[0]) {
        lemma_min_indent_witness(rest);
        let w = choose|w: int|
            0 <= w < rest.len() && !all_ws(#[trigger] rest[w]) && indent_of(rest[w]) == min_indent(
                rest,
            )->0;
        assert(ls[w + 1] == rest[w]);
    } else {
        match min_indent(rest) {
            None => {
                assert(!all_ws(ls[0]));
            },
            Some(m) => {
                if indent_of(ls[0]) < m {
                    assert(!all_ws(ls[0]));
                } else {
                    lemma_min_indent_witness(rest);
                    let w = choose|w: int|
                        0 <= w < rest.len() && !all_ws(#[trigger] rest[w]) && indent_of(rest[w])
                            == min_indent(rest)->0;
                    assert(ls[w + 1] == rest[w]);
                }
            },
        }
    }
}

/// Dedenting leaves no indent common to the lines that hold more than whitespace: where
/// there is such a line, the smallest indent among them becomes zero.
pub proof fn lemma_dedent_removes_common_indent(text: Seq<char>)
    requires
        min_indent(lines(text)) is Some,
    ensures
        min_indent(lines(dedent(text))) == Some(0nat),
{
    let ls = lines(text);
    let m = min_indent(ls)->0;
    lemma_min_indent_witness(ls);
    let w = choose|w: int|
        0 <= w < ls.len() && !all_ws(#[trigger] ls[w]) && indent_of(ls[w]) == m;
    if m == 0 {
        lemma_min_indent_le(ls, w);
    } else {
        let ds = ls.map_values(|l: Seq<char>| dedent_line(l, m));
        lemma_lines_no_newline(text, 0);
        assert forall|i: int| 0 <= i < ds.len() implies no_newline(#[trigger] ds[i]) by {
            assert(no_newline(ls[i]));
            if !all_ws(ls[i]) {
                lemma_min_indent_le(ls, i);
                lemma_indent_bound(ls[i]);
                let d = ls[i].skip(m as int);
                assert forall|j: int| 0 <= j < d.len() implies #[trigger] d[j] != '\n' by {
                    assert(d[j] == ls[i][j + m]);
                }
            }
        }
        let lw = ls[w];
        lemma_indent_bound(lw);
        // some character of the line is not whitespace, and it lies past the indent
        let q = choose|q: int| 0 <= q < lw.len() && !is_ws(#[trigger] lw[q]);
        assert(q >= m) by {
            if q < m {
                assert(lw[q] == ' ' || lw[q] == '\t');
            }
        }
        let d = lw.skip(m as int);
        assert(ds[w] == d);
        assert(d[q - m] == lw[q]);
        lemma_lines_of_join(ds, w);
        let big = lines(join(ds, seq!['\n']));
        let l = big[w];
        assert(l.len() > q - m) by {
            if l.len() <= q - m {
                assert(l == strip_cr(d));
                assert(d.last() == '\r');
                assert(d.last() == lw[q]);
            }
        }
        assert(l[q - m] == d[q - m]);
        assert(!all_ws(l));
        assert(l[0] == d[0]);
        assert(d[0] == lw[m as int]);
        assert(indent_of(l) == 0);
        assert(dedent(text) == join(ds, seq!['\n']));
        lemma_min_indent_le(big, w);
    }
}
}
