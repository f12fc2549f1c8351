use vstd::prelude::*;

verus! {

// ---------------------------------------------------------------------------
// Character classes
// ---------------------------------------------------------------------------

/// Unicode `White_Space`: the characters that `char::is_whitespace` accepts.
pub open spec fn is_ws(c: char) -> bool {
    let u = c as u32;
    ||| 0x09 <= u <= 0x0D
    ||| u == 0x20
    ||| u == 0x85
    ||| u == 0xA0
    ||| u == 0x1680
    ||| 0x2000 <= u <= 0x200A
    ||| u == 0x2028
    ||| u == 0x2029
    ||| u == 0x202F
    ||| u == 0x205F
    ||| u == 0x3000
}

/// Whether `c` has the Unicode `White_Space` property.
pub fn is_whitespace(c: char) -> (b: bool)
    ensures
        b == is_ws(c),
{
    let u = c as u32;
    (0x09 <= u && u <= 0x0D) || u == 0x20 || u == 0x85 || u == 0xA0 || u == 0x1680 || (0x2000
        <= u && u <= 0x200A) || u == 0x2028 || u == 0x2029 || u == 0x202F || u == 0x205F || u
        == 0x3000
}

/// Number of bytes that `c` takes in UTF-8.
pub open spec fn utf8_len(c: char) -> nat {
    let u = c as u32;
    if u < 0x80 {
        1
    } else if u < 0x800 {
        2
    } else if u < 0x10000 {
        3
    } else {
        4
    }
}

pub fn char_utf8_len(c: char) -> (n: usize)
    ensures
        n == utf8_len(c),
{
    let u = c as u32;
    if u < 0x80 {
        1
    } else if u < 0x800 {
        2
    } else if u < 0x10000 {
        3
    } else {
        4
    }
}

// ---------------------------------------------------------------------------
// Trimming
// ---------------------------------------------------------------------------

/// `s` without its leading whitespace.
pub open spec fn trim_start_ws(s: Seq<char>) -> Seq<char>
    decreases s.len(),
{
    if s.len() > 0 && is_ws(s[0]) {
        trim_start_ws(s.drop_first())
    } else {
        s
    }
}

/// `s` without its trailing whitespace.
pub open spec fn trim_end_ws(s: Seq<char>) -> Seq<char>
    decreases s.len(),
{
    if s.len() > 0 && is_ws(s.last()) {
        trim_end_ws(s.drop_last())
    } else {
        s
    }
}

/// `s` without leading and trailing whitespace, as `str::trim` gives it.
pub open spec fn trim_ws(s: Seq<char>) -> Seq<char> {
    trim_end_ws(trim_start_ws(s))
}

/// `s` without the copies of `c` at its end, as `str::trim_end_matches(c)` gives it.
pub open spec fn trim_end_char(s: Seq<char>, c: char) -> Seq<char>
    decreases s.len(),
{
    if s.len() > 0 && s.last() == c {
        trim_end_char(s.drop_last(), c)
    } else {
        s
    }
}

/// Whether every character of `s` is whitespace.
pub open spec fn all_ws(s: Seq<char>) -> bool {
    forall|i: int| 0 <= i < s.len() ==> is_ws(#[trigger] s[i])
}

proof fn lemma_trim_start_first(s: Seq<char>)
    ensures
        trim_start_ws(s).len() > 0 ==> !is_ws(trim_start_ws(s)[0]),
    decreases s.len(),
{
    if s.len() > 0 && is_ws(s[0]) {
        lemma_trim_start_first(s.drop_first());
    }
}

proof fn lemma_trim_end_prefix(s: Seq<char>)
    ensures
        trim_end_ws(s).len() <= s.len(),
        trim_end_ws(s) == s.take(trim_end_ws(s).len() as int),
        trim_end_ws(s).len() > 0 ==> !is_ws(trim_end_ws(s).last()),
    decreases s.len(),
{
    if s.len() > 0 && is_ws(s.last()) {
        lemma_trim_end_prefix(s.drop_last());
        let t = trim_end_ws(s.drop_last());
        assert(s.drop_last().take(t.len() as int) =~= s.take(t.len() as int));
    } else {
        assert(s.take(s.len() as int) =~= s);
    }
}

/// A trimmed text neither starts nor ends with whitespace.
pub proof fn lemma_trim_ws_shape(s: Seq<char>)
    ensures
        trim_ws(s).len() > 0 ==> !is_ws(trim_ws(s)[0]) && !is_ws(trim_ws(s).last()),
{
    lemma_trim_start_first(s);
    lemma_trim_end_prefix(trim_start_ws(s));
    let t = trim_start_ws(s);
    let u = trim_end_ws(t);
    if u.len() > 0 {
        assert(u[0] == t.take(u.len() as int)[0]);
    }
}

proof fn lemma_trim_start_skip(s: Seq<char>, i: int)
    requires
        0 <= i < s.len(),
        is_ws(s[i]),
    ensures
        trim_start_ws(s.skip(i)) == trim_start_ws(s.skip(i + 1)),
{
    assert(s.skip(i).drop_first() =~= s.skip(i + 1));
}

proof fn lemma_trim_end_take(s: Seq<char>, j: int)
    requires
        0 < j <= s.len(),
        is_ws(s[j - 1]),
    ensures
        trim_end_ws(s.take(j)) == trim_end_ws(s.take(j - 1)),
{
    assert(s.take(j).drop_last() =~= s.take(j - 1));
}

proof fn lemma_trim_end_char_take(s: Seq<char>, c: char, j: int)
    requires
        0 < j <= s.len(),
        s[j - 1] == c,
    ensures
        trim_end_char(s.take(j), c) == trim_end_char(s.take(j - 1), c),
{
    assert(s.take(j).drop_last() =~= s.take(j - 1));
}

/// Index of the first non-whitespace character of `v` (or its length).
fn trim_start_index(v: &Vec<char>) -> (i: usize)
    ensures
        i <= v.len(),
        trim_start_ws(v@) == v@.skip(i as int),
        forall|k: int| 0 <= k < i ==> is_ws(#[trigger] v@[k]),
        i < v.len() ==> !is_ws(v@[i as int]),
{
    let mut i: usize = 0;
    proof {
        assert(v@.skip(0) =~= v@);
    }
    while i < v.len() && is_whitespace(v[i])
        invariant
            i <= v.len(),
            trim_start_ws(v@) == trim_start_ws(v@.skip(i as int)),
            forall|k: int| 0 <= k < i ==> is_ws(#[trigger] v@[k]),
        decreases v.len() - i,
    {
        proof {
            lemma_trim_start_skip(v@, i as int);
        }
        i += 1;
    }
    i
}

/// End index of `v` once its trailing whitespace is dropped.
fn trim_end_index(v: &Vec<char>, lo: usize) -> (j: usize)
    requires
        lo <= v.len(),
    ensures
        lo <= j <= v.len(),
        trim_end_ws(v@.subrange(lo as int, v.len() as int)) == v@.subrange(lo as int, j as int),
        forall|k: int| j <= k < v.len() ==> is_ws(#[trigger] v@[k]),
{
    let ghost s = v@.subrange(lo as int, v.len() as int);
    let mut j: usize = v.len();
    proof {
        assert(s.take(s.len() as int) =~= s);
    }
    while j > lo && is_whitespace(v[j - 1])
        invariant
            lo <= j <= v.len(),
            s == v@.subrange(lo as int, v.len() as int),
            trim_end_ws(s) == trim_end_ws(s.take(j - lo)),
            forall|k: int| j <= k < v.len() ==> is_ws(#[trigger] v@[k]),
        decreases j,
    {
        proof {
            lemma_trim_end_take(s, j - lo);
        }
        j -= 1;
    }
    proof {
        assert(s.take(j - lo) =~= v@.subrange(lo as int, j as int));
    }
    j
}

/// The characters of `v` from `lo` to `hi`.
pub fn slice_chars(v: &Vec<char>, lo: usize, hi: usize) -> (r: Vec<char>)
    requires
        lo <= hi <= v.len(),
    ensures
        r@ == v@.subrange(lo as int, hi as int),
{
    let mut r: Vec<char> = Vec::new();
    let mut i: usize = lo;
    while i < hi
        invariant
            lo <= i <= hi <= v.len(),
            r@ == v@.subrange(lo as int, i as int),
        decreases hi - i,
    {
        r.push(v[i]);
        i += 1;
        proof {
            assert(r@ =~= v@.subrange(lo as int, i as int));
        }
    }
    r
}

/// `v` without leading and trailing whitespace.
pub fn trim_chars(v: &Vec<char>) -> (r: Vec<char>)
    ensures
        r@ == trim_ws(v@),
{
    let i = trim_start_index(v);
    let j = trim_end_index(v, i);
    proof {
        assert(v@.skip(i as int) =~= v@.subrange(i as int, v.len() as int));
    }
    slice_chars(v, i, j)
}

/// `v` without trailing whitespace.
pub fn trim_end_chars(v: &Vec<char>) -> (r: Vec<char>)
    ensures
        r@ == trim_end_ws(v@),
{
    let j = trim_end_index(v, 0);
    proof {
        assert(v@.subrange(0, v.len() as int) =~= v@);
    }
    slice_chars(v, 0, j)
}

/// Whether every character of `v` is whitespace.
pub fn is_blank(v: &Vec<char>) -> (b: bool)
    ensures
        b == all_ws(v@),
{
    let i = trim_start_index(v);
    proof {
        if i < v.len() {
            assert(!is_ws(v@[i as int]));
        }
    }
    i == v.len()
}

/// `v` without the copies of `c` at its end.
pub fn trim_end_matching(v: &Vec<char>, c: char) -> (r: Vec<char>)
    ensures
        r@ == trim_end_char(v@, c),
{
    let mut j: usize = v.len();
    proof {
        assert(v@.take(v.len() as int) =~= v@);
    }
    while j > 0 && v[j - 1] == c
        invariant
            j <= v.len(),
            trim_end_char(v@, c) == trim_end_char(v@.take(j as int), c),
        decreases j,
    {
        proof {
            lemma_trim_end_char_take(v@, c, j as int);
        }
        j -= 1;
    }
    proof {
        assert(v@.take(j as int) =~= v@.subrange(0, j as int));
    }
    slice_chars(v, 0, j)
}

// ---------------------------------------------------------------------------
// Building strings
// ---------------------------------------------------------------------------

/// Appends one character to a string.
#[verifier::external_body]
fn push_char(s: &mut String, c: char)
    ensures
        final(s)@ == old(s)@.push(c),
{
    s.push(c);
}

/// The characters of a string slice, in order.
pub fn chars_of(s: &str) -> (v: Vec<char>)
    ensures
        v@ == s@,
{
    let mut v: Vec<char> = Vec::new();
    for c in it: s.chars()
        invariant
            v@ == it.seq().take(it.index() as int),
            it.seq() == s@,
    {
        v.push(c);
    }
    v
}

/// A string holding exactly the given characters.
pub fn string_of(v: &Vec<char>) -> (s: String)
    ensures
        s@ == v@,
{
    let mut s = String::new();
    let mut i: usize = 0;
    while i < v.len()
        invariant
            i <= v.len(),
            s@ == v@.take(i as int),
        decreases v.len() - i,
    {
        push_char(&mut s, v[i]);
        i += 1;
        proof {
            assert(s@ =~= v@.take(i as int));
        }
    }
    proof {
        assert(v@.take(v.len() as int) =~= v@);
    }
    s
}

/// Appends all characters of `w` to `v`.
pub fn extend_chars(v: &mut Vec<char>, w: &Vec<char>)
    ensures
        final(v)@ == old(v)@ + w@,
{
    let mut i: usize = 0;
    while i < w.len()
        invariant
            i <= w.len(),
            v@ == old(v)@ + w@.take(i as int),
        decreases w.len() - i,
    {
        v.push(w[i]);
        i += 1;
        proof {
            assert(v@ =~= old(v)@ + w@.take(i as int));
        }
    }
    proof {
        assert(w@.take(w.len() as int) =~= w@);
    }
}


// ---------------------------------------------------------------------------
// Searching
// ---------------------------------------------------------------------------

/// `n` occurs in `h` at position `i`.
pub open spec fn matches_at(h: Seq<char>, n: Seq<char>, i: int) -> bool {
    0 <= i && i + n.len() <= h.len() && h.subrange(i, i + n.len()) == n
}

/// The first position at or after `i` where `n` occurs in `h`.
pub open spec fn find_from(h: Seq<char>, n: Seq<char>, i: int) -> Option<int>
    decreases h.len() + 1 - i,
{
    if i < 0 || i + n.len() > h.len() {
        None
    } else if matches_at(h, n, i) {
        Some(i)
    } else {
        find_from(h, n, i + 1)
    }
}

/// The first position where `n` occurs in `h`, as `str::find` gives it.
pub open spec fn find(h: Seq<char>, n: Seq<char>) -> Option<int> {
    find_from(h, n, 0)
}

/// `h` ends with `suffix`.
pub open spec fn ends_with(h: Seq<char>, suffix: Seq<char>) -> bool {
    matches_at(h, suffix, h.len() - suffix.len())
}

/// `h` starts with `prefix`.
pub open spec fn starts_with(h: Seq<char>, prefix: Seq<char>) -> bool {
    matches_at(h, prefix, 0)
}

pub proof fn lemma_find_from_found(h: Seq<char>, n: Seq<char>, i: int)
    requires
        find_from(h, n, i) is Some,
    ensures
        i <= find_from(h, n, i)->0,
        matches_at(h, n, find_from(h, n, i)->0),
        forall|k: int| i <= k < find_from(h, n, i)->0 ==> !matches_at(h, n, k),
    decreases h.len() + 1 - i,
{
    if i < 0 || i + n.len() > h.len() {
    } else if matches_at(h, n, i) {
    } else {
        lemma_find_from_found(h, n, i + 1);
    }
}

pub proof fn lemma_find_from_none(h: Seq<char>, n: Seq<char>, i: int)
    requires
        0 <= i,
        find_from(h, n, i) is None,
    ensures
        forall|k: int| i <= k ==> !matches_at(h, n, k),
    decreases h.len() + 1 - i,
{
    if i + n.len() > h.len() {
    } else {
        lemma_find_from_none(h, n, i + 1);
    }
}

/// `find` gives the first position at which `n` occurs.
pub proof fn lemma_find_at(h: Seq<char>, n: Seq<char>, j: int)
    requires
        0 <= j,
        matches_at(h, n, j),
        forall|k: int| 0 <= k < j ==> !matches_at(h, n, k),
    ensures
        find(h, n) == Some(j),
{
    lemma_find_from_at(h, n, j, 0);
}

proof fn lemma_find_from_at(h: Seq<char>, n: Seq<char>, j: int, i: int)
    requires
        0 <= i <= j,
        matches_at(h, n, j),
        forall|k: int| 0 <= k < j ==> !matches_at(h, n, k),
    ensures
        find_from(h, n, i) == Some(j),
    decreases j - i,
{
    if i < j {
        assert(!matches_at(h, n, i));
        lemma_find_from_at(h, n, j, i + 1);
    }
}

/// `find` gives nothing where `n` occurs nowhere.
pub proof fn lemma_find_nowhere(h: Seq<char>, n: Seq<char>)
    requires
        forall|k: int| 0 <= k ==> !matches_at(h, n, k),
    ensures
        find(h, n) is None,
{
    lemma_find_from_nowhere(h, n, 0);
}

proof fn lemma_find_from_nowhere(h: Seq<char>, n: Seq<char>, i: int)
    requires
        0 <= i,
        forall|k: int| 0 <= k ==> !matches_at(h, n, k),
    ensures
        find_from(h, n, i) is None,
    decreases h.len() + 1 - i,
{
    if i + n.len() <= h.len() {
        assert(!matches_at(h, n, i));
        lemma_find_from_nowhere(h, n, i + 1);
    }
}

/// Whether `n` occurs in `h` at position `i`.
pub fn matches_at_exec(h: &Vec<char>, n: &Vec<char>, i: usize) -> (b: bool)
    ensures
        b == matches_at(h@, n@, i as int),
{
    if i > h.len() || n.len() > h.len() - i {
        return false;
    }
    let mut k: usize = 0;
    while k < n.len()
        invariant
            i + n.len() <= h.len(),
            k <= n.len(),
            forall|m: int| 0 <= m < k ==> h@[i + m] == n@[m],
        decreases n.len() - k,
    {
        if h[i + k] != n[k] {
            proof {
                assert(h@.subrange(i as int, i + n.len())[k as int] != n@[k as int]);
            }
            return false;
        }
        k += 1;
    }
    proof {
        assert(h@.subrange(i as int, i + n.len()) =~= n@);
    }
    true
}

/// The first position at or after `start` where `n` occurs in `h`.
pub fn find_from_exec(h: &Vec<char>, n: &Vec<char>, start: usize) -> (r: Option<usize>)
    ensures
        match r {
            Some(k) => find_from(h@, n@, start as int) == Some(k as int),
            None => find_from(h@, n@, start as int) is None,
        },
{
    let mut i: usize = start;
    while i <= h.len() && n.len() <= h.len() - i
        invariant
            start <= i,
            find_from(h@, n@, start as int) == find_from(h@, n@, i as int),
        decreases h.len() + 1 - i,
    {
        if matches_at_exec(h, n, i) {
            return Some(i);
        }
        proof {
            if n.len() == 0 {
                assert(h@.subrange(i as int, i as int) =~= n@);
            }
        }
        i += 1;
    }
    None
}

/// Whether `h` ends with `suffix`.
pub fn ends_with_exec(h: &Vec<char>, suffix: &Vec<char>) -> (b: bool)
    ensures
        b == ends_with(h@, suffix@),
{
    if suffix.len() > h.len() {
        return false;
    }
    matches_at_exec(h, suffix, h.len() - suffix.len())
}

// ---------------------------------------------------------------------------
// Replacing
// ---------------------------------------------------------------------------

/// `h` with every occurrence of `from`, found left to right without overlap, replaced by
/// `to`, as `str::replace` gives it (for a non-empty `from`).
pub open spec fn replace_all(h: Seq<char>, from: Seq<char>, to: Seq<char>) -> Seq<char>
    decreases h.len(),
{
    if from.len() == 0 || h.len() < from.len() {
        h
    } else if h.take(from.len() as int) == from {
        to + replace_all(h.skip(from.len() as int), from, to)
    } else {
        seq![h[0]] + replace_all(h.drop_first(), from, to)
    }
}

proof fn lemma_replace_step(h: Seq<char>, from: Seq<char>, to: Seq<char>, i: int)
    requires
        0 <= i < h.len(),
        from.len() > 0,
    ensures
        matches_at(h, from, i) ==> replace_all(h.skip(i), from, to) == to + replace_all(
            h.skip(i + from.len()),
            from,
            to,
        ),
        !matches_at(h, from, i) ==> replace_all(h.skip(i), from, to) == seq![h[i]]
            + replace_all(h.skip(i + 1), from, to),
{
    let s = h.skip(i);
    if matches_at(h, from, i) {
        assert(s.take(from.len() as int) =~= h.subrange(i, i + from.len()));
        assert(s.skip(from.len() as int) =~= h.skip(i + from.len()));
    } else {
        assert(s.drop_first() =~= h.skip(i + 1));
        if s.len() < from.len() {
            let t = s.drop_first();
            assert(replace_all(t, from, to) == t);
            assert(seq![h[i]] + t =~= s);
        } else {
            assert(s.take(from.len() as int) =~= h.subrange(i, i + from.len()));
        }
    }
}

/// `h` with every occurrence of `from` replaced by `to`.
pub fn replace_all_exec(h: &Vec<char>, from: &Vec<char>, to: &Vec<char>) -> (r: Vec<char>)
    requires
        from.len() > 0,
    ensures
        r@ == replace_all(h@, from@, to@),
{
    let mut out: Vec<char> = Vec::new();
    let mut i: usize = 0;
    proof {
        assert(h@.skip(0) =~= h@);
    }
    while i < h.len()
        invariant
            i <= h.len(),
            from.len() > 0,
            replace_all(h@, from@, to@) == out@ + replace_all(h@.skip(i as int), from@, to@),
        decreases h.len() - i,
    {
        proof {
            lemma_replace_step(h@, from@, to@, i as int);
        }
        let ghost prev = out@;
        if matches_at_exec(h, from, i) {
            extend_chars(&mut out, to);
            proof {
                assert(prev + (to@ + replace_all(h@.skip(i + from.len()), from@, to@)) =~= out@
                    + replace_all(h@.skip(i + from.len()), from@, to@));
            }
            i += from.len();
        } else {
            out.push(h[i]);
            proof {
                assert(prev + (seq![h@[i as int]] + replace_all(h@.skip(i + 1), from@, to@))
                    =~= out@ + replace_all(h@.skip(i + 1), from@, to@));
            }
            i += 1;
        }
    }
    proof {
        assert(h@.skip(i as int) =~= Seq::<char>::empty());
        assert(out@ + Seq::<char>::empty() =~= out@);
    }
    out
}


// ---------------------------------------------------------------------------
// Joining and splitting
// ---------------------------------------------------------------------------

/// `parts` joined with `sep` between neighbours, as `[..].join(sep)` gives it.
pub open spec fn join(parts: Seq<Seq<char>>, sep: Seq<char>) -> Seq<char>
    decreases parts.len(),
{
    if parts.len() == 0 {
        Seq::empty()
    } else if parts.len() == 1 {
        parts[0]
    } else {
        join(parts.drop_last(), sep) + sep + parts.last()
    }
}

/// Joining two non-empty runs of parts gives the two joins with `sep` between them.
pub proof fn lemma_join_concat(a: Seq<Seq<char>>, b: Seq<Seq<char>>, sep: Seq<char>)
    requires
        a.len() > 0,
        b.len() > 0,
    ensures
        join(a + b, sep) == join(a, sep) + sep + join(b, sep),
    decreases b.len(),
{
    if b.len() == 1 {
        assert((a + b).drop_last() =~= a);
        assert((a + b).last() == b[0]);
    } else {
        lemma_join_concat(a, b.drop_last(), sep);
        assert((a + b).drop_last() =~= a + b.drop_last());
        assert((a + b).last() == b.last());
    }
}

/// What `trim_start_ws` keeps is a trailing part of the text.
pub proof fn lemma_trim_start_suffix(s: Seq<char>)
    ensures
        trim_start_ws(s).len() <= s.len(),
        trim_start_ws(s) == s.skip(s.len() - trim_start_ws(s).len()),
    decreases s.len(),
{
    if s.len() > 0 && is_ws(s[0]) {
        lemma_trim_start_suffix(s.drop_first());
        let t = trim_start_ws(s.drop_first());
        assert(s.drop_first().skip(s.drop_first().len() - t.len()) =~= s.skip(s.len() - t.len()));
    } else {
        assert(s.skip(0) =~= s);
    }
}

/// What `trim_end_ws` keeps is a leading part of the text, and only whitespace follows it.
pub proof fn lemma_trim_end_rest(s: Seq<char>)
    ensures
        trim_end_ws(s).len() <= s.len(),
        trim_end_ws(s) == s.take(trim_end_ws(s).len() as int),
        all_ws(s.skip(trim_end_ws(s).len() as int)),
    decreases s.len(),
{
    lemma_trim_end_prefix(s);
    if s.len() > 0 && is_ws(s.last()) {
        lemma_trim_end_rest(s.drop_last());
        let n = trim_end_ws(s).len() as int;
        assert forall|i: int| 0 <= i < s.skip(n).len() implies is_ws(#[trigger] s.skip(n)[i]) by {
            if n + i < s.len() - 1 {
                assert(s.skip(n)[i] == s.drop_last().skip(n)[i]);
            } else {
                assert(s.skip(n)[i] == s.last());
            }
        }
    } else {
        assert(s.skip(s.len() as int).len() == 0);
    }
}

/// Trimming the start of `a + b`: where `a` is all whitespace, what trimming `b` gives;
/// otherwise `a` trimmed, then `b`.
pub proof fn lemma_trim_start_concat(a: Seq<char>, b: Seq<char>)
    ensures
        all_ws(a) ==> trim_start_ws(a + b) == trim_start_ws(b),
        !all_ws(a) ==> trim_start_ws(a + b) == trim_start_ws(a) + b,
    decreases a.len(),
{
    if a.len() == 0 {
        assert(a + b =~= b);
    } else {
        assert((a + b)[0] == a[0]);
        assert((a + b).drop_first() =~= a.drop_first() + b);
        if is_ws(a[0]) {
            lemma_trim_start_concat(a.drop_first(), b);
            if all_ws(a) {
                assert forall|i: int| 0 <= i < a.drop_first().len() implies is_ws(
                    #[trigger] a.drop_first()[i],
                ) by {
                    assert(a.drop_first()[i] == a[i + 1]);
                }
            }
            if !all_ws(a) {
                let k = choose|k: int| 0 <= k < a.len() && !is_ws(#[trigger] a[k]);
                assert(a.drop_first()[k - 1] == a[k]);
            }
        } else {
            assert(!all_ws(a));
        }
    }
}

/// Trimming the end of `a + b`: where `b` is all whitespace, what trimming `a` gives;
/// otherwise `a`, then `b` trimmed.
pub proof fn lemma_trim_end_concat(a: Seq<char>, b: Seq<char>)
    ensures
        all_ws(b) ==> trim_end_ws(a + b) == trim_end_ws(a),
        !all_ws(b) ==> trim_end_ws(a + b) == a + trim_end_ws(b),
    decreases b.len(),
{
    if b.len() == 0 {
        assert(a + b =~= a);
    } else {
        assert((a + b).last() == b.last());
        assert((a + b).drop_last() =~= a + b.drop_last());
        if is_ws(b.last()) {
            lemma_trim_end_concat(a, b.drop_last());
            if all_ws(b) {
                assert forall|i: int| 0 <= i < b.drop_last().len() implies is_ws(
                    #[trigger] b.drop_last()[i],
                ) by {
                    assert(b.drop_last()[i] == b[i]);
                }
            }
            if !all_ws(b) {
                let k = choose|k: int| 0 <= k < b.len() && !is_ws(#[trigger] b[k]);
                assert(k < b.len() - 1);
                assert(b.drop_last()[k] == b[k]);
            }
        } else {
            assert(!is_ws(b[b.len() - 1]));
        }
    }
}

/// Trimming the start of lines joined with `'\n'` trims the start of one of them and drops
/// those before it.
pub proof fn lemma_trim_start_join(ls: Seq<Seq<char>>)
    requires
        ls.len() >= 1,
    ensures
        exists|f: int|
            0 <= f < ls.len() && trim_start_ws(join(ls, seq!['\n'])) == join(
                seq![trim_start_ws(#[trigger] ls[f])] + ls.skip(f + 1),
                seq!['\n'],
            ),
    decreases ls.len(),
{
    let nl = seq!['\n'];
    if ls.len() == 1 {
        assert(seq![trim_start_ws(ls[0])] + ls.skip(1) =~= seq![trim_start_ws(ls[0])]);
        assert(trim_start_ws(join(ls, nl)) == join(seq![trim_start_ws(ls[0])] + ls.skip(1), nl));
    } else {
        let rest = ls.skip(1);
        lemma_join_concat(seq![ls[0]], rest, nl);
        assert(seq![ls[0]] + rest =~= ls);
        let tail = nl + join(rest, nl);
        assert(join(ls, nl) =~= ls[0] + tail);
        if all_ws(ls[0]) {
            lemma_trim_start_concat(ls[0] + nl, join(rest, nl));
            assert(all_ws(ls[0] + nl)) by {
                assert forall|i: int| 0 <= i < (ls[0] + nl).len() implies is_ws(
                    #[trigger] (ls[0] + nl)[i],
                ) by {
                    if i < ls[0].len() {
                        assert((ls[0] + nl)[i] == ls[0][i]);
                    }
                }
            }
            assert(join(ls, nl) =~= (ls[0] + nl) + join(rest, nl));
            lemma_trim_start_join(rest);
            let f = choose|f: int|
                0 <= f < rest.len() && trim_start_ws(join(rest, nl)) == join(
                    seq![trim_start_ws(#[trigger] rest[f])] + rest.skip(f + 1),
                    nl,
                );
            assert(rest[f] == ls[f + 1]);
            assert(rest.skip(f + 1) =~= ls.skip(f + 2));
            assert(trim_start_ws(join(ls, nl)) == join(
                seq![trim_start_ws(ls[f + 1])] + ls.skip(f + 2),
                nl,
            ));
        } else {
            lemma_trim_start_concat(ls[0], tail);
            lemma_join_concat(seq![trim_start_ws(ls[0])], rest, nl);
            assert(trim_start_ws(join(ls, nl)) == join(seq![trim_start_ws(ls[0])] + ls.skip(1), nl));
        }
    }
}

/// Trimming the end of lines joined with `'\n'` trims the end of one of them and drops
/// those after it.
pub proof fn lemma_trim_end_join(ls: Seq<Seq<char>>)
    requires
        ls.len() >= 1,
    ensures
        exists|g: int|
            0 <= g < ls.len() && trim_end_ws(join(ls, seq!['\n'])) == join(
                ls.take(g).push(trim_end_ws(#[trigger] ls[g])),
                seq!['\n'],
            ) && forall|h: int| g < h < ls.len() ==> all_ws(#[trigger] ls[h]),
    decreases ls.len(),
{
    let nl = seq!['\n'];
    let n = ls.len() - 1;
    if ls.len() == 1 {
        assert(ls.take(0).push(trim_end_ws(ls[0])) =~= seq![trim_end_ws(ls[0])]);
    } else {
        let init = ls.drop_last();
        let tail = nl + ls.last();
        assert(join(ls, nl) =~= join(init, nl) + tail);
        if all_ws(ls.last()) {
            assert(all_ws(tail)) by {
                assert forall|i: int| 0 <= i < tail.len() implies is_ws(#[trigger] tail[i]) by {
                    if i > 0 {
                        assert(tail[i] == ls.last()[i - 1]);
                    }
                }
            }
            lemma_trim_end_concat(join(init, nl), tail);
            lemma_trim_end_join(init);
            let g = choose|g: int|
                0 <= g < init.len() && trim_end_ws(join(init, nl)) == join(
                    init.take(g).push(trim_end_ws(#[trigger] init[g])),
                    nl,
                ) && forall|h: int| g < h < init.len() ==> all_ws(#[trigger] init[h]);
            assert(init[g] == ls[g]);
            assert(init.take(g) =~= ls.take(g));
            assert forall|h: int| g < h < ls.len() implies all_ws(#[trigger] ls[h]) by {
                if h < init.len() {
                    assert(init[h] == ls[h]);
                } else {
                    assert(ls[h] == ls.last());
                }
            }
        } else {
            assert(!all_ws(tail)) by {
                let k = choose|k: int| 0 <= k < ls.last().len() && !is_ws(#[trigger] ls.last()[k]);
                assert(tail[k + 1] == ls.last()[k]);
            }
            lemma_trim_end_concat(join(init, nl), tail);
            lemma_trim_end_concat(nl, ls.last());
            let m = ls.take(n).push(trim_end_ws(ls[n]));
            assert(m.drop_last() =~= init);
            assert(ls[n] == ls.last());
            assert(join(m, nl) == join(init, nl) + nl + trim_end_ws(ls.last()));
            assert(trim_end_ws(join(ls, nl)) =~= join(init, nl) + nl + trim_end_ws(ls.last()));
        }
    }
}

/// The views of a vector of character vectors.
pub open spec fn views(v: Seq<Vec<char>>) -> Seq<Seq<char>> {
    v.map_values(|w: Vec<char>| w@)
}

/// `parts` joined with `sep` between neighbours.
pub fn join_exec(parts: &Vec<Vec<char>>, sep: &Vec<char>) -> (r: Vec<char>)
    ensures
        r@ == join(views(parts@), sep@),
{
    let ghost vs = views(parts@);
    let mut r: Vec<char> = Vec::new();
    let mut i: usize = 0;
    while i < parts.len()
        invariant
            i <= parts.len(),
            vs == views(parts@),
            r@ == join(vs.take(i as int), sep@),
        decreases parts.len() - i,
    {
        proof {
            assert(vs.take(i + 1).drop_last() =~= vs.take(i as int));
            if i == 0 {
                assert(vs.take(1) =~= seq![vs[0]]);
            }
        }
        if i > 0 {
            extend_chars(&mut r, sep);
        }
        extend_chars(&mut r, &parts[i]);
        i += 1;
    }
    proof {
        assert(vs.take(parts.len() as int) =~= vs);
    }
    r
}

/// `t` split at every `c`, as `str::split` with a character gives it: one piece more than
/// there are copies of `c`, the empty ones included.
pub open spec fn split_on(t: Seq<char>, c: char) -> Seq<Seq<char>>
    decreases t.len(),
{
    if t.len() == 0 {
        seq![Seq::empty()]
    } else {
        let init = split_on(t.drop_last(), c);
        if t.last() == c {
            init.push(Seq::empty())
        } else {
            init.update(init.len() - 1, init.last().push(t.last()))
        }
    }
}

/// A split gives at least one piece.
pub proof fn lemma_split_on_nonempty(t: Seq<char>, c: char)
    ensures
        split_on(t, c).len() >= 1,
    decreases t.len(),
{
    if t.len() > 0 {
        lemma_split_on_nonempty(t.drop_last(), c);
    }
}

/// No piece of a split at `c` holds `c`.
pub proof fn lemma_split_on_pieces(t: Seq<char>, c: char)
    ensures
        forall|i: int| 0 <= i < split_on(t, c).len() ==> !(#[trigger] split_on(t, c)[i]).contains(c),
    decreases t.len(),
{
    if t.len() > 0 {
        lemma_split_on_pieces(t.drop_last(), c);
        lemma_split_on_nonempty(t.drop_last(), c);
        let init = split_on(t.drop_last(), c);
        if t.last() != c {
            let l = init.last().push(t.last());
            assert(!l.contains(c)) by {
                if l.contains(c) {
                    let k = choose|k: int| 0 <= k < l.len() && l[k] == c;
                    assert(k < l.len() - 1);
                    assert(init.last()[k] == c);
                    assert(init[init.len() - 1] == init.last());
                }
            }
            let r = split_on(t, c);
            assert forall|i: int| 0 <= i < r.len() implies !(#[trigger] r[i]).contains(c) by {
                if i < init.len() - 1 {
                    assert(r[i] == init[i]);
                }
            }
        } else {
            let r = split_on(t, c);
            assert forall|i: int| 0 <= i < r.len() implies !(#[trigger] r[i]).contains(c) by {
                if i < init.len() {
                    assert(r[i] == init[i]);
                }
            }
        }
    }
}

/// Appending text without `c` extends the last piece of a split.
proof fn lemma_split_on_extend(x: Seq<char>, b: Seq<char>, c: char)
    requires
        !b.contains(c),
    ensures
        split_on(x + b, c) == split_on(x, c).update(
            split_on(x, c).len() - 1,
            split_on(x, c).last() + b,
        ),
    decreases b.len(),
{
    lemma_split_on_nonempty(x, c);
    let s = split_on(x, c);
    if b.len() == 0 {
        assert(x + b =~= x);
        assert(s.last() + b =~= s.last());
        assert(s.update(s.len() - 1, s.last()) =~= s);
    } else {
        let bd = b.drop_last();
        assert(!bd.contains(c)) by {
            if bd.contains(c) {
                let k = choose|k: int| 0 <= k < bd.len() && bd[k] == c;
                assert(b[k] == c);
            }
        }
        assert(b.last() != c) by {
            assert(b[b.len() - 1] == b.last());
        }
        lemma_split_on_extend(x, bd, c);
        assert((x + b).drop_last() =~= x + bd);
        assert((x + b).last() == b.last());
        let init = s.update(s.len() - 1, s.last() + bd);
        assert(init.len() == s.len());
        assert(init.last() == s.last() + bd);
        assert((s.last() + bd).push(b.last()) =~= s.last() + b);
        assert(split_on(x + b, c) == init.update(init.len() - 1, init.last().push(b.last())));
        assert(split_on(x + b, c) =~= s.update(s.len() - 1, s.last() + b));
    }
}

/// Splitting text joined with `c` gives back its pieces, where none of them holds `c`.
pub proof fn lemma_split_on_join(parts: Seq<Seq<char>>, c: char)
    requires
        parts.len() >= 1,
        forall|i: int| 0 <= i < parts.len() ==> !(#[trigger] parts[i]).contains(c),
    ensures
        split_on(join(parts, seq![c]), c) == parts,
    decreases parts.len(),
{
    if parts.len() == 1 {
        let e = Seq::<char>::empty();
        lemma_split_on_extend(e, parts[0], c);
        assert(e + parts[0] =~= parts[0]);
        assert(split_on(e, c) == seq![e]);
        assert(e + parts[0] =~= parts[0]);
        assert(seq![e].update(0, parts[0]) =~= parts);
    } else {
        let init = parts.drop_last();
        assert forall|i: int| 0 <= i < init.len() implies !(#[trigger] init[i]).contains(c) by {
            assert(init[i] == parts[i]);
        }
        lemma_split_on_join(init, c);
        let a = join(init, seq![c]);
        let ac = a + seq![c];
        assert(ac.drop_last() =~= a);
        assert(ac.last() == c);
        assert(split_on(ac, c) == parts.drop_last().push(Seq::empty()));
        assert(!parts.last().contains(c)) by {
            assert(parts.last() == parts[parts.len() - 1]);
        }
        lemma_split_on_extend(ac, parts.last(), c);
        assert(join(parts, seq![c]) == ac + parts.last());
        assert(Seq::<char>::empty() + parts.last() =~= parts.last());
        assert(parts.drop_last().push(Seq::empty()).update(
            parts.len() - 1,
            Seq::<char>::empty() + parts.last(),
        ) =~= parts);
    }
}

/// `v` split at every `c`.
pub fn split_on_exec(v: &Vec<char>, c: char) -> (r: Vec<Vec<char>>)
    ensures
        views(r@) == split_on(v@, c),
{
    let mut segs: Vec<Vec<char>> = Vec::new();
    let mut cur: Vec<char> = Vec::new();
    let mut i: usize = 0;
    proof {
        assert(v@.take(0) =~= Seq::<char>::empty());
        assert(views(segs@).push(cur@) =~= seq![Seq::<char>::empty()]);
    }
    while i < v.len()
        invariant
            i <= v.len(),
            views(segs@).push(cur@) == split_on(v@.take(i as int), c),
        decreases v.len() - i,
    {
        let ghost before = views(segs@).push(cur@);
        proof {
            assert(v@.take(i + 1).drop_last() =~= v@.take(i as int));
            assert(v@.take(i + 1).last() == v@[i as int]);
        }
        if v[i] == c {
            let done = cur;
            segs.push(done);
            cur = Vec::new();
            proof {
                assert(views(segs@).push(cur@) =~= before.push(Seq::empty()));
            }
        } else {
            cur.push(v[i]);
            proof {
                assert(views(segs@).push(cur@) =~= before.update(
                    before.len() - 1,
                    before.last().push(v@[i as int]),
                ));
            }
        }
        i += 1;
    }
    proof {
        assert(v@.take(v.len() as int) =~= v@);
    }
    let ghost all = views(segs@).push(cur@);
    segs.push(cur);
    proof {
        assert(views(segs@) =~= all);
    }
    segs
}

/// `l` without a final carriage return.
pub open spec fn strip_cr(l: Seq<char>) -> Seq<char> {
    if l.len() > 0 && l.last() == '\r' {
        l.drop_last()
    } else {
        l
    }
}

/// The lines of `s` from position `i` on, as `str::lines` gives them: split at `'\n'`, a
/// `'\r'` before a `'\n'` dropped, and no empty line after a final `'\n'`.
pub open spec fn lines_from(s: Seq<char>, i: int) -> Seq<Seq<char>>
    decreases s.len() - i,
{
    if i < 0 || i >= s.len() {
        Seq::empty()
    } else {
        match find_from(s, seq!['\n'], i) {
            Some(k) => {
                proof {
                    lemma_find_from_found(s, seq!['\n'], i);
                }
                seq![strip_cr(s.subrange(i, k))] + lines_from(s, k + 1)
            },
            None => seq![s.subrange(i, s.len() as int)],
        }
    }
}

/// The lines of `s`, as `str::lines` gives them.
pub open spec fn lines(s: Seq<char>) -> Seq<Seq<char>> {
    lines_from(s, 0)
}

/// `l` without a final carriage return.
fn strip_cr_exec(l: Vec<char>) -> (r: Vec<char>)
    ensures
        r@ == strip_cr(l@),
{
    let mut l = l;
    if l.len() > 0 && l[l.len() - 1] == '\r' {
        l.pop();
    }
    l
}

/// The lines of `v`.
pub fn split_lines(v: &Vec<char>) -> (r: Vec<Vec<char>>)
    ensures
        views(r@) == lines(v@),
{
    let mut r: Vec<Vec<char>> = Vec::new();
    let mut i: usize = 0;
    let nl: Vec<char> = vec!['\n'];
    proof {
        assert(nl@ =~= seq!['\n']);
    }
    while i < v.len()
        invariant
            i <= v.len(),
            nl@ == seq!['\n'],
            lines(v@) == views(r@) + lines_from(v@, i as int),
        decreases v.len() - i,
    {
        let ghost prev = views(r@);
        match find_from_exec(v, &nl, i) {
            Some(k) => {
                proof {
                    lemma_find_from_found(v@, nl@, i as int);
                }
                let line = strip_cr_exec(slice_chars(v, i, k));
                r.push(line);
                proof {
                    assert(views(r@) =~= prev + seq![line@]);
                }
                i = k + 1;
            },
            None => {
                let line = slice_chars(v, i, v.len());
                r.push(line);
                proof {
                    assert(views(r@) =~= prev + seq![line@]);
                    assert(lines_from(v@, v.len() as int) =~= Seq::<Seq<char>>::empty());
                }
                i = v.len();
            },
        }
    }
    proof {
        assert(views(r@) + Seq::<Seq<char>>::empty() =~= views(r@));
    }
    r
}

// ---------------------------------------------------------------------------
// Decimal numbers
// ---------------------------------------------------------------------------

/// The ASCII digit for `d` (`0 <= d < 10`).
pub open spec fn digit_char(d: int) -> char {
    if d == 0 {
        '0'
    } else if d == 1 {
        '1'
    } else if d == 2 {
        '2'
    } else if d == 3 {
        '3'
    } else if d == 4 {
        '4'
    } else if d == 5 {
        '5'
    } else if d == 6 {
        '6'
    } else if d == 7 {
        '7'
    } else if d == 8 {
        '8'
    } else {
        '9'
    }
}

/// `n` written in decimal without leading zeros, as `n.to_string()` gives it.
pub open spec fn decimal(n: nat) -> Seq<char>
    decreases n,
{
    if n < 10 {
        seq![digit_char(n as int)]
    } else {
        decimal(n / 10).push(digit_char((n % 10) as int))
    }
}

/// `x` written in decimal with a leading `'-'` when negative, as `x.to_string()` gives it.
pub open spec fn signed_decimal(x: int) -> Seq<char> {
    if x < 0 {
        seq!['-'] + decimal((-x) as nat)
    } else {
        decimal(x as nat)
    }
}

fn digit_char_exec(d: u64) -> (c: char)
    requires
        d < 10,
    ensures
        c == digit_char(d as int),
{
    if d == 0 {
        '0'
    } else if d == 1 {
        '1'
    } else if d == 2 {
        '2'
    } else if d == 3 {
        '3'
    } else if d == 4 {
        '4'
    } else if d == 5 {
        '5'
    } else if d == 6 {
        '6'
    } else if d == 7 {
        '7'
    } else if d == 8 {
        '8'
    } else {
        '9'
    }
}

/// `n` written in decimal.
pub fn decimal_exec(n: u64) -> (r: Vec<char>)
    ensures
        r@ == decimal(n as nat),
    decreases n,
{
    if n < 10 {
        let v = vec![digit_char_exec(n)];
        proof {
            assert(v@ =~= seq![digit_char(n as int)]);
        }
        v
    } else {
        let mut v = decimal_exec(n / 10);
        v.push(digit_char_exec(n % 10));
        v
    }
}

/// `x` written in decimal, with a leading `'-'` when negative.
pub fn signed_decimal_exec(x: i64) -> (r: Vec<char>)
    ensures
        r@ == signed_decimal(x as int),
{
    if x < 0 {
        let mag: u64 = if x == i64::MIN {
            0x8000_0000_0000_0000u64
        } else {
            (-x) as u64
        };
        let mut r = vec!['-'];
        let d = decimal_exec(mag);
        extend_chars(&mut r, &d);
        proof {
            assert(r@ =~= seq!['-'] + decimal((-x) as nat));
        }
        r
    } else {
        decimal_exec(x as u64)
    }
}

/// `c` is an ASCII digit.
pub open spec fn is_digit(c: char) -> bool {
    '0' <= c <= '9'
}

/// The value of an ASCII digit.
pub open spec fn digit_value(c: char) -> int {
    (c as u32) - ('0' as u32)
}

/// Every character of `s` is an ASCII digit.
pub open spec fn all_digits(s: Seq<char>) -> bool {
    forall|i: int| 0 <= i < s.len() ==> is_digit(#[trigger] s[i])
}

/// The number that the digits `s` write in decimal.
pub open spec fn digits_value(s: Seq<char>) -> int
    decreases s.len(),
{
    if s.len() == 0 {
        0
    } else {
        digits_value(s.drop_last()) * 10 + digit_value(s.last())
    }
}

/// What `str::parse::<i64>` gives for `s`: an optional sign, then one or more ASCII
/// digits, in the range of `i64`.
pub open spec fn parse_i64(s: Seq<char>) -> Option<int> {
    let neg = s.len() > 0 && s[0] == '-';
    let body = if s.len() > 0 && (s[0] == '-' || s[0] == '+') {
        s.drop_first()
    } else {
        s
    };
    let v = if neg {
        -digits_value(body)
    } else {
        digits_value(body)
    };
    if body.len() == 0 || !all_digits(body) || v < i64::MIN || v > i64::MAX {
        None
    } else {
        Some(v)
    }
}

proof fn lemma_digits_value_nonneg(s: Seq<char>)
    requires
        all_digits(s),
    ensures
        digits_value(s) >= 0,
    decreases s.len(),
{
    if s.len() > 0 {
        lemma_digits_value_nonneg(s.drop_last());
    }
}

proof fn lemma_digits_value_prefix(s: Seq<char>, i: int)
    requires
        all_digits(s),
        0 <= i <= s.len(),
    ensures
        digits_value(s.take(i)) <= digits_value(s),
    decreases s.len(),
{
    if i < s.len() {
        assert(s.drop_last().take(i) =~= s.take(i));
        lemma_digits_value_prefix(s.drop_last(), i);
        lemma_digits_value_nonneg(s.drop_last());
    } else {
        assert(s.take(i) =~= s);
    }
}

proof fn lemma_digit_char(d: int)
    requires
        0 <= d < 10,
    ensures
        is_digit(digit_char(d)),
        digit_value(digit_char(d)) == d,
{
}

/// The decimal form of `n` is a non-empty run of digits that stands for `n`.
pub proof fn lemma_decimal_digits(n: nat)
    ensures
        decimal(n).len() > 0,
        all_digits(decimal(n)),
        digits_value(decimal(n)) == n,
    decreases n,
{
    if n < 10 {
        lemma_digit_char(n as int);
        let d = decimal(n);
        assert(d.drop_last() =~= Seq::<char>::empty());
        assert(digits_value(d.drop_last()) == 0);
    } else {
        lemma_decimal_digits(n / 10);
        lemma_digit_char((n % 10) as int);
        let d = decimal(n);
        assert(d.drop_last() =~= decimal(n / 10));
        assert(d.last() == digit_char((n % 10) as int));
        assert((n / 10) * 10 + n % 10 == n);
        assert forall|i: int| 0 <= i < d.len() implies is_digit(#[trigger] d[i]) by {
            if i < d.len() - 1 {
                assert(d[i] == decimal(n / 10)[i]);
            }
        }
    }
}

/// Reading back what `signed_decimal` writes gives the number again.
pub proof fn lemma_parse_signed_decimal(x: int)
    requires
        i64::MIN <= x <= i64::MAX,
    ensures
        parse_i64(signed_decimal(x)) == Some(x),
{
    if x < 0 {
        lemma_decimal_digits((-x) as nat);
        let s = signed_decimal(x);
        assert(s.drop_first() =~= decimal((-x) as nat));
    } else {
        lemma_decimal_digits(x as nat);
        let d = decimal(x as nat);
        assert(is_digit(d[0]));
    }
}

fn is_digit_exec(c: char) -> (b: bool)
    ensures
        b == is_digit(c),
{
    '0' <= c && c <= '9'
}

/// Reads an `i64` written in decimal, as `str::parse::<i64>` does.
pub fn parse_i64_exec(v: &Vec<char>) -> (r: Option<i64>)
    ensures
        match r {
            Some(x) => parse_i64(v@) == Some(x as int),
            None => parse_i64(v@) is None,
        },
{
    let neg = v.len() > 0 && v[0] == '-';
    let start: usize = if v.len() > 0 && (v[0] == '-' || v[0] == '+') {
        1
    } else {
        0
    };
    let ghost body = if v@.len() > 0 && (v@[0] == '-' || v@[0] == '+') {
        v@.drop_first()
    } else {
        v@
    };
    proof {
        assert(body =~= v@.skip(start as int));
    }
    if start >= v.len() {
        return None;
    }
    // magnitude allowed: 2^63 when negative, 2^63 - 1 otherwise
    let bound: u64 = if neg {
        0x8000_0000_0000_0000u64
    } else {
        0x7fff_ffff_ffff_ffffu64
    };
    let mut acc: u64 = 0;
    let mut i: usize = start;
    while i < v.len()
        invariant
            start <= i <= v.len(),
            start < v.len(),
            body == v@.skip(start as int),
            body == (if v@.len() > 0 && (v@[0] == '-' || v@[0] == '+') {
                v@.drop_first()
            } else {
                v@
            }),
            neg == (v@.len() > 0 && v@[0] == '-'),
            bound == (if neg {
                0x8000_0000_0000_0000u64
            } else {
                0x7fff_ffff_ffff_ffffu64
            }),
            acc <= bound,
            all_digits(body.take(i - start)),
            acc == digits_value(body.take(i - start)),
        decreases v.len() - i,
    {
        let c = v[i];
        if !is_digit_exec(c) {
            proof {
                assert(body[i - start] == c);
                assert(!all_digits(body));
            }
            return None;
        }
        let d: u64 = (c as u32 - '0' as u32) as u64;
        assert(d <= 9);
        proof {
            assert(body.take(i + 1 - start).drop_last() =~= body.take(i - start));
            assert(body.take(i + 1 - start).last() == c);
            assert(all_digits(body.take(i + 1 - start))) by {
                assert forall|k: int| 0 <= k < i + 1 - start implies is_digit(
                    #[trigger] body.take(i + 1 - start)[k],
                ) by {
                    if k < i - start {
                        assert(body.take(i + 1 - start)[k] == body.take(i - start)[k]);
                    }
                }
            }
        }
        if acc > (bound - d) / 10 {
            proof {
                assert(acc * 10 + d > bound) by (nonlinear_arith)
                    requires
                        acc > (bound - d) / 10,
                        d <= 9,
                        bound >= 9,
                ;
                // the rest of the digits can only make the number larger
                let rest_ok = all_digits(body);
                if rest_ok {
                    lemma_digits_value_prefix(body, i + 1 - start);
                }
            }
            return None;
        }
        acc = acc * 10 + d;
        i += 1;
    }
    proof {
        assert(body.take(i - start) =~= body);
    }
    if neg {
        if acc == 0x8000_0000_0000_0000u64 {
            Some(i64::MIN)
        } else {
            Some(-(acc as i64))
        }
    } else {
        Some(acc as i64)
    }
}


// ---------------------------------------------------------------------------
// Paths
// ---------------------------------------------------------------------------

/// `base` joined with a relative or absolute `part`, as `Path::join` does it with `'/'` as
/// the separator: an absolute `part` replaces `base`, an empty `base` gives `part`, and a
/// `'/'` is put between them unless `base` already ends with one.
pub open spec fn path_join(base: Seq<char>, part: Seq<char>) -> Seq<char> {
    if part.len() > 0 && part[0] == '/' {
        part
    } else if base.len() == 0 {
        part
    } else if base.last() == '/' {
        base + part
    } else {
        base + seq!['/'] + part
    }
}

/// `base` joined with `part`.
pub fn path_join_exec(base: &Vec<char>, part: &Vec<char>) -> (r: Vec<char>)
    ensures
        r@ == path_join(base@, part@),
{
    if part.len() > 0 && part[0] == '/' {
        slice_chars(part, 0, part.len())
    } else if base.len() == 0 {
        slice_chars(part, 0, part.len())
    } else {
        let mut r = slice_chars(base, 0, base.len());
        if base[base.len() - 1] != '/' {
            r.push('/');
        }
        extend_chars(&mut r, part);
        r
    }
}

/// `base` joined with `part`, as strings.
pub fn join_path(base: &str, part: &str) -> (r: String)
    ensures
        r@ == path_join(base@, part@),
{
    let r = path_join_exec(&chars_of(base), &chars_of(part));
    string_of(&r)
}

/// The position of the last `'/'` in `p`.
pub open spec fn last_slash(p: Seq<char>) -> Option<int>
    decreases p.len(),
{
    if p.len() == 0 {
        None
    } else if p.last() == '/' {
        Some(p.len() - 1)
    } else {
        last_slash(p.drop_last())
    }
}

/// The directory part of a path that does not end with `'/'`, as `Path::parent` gives it:
/// the text before its last `'/'` without the `'/'`s that end it, `"/"` where only `'/'`s
/// stand before it, and `""` where it holds no `'/'`.
pub open spec fn parent_path(p: Seq<char>) -> Seq<char> {
    match last_slash(p) {
        None => Seq::empty(),
        Some(i) => {
            let d = trim_end_char(p.take(i), '/');
            if d.len() == 0 {
                seq!['/']
            } else {
                d
            }
        },
    }
}

proof fn lemma_last_slash_take(p: Seq<char>, j: int)
    requires
        0 < j <= p.len(),
        p[j - 1] != '/',
    ensures
        last_slash(p.take(j)) == last_slash(p.take(j - 1)),
{
    assert(p.take(j).drop_last() =~= p.take(j - 1));
}

/// The directory part of a path.
pub fn parent_of(path: &str) -> (r: String)
    ensures
        r@ == parent_path(path@),
{
    let v = chars_of(path);
    let mut j: usize = v.len();
    proof {
        assert(v@.take(v.len() as int) =~= v@);
    }
    while j > 0 && v[j - 1] != '/'
        invariant
            j <= v.len(),
            last_slash(v@) == last_slash(v@.take(j as int)),
        decreases j,
    {
        proof {
            lemma_last_slash_take(v@, j as int);
        }
        j -= 1;
    }
    if j == 0 {
        return String::new();
    }
    proof {
        assert(v@.take(j as int).last() == '/');
        assert(v@.take(j as int).take(j - 1) =~= v@.take(j - 1));
    }
    let before = slice_chars(&v, 0, j - 1);
    proof {
        assert(before@ =~= v@.take(j - 1));
    }
    let d = trim_end_matching(&before, '/');
    if d.len() == 0 {
        proof {
            reveal_strlit("/");
            assert("/"@ =~= seq!['/']);
        }
        return String::from_str("/");
    }
    string_of(&d)
}

/// `s` without the copies of `c` at its start.
pub open spec fn trim_start_char(s: Seq<char>, c: char) -> Seq<char>
    decreases s.len(),
{
    if s.len() > 0 && s[0] == c {
        trim_start_char(s.drop_first(), c)
    } else {
        s
    }
}

/// `path` relative to `base`, as `Path::strip_prefix` gives it for a non-empty `base`
/// written without repeated `'/'`s: the rest after `base` and the `'/'`s that follow it,
/// where `base` is the whole path or a leading part of it that ends at a `'/'`.
pub open spec fn relative_path(path: Seq<char>, base: Seq<char>) -> Option<Seq<char>> {
    if base.len() > 0 && path == base {
        Some(Seq::empty())
    } else if base.len() > 0 && starts_with(path, base) && (base.last() == '/' || (path.len()
        > base.len() && path[base.len() as int] == '/')) {
        Some(trim_start_char(path.skip(base.len() as int), '/'))
    } else {
        None
    }
}

/// `path` relative to `base`.
pub fn relative_to(path: &str, base: &str) -> (r: Option<String>)
    ensures
        match r {
            Some(s) => relative_path(path@, base@) == Some(s@),
            None => relative_path(path@, base@) is None,
        },
{
    let p = chars_of(path);
    let b = chars_of(base);
    if b.len() == 0 || !matches_at_exec(&p, &b, 0) {
        proof {
            assert(p@.subrange(0, p@.len() as int) =~= p@);
        }
        return None;
    }
    proof {
        assert(p@.subrange(0, b@.len() as int) == b@);
    }
    if p.len() == b.len() {
        proof {
            assert(p@ =~= b@);
        }
        return Some(String::new());
    }
    if !(b[b.len() - 1] == '/' || p[b.len()] == '/') {
        proof {
            assert(p@ != b@);
        }
        return None;
    }
    proof {
        assert(p@ != b@);
    }
    let mut i: usize = b.len();
    proof {
        assert(p@.skip(b.len() as int) =~= p@.subrange(b.len() as int, p.len() as int));
    }
    while i < p.len() && p[i] == '/'
        invariant
            b.len() <= i <= p.len(),
            trim_start_char(p@.skip(b.len() as int), '/') == trim_start_char(p@.skip(i as int), '/'),
        decreases p.len() - i,
    {
        proof {
            assert(p@.skip(i as int).drop_first() =~= p@.skip(i + 1));
        }
        i += 1;
    }
    let rest = slice_chars(&p, i, p.len());
    proof {
        assert(rest@ =~= p@.skip(i as int));
    }
    Some(string_of(&rest))
}

/// A `String` holding the characters of `s`.
pub fn to_string(s: &str) -> (r: String)
    ensures
        r@ == s@,
{
    String::from_str(s)
}

// ---------------------------------------------------------------------------
// Lines of joined text
// ---------------------------------------------------------------------------

/// `l` holds no `'\n'`.
pub open spec fn no_newline(l: Seq<char>) -> bool {
    forall|j: int| 0 <= j < l.len() ==> #[trigger] l[j] != '\n'
}

proof fn lemma_find_from_shift(p: Seq<char>, r: Seq<char>, n: Seq<char>, i: int)
    requires
        0 <= i,
    ensures
        find_from(p + r, n, p.len() + i) == match find_from(r, n, i) {
            Some(k) => Some(k + p.len()),
            None => None::<int>,
        },
    decreases r.len() + 1 - i,
{
    let h = p + r;
    if i + n.len() > r.len() {
    } else {
        assert(h.subrange(p.len() + i, p.len() + i + n.len()) =~= r.subrange(i, i + n.len()));
        if !matches_at(r, n, i) {
            lemma_find_from_shift(p, r, n, i + 1);
        }
    }
}

proof fn lemma_lines_shift(p: Seq<char>, r: Seq<char>, i: int)
    requires
        0 <= i,
    ensures
        lines_from(p + r, p.len() + i) == lines_from(r, i),
    decreases r.len() - i,
{
    let h = p + r;
    if i >= r.len() {
    } else {
        lemma_find_from_shift(p, r, seq!['\n'], i);
        match find_from(r, seq!['\n'], i) {
            Some(k) => {
                lemma_find_from_found(r, seq!['\n'], i);
                assert(h.subrange(p.len() + i, p.len() + k) =~= r.subrange(i, k));
                lemma_lines_shift(p, r, k + 1);
            },
            None => {
                assert(h.subrange(p.len() + i, h.len() as int) =~= r.subrange(i, r.len() as int));
            },
        }
    }
}

proof fn lemma_join_front(parts: Seq<Seq<char>>, sep: Seq<char>)
    requires
        parts.len() >= 2,
    ensures
        join(parts, sep) == parts[0] + sep + join(parts.drop_first(), sep),
    decreases parts.len(),
{
    if parts.len() == 2 {
        assert(parts.drop_first().len() == 1);
        assert(parts.drop_last().len() == 1);
        assert(join(parts.drop_first(), sep) == parts[1]);
        assert(join(parts.drop_last(), sep) == parts[0]);
    } else {
        lemma_join_front(parts.drop_last(), sep);
        assert(parts.drop_last().drop_first() =~= parts.drop_first().drop_last());
        assert(parts.drop_first().last() == parts.last());
        assert(parts.drop_last()[0] == parts[0]);
    }
}

proof fn lemma_find_newline_free(l: Seq<char>, r: Seq<char>)
    requires
        no_newline(l),
    ensures
        find_from(l + seq!['\n'] + r, seq!['\n'], 0) == Some(l.len() as int),
{
    let h = l + seq!['\n'] + r;
    assert forall|k: int| 0 <= k < l.len() implies !matches_at(h, seq!['\n'], k) by {
        assert(h.subrange(k, k + 1)[0] == l[k]);
    }
    assert(h.subrange(l.len() as int, l.len() + 1int) =~= seq!['\n']);
    lemma_find_first(h, seq!['\n'], 0, l.len() as int);
}

proof fn lemma_find_first(h: Seq<char>, n: Seq<char>, i: int, k: int)
    requires
        0 <= i <= k,
        matches_at(h, n, k),
        forall|j: int| i <= j < k ==> !matches_at(h, n, j),
    ensures
        find_from(h, n, i) == Some(k),
    decreases k - i,
{
    if i < k {
        lemma_find_first(h, n, i + 1, k);
    }
}

proof fn lemma_lines_single(l: Seq<char>)
    requires
        no_newline(l),
    ensures
        l.len() > 0 ==> lines(l) == seq![l],
        l.len() == 0 ==> lines(l).len() == 0,
{
    if l.len() > 0 {
        if find_from(l, seq!['\n'], 0) is Some {
            lemma_find_from_found(l, seq!['\n'], 0);
            let k = find_from(l, seq!['\n'], 0)->0;
            assert(l.subrange(k, k + 1)[0] == l[k]);
        }
        assert(l.subrange(0, l.len() as int) =~= l);
    }
}

/// The lines of newline-free parts joined with `'\n'`: part `w` comes back as a line, with
/// a final `'\r'` dropped where another part follows it, and kept as it is where it is the
/// last part and not empty.
pub proof fn lemma_lines_of_join(ds: Seq<Seq<char>>, w: int)
    requires
        0 <= w < ds.len(),
        forall|i: int| 0 <= i < ds.len() ==> no_newline(#[trigger] ds[i]),
        w == ds.len() - 1 ==> ds[w].len() > 0,
    ensures
        w < lines(join(ds, seq!['\n'])).len(),
        w < ds.len() - 1 ==> lines(join(ds, seq!['\n']))[w] == strip_cr(ds[w]),
        w == ds.len() - 1 ==> lines(join(ds, seq!['\n']))[w] == ds[w],
    decreases ds.len(),
{
    if ds.len() == 1 {
        assert(join(ds, seq!['\n']) == ds[0]);
        lemma_lines_single(ds[0]);
    } else {
        lemma_join_front(ds, seq!['\n']);
        let rest = join(ds.drop_first(), seq!['\n']);
        let h = ds[0] + seq!['\n'] + rest;
        assert(no_newline(ds[0]));
        lemma_find_newline_free(ds[0], rest);
        assert(h.subrange(0, ds[0].len() as int) =~= ds[0]);
        assert(ds[0] + seq!['\n'] + rest =~= (ds[0] + seq!['\n']) + rest);
        lemma_lines_shift(ds[0] + seq!['\n'], rest, 0);
        assert(lines(h) == seq![strip_cr(ds[0])] + lines(rest));
        if w > 0 {
            assert forall|i: int| 0 <= i < ds.drop_first().len() implies no_newline(
                #[trigger] ds.drop_first()[i],
            ) by {
                assert(ds.drop_first()[i] == ds[i + 1]);
            }
            lemma_lines_of_join(ds.drop_first(), w - 1);
        }
    }
}

/// Each line of a text holds no `'\n'`.
pub proof fn lemma_lines_no_newline(s: Seq<char>, i: int)
    ensures
        forall|k: int| 0 <= k < lines_from(s, i).len() ==> no_newline(#[trigger] lines_from(s, i)[k]),
    decreases s.len() - i,
{
    if i < 0 || i >= s.len() {
    } else {
        match find_from(s, seq!['\n'], i) {
            Some(k) => {
                lemma_find_from_found(s, seq!['\n'], i);
                lemma_lines_no_newline(s, k + 1);
                let first = s.subrange(i, k);
                assert forall|j: int| 0 <= j < first.len() implies #[trigger] first[j] != '\n' by {
                    assert(!matches_at(s, seq!['\n'], i + j));
                    assert(first[j] == s[i + j]);
                    if s[i + j] == '\n' {
                        assert(s.subrange(i + j, i + j + 1) =~= seq!['\n']);
                    }
                }
                let l = strip_cr(first);
                assert forall|j: int| 0 <= j < l.len() implies #[trigger] l[j] != '\n' by {
                    assert(l[j] == first[j]);
                }
                let all = lines_from(s, i);
                assert forall|q: int| 0 <= q < all.len() implies no_newline(#[trigger] all[q]) by {
                    if q > 0 {
                        assert(all[q] == lines_from(s, k + 1)[q - 1]);
                    }
                }
            },
            None => {
                lemma_find_from_none(s, seq!['\n'], i);
                let l = s.subrange(i, s.len() as int);
                assert forall|j: int| 0 <= j < l.len() implies #[trigger] l[j] != '\n' by {
                    assert(!matches_at(s, seq!['\n'], i + j));
                    assert(l[j] == s[i + j]);
                    if s[i + j] == '\n' {
                        assert(s.subrange(i + j, i + j + 1) =~= seq!['\n']);
                    }
                }
            },
        }
    }
}
}
