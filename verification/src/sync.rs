//! The decisions of a sync run: settings from flags and file, the checks before it
//! starts, which accounts and articles it takes on, and what an article's files become.
use vstd::prelude::*;

use crate::client::{ArticleDetail, ArticleInfo, MpInfo};
use crate::config::{comma_string, Config};
use crate::convert::{
    article_markdown, lemma_publish_time_line, yaml_quoted,
    article_body, article_images, article_to_md, conversion, conversion_succeeds,
    header_patterns_compile, header_patterns_ok, image_views, slug_of, slugify,
    strip_content_html_header, stripped_header, front_matter, ExtractedImage, image_ext_of,
    image_ext_from_url,
};
use crate::state::{exhausted, fetched, StateStore};
use crate::text::{
    matches_at,
    all_ws, chars_of, find_from, find_from_exec, is_blank, join, lemma_find_from_found,
    path_join, join_path, slice_chars, string_of, trim_chars, trim_ws, to_string, extend_chars,
    decimal, decimal_exec,
};
use crate::trusted::{
    iso_datetime_text,
    compact_date_text, date_time_timestamp, format_compact_date, parse_date_at,
    unicode_lowercase,
};

verus! {

// ---------------------------------------------------------------------------
// Settings
// ---------------------------------------------------------------------------

/// The settings given on the command line or in the environment; `None` where not given.
pub struct CliOptions {
    pub api_base: Option<String>,
    pub username: Option<String>,
    pub password: Option<String>,
    pub mp: Option<String>,
    pub output: Option<String>,
    pub workspace: Option<String>,
    pub since: Option<String>,
    pub until: Option<String>,
    pub limit: Option<u32>,
    pub download_images: bool,
    pub start_page: Option<i64>,
    pub end_page: Option<i64>,
}

/// The settings a run goes by.
pub struct Resolved {
    pub api_base: String,
    pub username: String,
    pub password: String,
    pub mp: String,
    pub output: String,
    pub workspace: String,
    pub max_failures: u32,
    pub since_ts: Option<i64>,
    pub until_ts: Option<i64>,
    pub limit: u32,
    pub start_page: i64,
    pub end_page: i64,
    pub download_images: bool,
}

/// How `--since` and `--until` dates are written: `YYYY-MM-DD`.
pub const DATE_FORMAT: &'static str = "%Y-%m-%d";

/// The start of the day that a `YYYY-MM-DD` text names, in UTC: `None` for a blank text or
/// one that is no such date.
pub open spec fn date_start(s: Seq<char>) -> Option<int> {
    if trim_ws(s).len() == 0 {
        None
    } else {
        date_time_timestamp(trim_ws(s), DATE_FORMAT@, 0, 0, 0)
    }
}

/// Reads a `YYYY-MM-DD` date as the UNIX time of its start in UTC.
pub fn parse_date(s: &str) -> (r: Option<i64>)
    ensures
        match r {
            Some(t) => date_start(s@) == Some(t as int) && -8_400_000_000_000 <= t
                <= 8_400_000_000_000,
            None => date_start(s@) is None,
        },
{
    let t = trim_chars(&chars_of(s));
    if t.len() == 0 {
        return None;
    }
    let ts = string_of(&t);
    parse_date_at(ts.as_str(), DATE_FORMAT, 0, 0, 0)
}

/// The flag's value where given, the file's otherwise.
pub open spec fn chosen(flag: Option<String>, file: Seq<char>) -> Seq<char> {
    match flag {
        Some(s) => s@,
        None => file,
    }
}

fn choose_string(flag: &Option<String>, file: &String) -> (r: String)
    ensures
        r@ == chosen(*flag, file@),
{
    match flag {
        Some(s) => s.clone(),
        None => file.clone(),
    }
}

/// The flag's value where given, the file's otherwise.
pub open spec fn chosen_num<T>(flag: Option<T>, file: T) -> T {
    match flag {
        Some(x) => x,
        None => file,
    }
}

/// The settings that flags and file give together: each flag overrides the file's
/// setting; the date range is read from the texts, the end of the range pushed to the last
/// second of its day.
pub open spec fn resolved_from(cli: CliOptions, cfg: Config, r: Resolved) -> bool {
    &&& r.api_base@ == chosen(cli.api_base, cfg.api.base@)
    &&& r.username@ == chosen(cli.username, cfg.api.username@)
    &&& r.password@ == chosen(cli.password, cfg.api.password@)
    &&& r.mp@ == chosen(cli.mp, comma_string(cfg.sync.target_mps))
    &&& r.output@ == chosen(cli.output, cfg.sync.output_dir@)
    &&& r.workspace@ == chosen(cli.workspace, cfg.sync.workspace_dir@)
    &&& r.max_failures == cfg.sync.max_failures
    &&& r.since_ts == match date_start(chosen(cli.since, cfg.sync.since@)) {
        Some(t) => Some(t as i64),
        None => None,
    }
    &&& r.until_ts == match date_start(chosen(cli.until, cfg.sync.until@)) {
        Some(t) => Some((t + 86399) as i64),
        None => None,
    }
    &&& r.limit == chosen_num(cli.limit, cfg.sync.limit)
    &&& r.start_page == chosen_num(cli.start_page, cfg.sync.start_page)
    &&& r.end_page == chosen_num(cli.end_page, cfg.sync.end_page)
    &&& r.download_images == cli.download_images
}

/// Combines the flags with the configuration file.
pub fn resolve(cli: &CliOptions, cfg: &Config) -> (r: Resolved)
    ensures
        resolved_from(*cli, *cfg, r),
{
    let since_str = choose_string(&cli.since, &cfg.sync.since);
    let until_str = choose_string(&cli.until, &cfg.sync.until);
    let mp = match &cli.mp {
        Some(s) => s.clone(),
        None => cfg.sync.target_mps.to_comma_string(),
    };
    let until_ts = match parse_date(until_str.as_str()) {
        Some(t) => Some(t + 86399),
        None => None,
    };
    Resolved {
        api_base: choose_string(&cli.api_base, &cfg.api.base),
        username: choose_string(&cli.username, &cfg.api.username),
        password: choose_string(&cli.password, &cfg.api.password),
        mp,
        output: choose_string(&cli.output, &cfg.sync.output_dir),
        workspace: choose_string(&cli.workspace, &cfg.sync.workspace_dir),
        max_failures: cfg.sync.max_failures,
        since_ts: parse_date(since_str.as_str()),
        until_ts,
        limit: match cli.limit {
            Some(x) => x,
            None => cfg.sync.limit,
        },
        start_page: match cli.start_page {
            Some(x) => x,
            None => cfg.sync.start_page,
        },
        end_page: match cli.end_page {
            Some(x) => x,
            None => cfg.sync.end_page,
        },
        download_images: cli.download_images,
    }
}

/// Each setting of a run is the flag's value where the flag (or its environment variable)
/// was given and the configuration file's otherwise; the dates are the UTC start of the
/// day that the chosen text names, the end of the range moved to that day's last second;
/// whether images are downloaded comes from the flag alone.
pub proof fn lemma_resolve_prefers_flags(cli: CliOptions, cfg: Config, r: Resolved)
    requires
        resolved_from(cli, cfg, r),
    ensures
        cli.api_base matches Some(s) ==> r.api_base@ == s@,
        cli.api_base is None ==> r.api_base@ == cfg.api.base@,
        cli.username matches Some(s) ==> r.username@ == s@,
        cli.username is None ==> r.username@ == cfg.api.username@,
        cli.password matches Some(s) ==> r.password@ == s@,
        cli.password is None ==> r.password@ == cfg.api.password@,
        cli.mp matches Some(s) ==> r.mp@ == s@,
        cli.mp is None ==> r.mp@ == comma_string(cfg.sync.target_mps),
        cli.output matches Some(s) ==> r.output@ == s@,
        cli.output is None ==> r.output@ == cfg.sync.output_dir@,
        cli.workspace matches Some(s) ==> r.workspace@ == s@,
        cli.workspace is None ==> r.workspace@ == cfg.sync.workspace_dir@,
        r.max_failures == cfg.sync.max_failures,
        cli.limit matches Some(x) ==> r.limit == x,
        cli.limit is None ==> r.limit == cfg.sync.limit,
        cli.start_page matches Some(x) ==> r.start_page == x,
        cli.start_page is None ==> r.start_page == cfg.sync.start_page,
        cli.end_page matches Some(x) ==> r.end_page == x,
        cli.end_page is None ==> r.end_page == cfg.sync.end_page,
        r.download_images == cli.download_images,
        ({
            let text = match cli.since {
                Some(s) => s@,
                None => cfg.sync.since@,
            };
            &&& (trim_ws(text).len() == 0 ==> r.since_ts is None)
            &&& (trim_ws(text).len() > 0 ==> match date_time_timestamp(
                trim_ws(text),
                "%Y-%m-%d"@,
                0,
                0,
                0,
            ) {
                Some(t) => r.since_ts == Some(t as i64),
                None => r.since_ts is None,
            })
        }),
        ({
            let text = match cli.until {
                Some(s) => s@,
                None => cfg.sync.until@,
            };
            &&& (trim_ws(text).len() == 0 ==> r.until_ts is None)
            &&& (trim_ws(text).len() > 0 ==> match date_time_timestamp(
                trim_ws(text),
                "%Y-%m-%d"@,
                0,
                0,
                0,
            ) {
                Some(t) => r.until_ts == Some((t + 86399) as i64),
                None => r.until_ts is None,
            })
        }),
{
}

/// How many times syncing an account, or asking for an article's refresh, is retried.
pub const MAX_RETRIES: u32 = 3;

/// Whether a failed sync or refresh request is tried again after `retries` retries.
pub fn may_retry(retries: u32) -> (b: bool)
    ensures
        b == (retries < MAX_RETRIES),
{
    retries < MAX_RETRIES
}

// ---------------------------------------------------------------------------
// Checks before a run
// ---------------------------------------------------------------------------

/// What the file system says of the output and workspace paths.
pub struct PathFacts {
    pub output_exists: bool,
    pub output_is_dir: bool,
    /// Whether a probe file could be written into the output directory (asked only where
    /// it exists).
    pub output_writable: bool,
    pub workspace_exists: bool,
    pub workspace_is_dir: bool,
}

/// Why a run cannot start.
#[derive(PartialEq, Eq, Structural, Debug, Clone, Copy)]
pub enum PreflightError {
    /// No public account is named.
    NoTargetMps,
    /// The output path exists and is no directory.
    OutputNotDir,
    /// The workspace path exists and is no directory.
    WorkspaceNotDir,
    /// The output directory cannot be written.
    OutputNotWritable,
}

/// The first check that fails, in order: accounts named, output a directory, workspace
/// (where given) a directory, output writable.
pub open spec fn preflight_result(mp: Seq<char>, workspace: Seq<char>, f: PathFacts) -> Result<
    (),
    PreflightError,
> {
    if all_ws(mp) {
        Err(PreflightError::NoTargetMps)
    } else if f.output_exists && !f.output_is_dir {
        Err(PreflightError::OutputNotDir)
    } else if workspace.len() > 0 && f.workspace_exists && !f.workspace_is_dir {
        Err(PreflightError::WorkspaceNotDir)
    } else if f.output_exists && !f.output_writable {
        Err(PreflightError::OutputNotWritable)
    } else {
        Ok(())
    }
}

/// Checks the settings and paths before a run.
pub fn preflight(r: &Resolved, facts: &PathFacts) -> (res: Result<(), PreflightError>)
    ensures
        res == preflight_result(r.mp@, r.workspace@, *facts),
{
    if is_blank(&chars_of(r.mp.as_str())) {
        return Err(PreflightError::NoTargetMps);
    }
    if facts.output_exists && !facts.output_is_dir {
        return Err(PreflightError::OutputNotDir);
    }
    if !r.workspace.as_str().is_empty() && facts.workspace_exists && !facts.workspace_is_dir {
        return Err(PreflightError::WorkspaceNotDir);
    }
    if facts.output_exists && !facts.output_writable {
        return Err(PreflightError::OutputNotWritable);
    }
    Ok(())
}


// ---------------------------------------------------------------------------
// Which accounts
// ---------------------------------------------------------------------------

/// `c` with ASCII capitals made small.
pub open spec fn ascii_lower(c: char) -> char {
    if 'A' <= c && c <= 'Z' {
        ((c as u32) + 32) as char
    } else {
        c
    }
}

/// `a` and `b` are equal but for ASCII case, as `str::eq_ignore_ascii_case` says.
pub open spec fn eq_ignore_ascii_case(a: Seq<char>, b: Seq<char>) -> bool {
    a.len() == b.len() && forall|i: int| 0 <= i < a.len() ==> ascii_lower(#[trigger] a[i])
        == ascii_lower(b[i])
}

fn ascii_lower_exec(c: char) -> (r: char)
    ensures
        r == ascii_lower(c),
{
    if 'A' <= c && c <= 'Z' {
        let u = (c as u32) + 32;
        // an ASCII letter: u is a lowercase ASCII letter
        let small: char = if u == 97 { 'a' } else if u == 98 { 'b' } else if u == 99 { 'c' }
            else if u == 100 { 'd' } else if u == 101 { 'e' } else if u == 102 { 'f' }
            else if u == 103 { 'g' } else if u == 104 { 'h' } else if u == 105 { 'i' }
            else if u == 106 { 'j' } else if u == 107 { 'k' } else if u == 108 { 'l' }
            else if u == 109 { 'm' } else if u == 110 { 'n' } else if u == 111 { 'o' }
            else if u == 112 { 'p' } else if u == 113 { 'q' } else if u == 114 { 'r' }
            else if u == 115 { 's' } else if u == 116 { 't' } else if u == 117 { 'u' }
            else if u == 118 { 'v' } else if u == 119 { 'w' } else if u == 120 { 'x' }
            else if u == 121 { 'y' } else { 'z' };
        small
    } else {
        c
    }
}

fn eq_ignore_ascii_case_exec(a: &Vec<char>, b: &Vec<char>) -> (r: bool)
    ensures
        r == eq_ignore_ascii_case(a@, b@),
{
    if a.len() != b.len() {
        return false;
    }
    let mut i: usize = 0;
    while i < a.len()
        invariant
            i <= a.len(),
            a.len() == b.len(),
            forall|k: int| 0 <= k < i ==> ascii_lower(#[trigger] a@[k]) == ascii_lower(b@[k]),
        decreases a.len() - i,
    {
        if ascii_lower_exec(a[i]) != ascii_lower_exec(b[i]) {
            return false;
        }
        i += 1;
    }
    true
}

/// The pieces of `s` from `i` on between the `c`s, as `str::split(c)` gives them.
pub open spec fn split_from(s: Seq<char>, c: char, i: int) -> Seq<Seq<char>>
    decreases s.len() - i,
{
    if i < 0 || i > s.len() {
        Seq::empty()
    } else {
        match find_from(s, seq![c], i) {
            Some(k) => {
                proof {
                    lemma_find_from_found(s, seq![c], i);
                }
                seq![s.subrange(i, k)] + split_from(s, c, k + 1)
            },
            None => seq![s.subrange(i, s.len() as int)],
        }
    }
}

/// The accounts a run takes on.
pub enum MpSelection {
    /// Every account on the server.
    All,
    /// The accounts with these ids.
    Ids(Vec<String>),
}

/// Why the accounts named are no selection.
#[derive(PartialEq, Eq, Structural, Debug, Clone, Copy)]
pub enum SelectionError {
    /// Nothing but commas and whitespace.
    NoValidIds,
}

/// The ids named by a comma-separated list: its pieces trimmed, empty ones dropped.
pub open spec fn named_ids(mp: Seq<char>) -> Seq<Seq<char>> {
    split_from(mp, ',', 0).map_values(|p: Seq<char>| trim_ws(p)).filter(|p: Seq<char>| p.len() > 0)
}

/// What `--mp` selects: every account for `all` (in any case, around whitespace),
/// otherwise the ids it names, refused where it names none.
pub open spec fn selection_of(mp: Seq<char>) -> Result<Option<Seq<Seq<char>>>, SelectionError> {
    if eq_ignore_ascii_case(trim_ws(mp), "all"@) {
        Ok(None)
    } else if named_ids(mp).len() == 0 {
        Err(SelectionError::NoValidIds)
    } else {
        Ok(Some(named_ids(mp)))
    }
}

/// The views of a vector of strings.
pub open spec fn str_seq(v: Seq<String>) -> Seq<Seq<char>> {
    v.map_values(|s: String| s@)
}

/// Reads `--mp`.
pub fn parse_mp_selection(mp: &str) -> (r: Result<MpSelection, SelectionError>)
    ensures
        match r {
            Ok(MpSelection::All) => selection_of(mp@) == Ok::<Option<Seq<Seq<char>>>, SelectionError>(None),
            Ok(MpSelection::Ids(v)) => selection_of(mp@) == Ok::<Option<Seq<Seq<char>>>, SelectionError>(Some(str_seq(v@))),
            Err(e) => selection_of(mp@) == Err::<Option<Seq<Seq<char>>>, SelectionError>(e),
        },
{
    let v = chars_of(mp);
    let t = trim_chars(&v);
    if eq_ignore_ascii_case_exec(&t, &chars_of("all")) {
        return Ok(MpSelection::All);
    }
    let comma: Vec<char> = vec![','];
    proof {
        assert(comma@ =~= seq![',']);
    }
    let ghost pieces = split_from(v@, ',', 0);
    let ghost trimmed = pieces.map_values(|p: Seq<char>| trim_ws(p));
    let mut ids: Vec<String> = Vec::new();
    let mut i: usize = 0;
    let ghost mut n: int = 0;
    let mut done = false;
    while !done
        invariant
            i <= v.len(),
            0 <= n,
            comma@ == seq![','],
            pieces == split_from(v@, ',', 0),
            trimmed == pieces.map_values(|p: Seq<char>| trim_ws(p)),
            n <= pieces.len(),
            !done ==> n < pieces.len() && pieces.skip(n) == split_from(v@, ',', i as int),
            done ==> n == pieces.len(),
            str_seq(ids@) == trimmed.take(n).filter(|p: Seq<char>| p.len() > 0),
        decreases v.len() + 1 - i - (if done {
            1int
        } else {
            0int
        }),
    {
        let ghost before = str_seq(ids@);
        let end: usize = match find_from_exec(&v, &comma, i) {
            Some(k) => {
                proof {
                    lemma_find_from_found(v@, comma@, i as int);
                }
                k
            },
            None => v.len(),
        };
        let piece = trim_chars(&slice_chars(&v, i, end));
        proof {
            assert(pieces[n] == pieces.skip(n)[0]);
            assert(piece@ == trimmed[n]);
            assert(pieces.skip(n).drop_first() =~= pieces.skip(n + 1));
            assert(trimmed.take(n + 1).drop_last() =~= trimmed.take(n));
            reveal_with_fuel(Seq::filter, 1);
        }
        if piece.len() > 0 {
            ids.push(string_of(&piece));
            proof {
                assert(str_seq(ids@) =~= before.push(piece@));
            }
        }
        if end >= v.len() {
            proof {
                assert(pieces.skip(n) =~= seq![v@.subrange(i as int, v@.len() as int)]);
                n = n + 1;
            }
            done = true;
        } else {
            proof {
                assert(split_from(v@, ',', i as int) == seq![v@.subrange(i as int, end as int)]
                    + split_from(v@, ',', end + 1));
                assert(split_from(v@, ',', i as int).drop_first() =~= split_from(v@, ',', end + 1));
                let nxt = split_from(v@, ',', end + 1);
                assert(nxt.len() > 0);
                n = n + 1;
            }
            i = end + 1;
        }
    }
    proof {
        assert(trimmed.take(n) =~= trimmed);
        assert(pieces.skip(0) =~= pieces);
    }
    if ids.len() == 0 {
        return Err(SelectionError::NoValidIds);
    }
    Ok(MpSelection::Ids(ids))
}

/// The accounts chosen from those on the server, and the ids named that none of them has.
pub struct MpChoice {
    pub selected: Vec<MpInfo>,
    pub missing: Vec<String>,
}

/// The ids of a list of accounts.
pub open spec fn mp_ids(v: Seq<MpInfo>) -> Seq<Seq<char>> {
    v.map_values(|m: MpInfo| m.id@)
}

fn contains_string(v: &Vec<String>, x: &String) -> (b: bool)
    ensures
        b == str_seq(v@).contains(x@),
{
    let mut i: usize = 0;
    while i < v.len()
        invariant
            i <= v.len(),
            forall|k: int| 0 <= k < i ==> v@[k]@ != x@,
        decreases v.len() - i,
    {
        if v[i] == *x {
            proof {
                assert(str_seq(v@)[i as int] == x@);
            }
            return true;
        }
        i += 1;
    }
    proof {
        if str_seq(v@).contains(x@) {
            let k = choose|k: int| 0 <= k < str_seq(v@).len() && str_seq(v@)[k] == x@;
            assert(v@[k]@ == x@);
        }
    }
    false
}

/// Keeps the accounts whose id is named, in the server's order, and lists the ids named
/// that no account on the server has, in the order named.
pub fn select_mps(ids: &Vec<String>, all: Vec<MpInfo>) -> (r: MpChoice)
    ensures
        r.selected@ == all@.filter(|m: MpInfo| str_seq(ids@).contains(m.id@)),
        str_seq(r.missing@) == str_seq(ids@).filter(|id: Seq<char>| !mp_ids(all@).contains(id)),
{
    let ghost keep = |m: MpInfo| str_seq(ids@).contains(m.id@);
    let mut selected: Vec<MpInfo> = Vec::new();
    let mut i: usize = 0;
    while i < all.len()
        invariant
            i <= all.len(),
            keep == (|m: MpInfo| str_seq(ids@).contains(m.id@)),
            selected@ == all@.take(i as int).filter(keep),
        decreases all.len() - i,
    {
        proof {
            reveal_with_fuel(Seq::filter, 1);
            assert(all@.take(i + 1).drop_last() =~= all@.take(i as int));
        }
        if contains_string(ids, &all[i].id) {
            selected.push(all[i].clone());
        }
        i += 1;
    }
    proof {
        assert(all@.take(all.len() as int) =~= all@);
    }
    let ghost gone = |id: Seq<char>| !mp_ids(all@).contains(id);
    let mut all_ids: Vec<String> = Vec::new();
    let mut j: usize = 0;
    while j < all.len()
        invariant
            j <= all.len(),
            str_seq(all_ids@) == mp_ids(all@).take(j as int),
        decreases all.len() - j,
    {
        let ghost prev = str_seq(all_ids@);
        all_ids.push(all[j].id.clone());
        proof {
            assert(str_seq(all_ids@) =~= prev.push(all@[j as int].id@));
            assert(mp_ids(all@).take(j + 1) =~= mp_ids(all@).take(j as int).push(all@[j as int].id@));
        }
        j += 1;
    }
    proof {
        assert(mp_ids(all@).take(all.len() as int) =~= mp_ids(all@));
    }
    let mut missing: Vec<String> = Vec::new();
    let mut k: usize = 0;
    while k < ids.len()
        invariant
            k <= ids.len(),
            str_seq(all_ids@) == mp_ids(all@),
            gone == (|id: Seq<char>| !mp_ids(all@).contains(id)),
            str_seq(missing@) == str_seq(ids@).take(k as int).filter(gone),
        decreases ids.len() - k,
    {
        proof {
            reveal_with_fuel(Seq::filter, 1);
            assert(str_seq(ids@).take(k + 1).drop_last() =~= str_seq(ids@).take(k as int));
        }
        let ghost before = str_seq(missing@);
        if !contains_string(&all_ids, &ids[k]) {
            missing.push(ids[k].clone());
            proof {
                assert(str_seq(missing@) =~= before.push(ids@[k as int]@));
            }
        }
        k += 1;
    }
    proof {
        assert(str_seq(ids@).take(ids.len() as int) =~= str_seq(ids@));
    }
    MpChoice { selected, missing }
}

// ---------------------------------------------------------------------------
// Which articles
// ---------------------------------------------------------------------------

/// The article was published within the range: not before `since`, not after `until`.
pub open spec fn in_range(t: i64, since: Option<i64>, until: Option<i64>) -> bool {
    (since matches Some(s) ==> t >= s) && (until matches Some(u) ==> t <= u)
}

/// Keeps the articles published within the range, in order.
pub fn filter_by_time(articles: Vec<ArticleInfo>, since: Option<i64>, until: Option<i64>) -> (r:
    Vec<ArticleInfo>)
    ensures
        r@ == articles@.filter(|a: ArticleInfo| in_range(a.publish_time, since, until)),
        forall|k: int|
            0 <= k < r@.len() ==> (since matches Some(s) ==> (#[trigger] r@[k]).publish_time >= s)
                && (until matches Some(u) ==> r@[k].publish_time <= u),
{
    let ghost keep = |a: ArticleInfo| in_range(a.publish_time, since, until);
    let mut r: Vec<ArticleInfo> = Vec::new();
    let mut i: usize = 0;
    while i < articles.len()
        invariant
            i <= articles.len(),
            keep == (|a: ArticleInfo| in_range(a.publish_time, since, until)),
            r@ == articles@.take(i as int).filter(keep),
        decreases articles.len() - i,
    {
        proof {
            reveal_with_fuel(Seq::filter, 1);
            assert(articles@.take(i + 1).drop_last() =~= articles@.take(i as int));
        }
        let t = articles[i].publish_time;
        let ok = match since {
            Some(s) => t >= s,
            None => true,
        } && match until {
            Some(u) => t <= u,
            None => true,
        };
        if ok {
            r.push(articles[i].clone());
        }
        i += 1;
    }
    proof {
        assert(articles@.take(articles.len() as int) =~= articles@);
        lemma_filter_keeps_exactly_the_range(articles@, since, until);
    }
    r
}

/// The articles kept by the date filter are exactly those published within the range:
/// each kept one is published no earlier than `since` and no later than `until`, each
/// input article within those bounds is kept, and each outside them is dropped.
pub proof fn lemma_filter_keeps_exactly_the_range(
    articles: Seq<ArticleInfo>,
    since: Option<i64>,
    until: Option<i64>,
)
    ensures
        ({
            let r = articles.filter(|a: ArticleInfo| in_range(a.publish_time, since, until));
            &&& forall|k: int|
                0 <= k < r.len() ==> (since matches Some(s) ==> (#[trigger] r[k]).publish_time >= s)
                    && (until matches Some(u) ==> r[k].publish_time <= u)
            &&& forall|i: int|
                0 <= i < articles.len() ==> ((since matches Some(s) ==> (
                #[trigger] articles[i]).publish_time >= s) && (until matches Some(u)
                ==> articles[i].publish_time <= u) <==> r.contains(articles[i]))
            &&& r.len() <= articles.len()
        }),
{
    let pred = |a: ArticleInfo| in_range(a.publish_time, since, until);
    let r = articles.filter(pred);
    articles.lemma_filter_len(pred);
    assert forall|k: int| 0 <= k < r.len() implies (since matches Some(s) ==> (
    #[trigger] r[k]).publish_time >= s) && (until matches Some(u) ==> r[k].publish_time <= u) by {
        articles.lemma_filter_pred(pred, k);
    }
    assert forall|i: int| 0 <= i < articles.len() implies ((since matches Some(s) ==> (
    #[trigger] articles[i]).publish_time >= s) && (until matches Some(u)
        ==> articles[i].publish_time <= u) <==> r.contains(articles[i])) by {
        if pred(articles[i]) {
            articles.lemma_filter_contains(pred, i);
        }
        if r.contains(articles[i]) {
            let k = choose|k: int| 0 <= k < r.len() && r[k] == articles[i];
            articles.lemma_filter_pred(pred, k);
        }
    }
}

/// The articles of an account that a run takes on, and how many it passes over.
pub struct PendingPlan {
    /// Not yet fetched and not given up on, in order, cut to the limit.
    pub pending: Vec<ArticleInfo>,
    /// Already fetched.
    pub skipped: usize,
    /// Given up on after too many failures.
    pub exhausted: usize,
}

/// Decides which articles to fetch: fetched ones are skipped, given-up ones counted apart,
/// the rest taken in order up to `limit` (0 for no limit).
pub fn plan_pending(articles: &Vec<ArticleInfo>, store: &StateStore, max_failures: u32, limit: u32)
    -> (r: PendingPlan)
    ensures
        ({
            let todo = articles@.filter(
                |a: ArticleInfo| !fetched(store@, a.id@) && !exhausted(store@, a.id@, max_failures),
            );
            r.pending@ == if limit > 0 && todo.len() > limit {
                todo.take(limit as int)
            } else {
                todo
            }
        }),
        r.skipped == articles@.filter(|a: ArticleInfo| fetched(store@, a.id@)).len(),
        r.exhausted == articles@.filter(
            |a: ArticleInfo| !fetched(store@, a.id@) && exhausted(store@, a.id@, max_failures),
        ).len(),
{
    let ghost todo_p = |a: ArticleInfo|
        !fetched(store@, a.id@) && !exhausted(store@, a.id@, max_failures);
    let ghost skip_p = |a: ArticleInfo| fetched(store@, a.id@);
    let ghost ex_p = |a: ArticleInfo|
        !fetched(store@, a.id@) && exhausted(store@, a.id@, max_failures);
    let mut pending: Vec<ArticleInfo> = Vec::new();
    let mut skipped: usize = 0;
    let mut n_exhausted: usize = 0;
    let mut i: usize = 0;
    while i < articles.len()
        invariant
            i <= articles.len(),
            todo_p == (|a: ArticleInfo|
                !fetched(store@, a.id@) && !exhausted(store@, a.id@, max_failures)),
            skip_p == (|a: ArticleInfo| fetched(store@, a.id@)),
            ex_p == (|a: ArticleInfo|
                !fetched(store@, a.id@) && exhausted(store@, a.id@, max_failures)),
            pending@ == articles@.take(i as int).filter(todo_p),
            skipped == articles@.take(i as int).filter(skip_p).len(),
            n_exhausted == articles@.take(i as int).filter(ex_p).len(),
            skipped <= i,
            n_exhausted <= i,
        decreases articles.len() - i,
    {
        proof {
            reveal_with_fuel(Seq::filter, 1);
            assert(articles@.take(i + 1).drop_last() =~= articles@.take(i as int));
        }
        let a = &articles[i];
        if store.is_fetched(a.id.as_str()) {
            skipped += 1;
        } else if store.is_exhausted(a.id.as_str(), max_failures) {
            n_exhausted += 1;
        } else {
            pending.push(a.clone());
        }
        i += 1;
    }
    proof {
        assert(articles@.take(articles.len() as int) =~= articles@);
    }
    if limit > 0 && pending.len() > limit as usize {
        pending.truncate(limit as usize);
    }
    PendingPlan { pending, skipped, exhausted: n_exhausted }
}

// ---------------------------------------------------------------------------
// An article's files
// ---------------------------------------------------------------------------

/// Why an article could not be rendered.
#[derive(PartialEq, Eq, Structural, Debug, Clone, Copy)]
pub enum RenderError {
    /// The patterns that strip the header of `content_html` do not compile.
    HeaderPatternsInvalid,
    /// The content is blank after the refresh.
    EmptyContent,
    /// The article has no title.
    EmptyTitle,
    /// The HTML could not be converted.
    ConversionFailed,
}

/// The HTML an article is rendered from: `content` where there is any, otherwise
/// `content_html` with its header stripped, otherwise nothing.
pub open spec fn article_html(d: ArticleDetail) -> Seq<char> {
    if d.content@.len() > 0 {
        d.content@
    } else if d.content_html@.len() > 0 {
        stripped_header(d.content_html@)
    } else {
        Seq::empty()
    }
}

/// An article ready to be written.
pub struct RenderedArticle {
    /// The Markdown file's content.
    pub markdown: String,
    /// The images found in it.
    pub images: Vec<ExtractedImage>,
    /// The slug of its title.
    pub slug: String,
    /// `slug.md`.
    pub file_name: String,
}

/// What rendering an article gives, or why it fails: header patterns that do not compile
/// (where the header must be stripped), blank content, no title, or HTML that cannot be
/// converted, in that order.
pub open spec fn render_error(d: ArticleDetail, download_images: bool) -> Option<RenderError> {
    if d.content@.len() == 0 && d.content_html@.len() > 0 && !header_patterns_compile() {
        Some(RenderError::HeaderPatternsInvalid)
    } else if all_ws(article_html(d)) {
        Some(RenderError::EmptyContent)
    } else if d.title@.len() == 0 {
        Some(RenderError::EmptyTitle)
    } else if !(conversion(article_html(d), download_images) is Some) {
        Some(RenderError::ConversionFailed)
    } else {
        None
    }
}

/// The Markdown file of a rendered article (its author is the account's name).
pub open spec fn rendered_markdown(d: ArticleDetail, mp_name: Seq<char>, download_images: bool) -> Seq<
    char,
> {
    join(
        front_matter(
            d.title@,
            mp_name,
            d.mp_id@,
            d.url@,
            d.pic_url@,
            d.description@,
            d.publish_time as int,
        ),
        seq!['\n'],
    ) + seq!['\n'] + article_body(article_html(d), download_images) + seq!['\n']
}

/// A rendered article published at a positive time that chrono can render carries that
/// time in its front matter: the line `publish_time: "<YYYY-MM-DDTHH:MM:SS>"` of the
/// detail's own `publish_time`.
pub proof fn lemma_rendered_publish_time(d: ArticleDetail, mp_name: Seq<char>, download_images: bool)
    requires
        d.publish_time > 0,
        iso_datetime_text(d.publish_time as int) is Some,
    ensures
        exists|k: int|
            matches_at(
                rendered_markdown(d, mp_name, download_images),
                seq!['\n'] + "publish_time: "@ + yaml_quoted(iso_datetime_text(d.publish_time as int)->0)
                    + seq!['\n'],
                k,
            ),
{
    lemma_publish_time_line(
        d.title@,
        mp_name,
        d.mp_id@,
        d.url@,
        d.pic_url@,
        d.description@,
        d.publish_time as int,
        article_html(d),
        download_images,
    );
    assert(rendered_markdown(d, mp_name, download_images) == article_markdown(
        d.title@,
        mp_name,
        d.mp_id@,
        d.url@,
        d.pic_url@,
        d.description@,
        d.publish_time as int,
        article_html(d),
        download_images,
    ));
}

/// The HTML an article is rendered from.
pub fn select_article_html(d: &ArticleDetail) -> (r: String)
    requires
        d.content@.len() == 0 && d.content_html@.len() > 0 ==> header_patterns_compile(),
    ensures
        r@ == article_html(*d),
{
    if !d.content.as_str().is_empty() {
        d.content.clone()
    } else if !d.content_html.as_str().is_empty() {
        strip_content_html_header(d.content_html.as_str())
    } else {
        String::new()
    }
}

/// Renders an article into its Markdown file, its images and its file name.
pub fn render_article(d: &ArticleDetail, mp_name: &str, download_images: bool) -> (r: Result<
    RenderedArticle,
    RenderError,
>)
    ensures
        match r {
            Err(e) => render_error(*d, download_images) == Some(e),
            Ok(a) => render_error(*d, download_images) is None && a.markdown@ == rendered_markdown(
                *d,
                mp_name@,
                download_images,
            ) && image_views(a.images@) == article_images(article_html(*d), download_images)
                && a.slug@ == slug_of(unicode_lowercase(d.title@)) && a.file_name@ == a.slug@
                + ".md"@ && a.markdown@ == article_markdown(
                d.title@,
                mp_name@,
                d.mp_id@,
                d.url@,
                d.pic_url@,
                d.description@,
                d.publish_time as int,
                article_html(*d),
                download_images,
            ),
        },
{
    if d.content.as_str().is_empty() && !d.content_html.as_str().is_empty() && !header_patterns_ok() {
        return Err(RenderError::HeaderPatternsInvalid);
    }
    let html = select_article_html(d);
    if is_blank(&chars_of(html.as_str())) {
        return Err(RenderError::EmptyContent);
    }
    if d.title.as_str().is_empty() {
        return Err(RenderError::EmptyTitle);
    }
    if !conversion_succeeds(html.as_str(), download_images) {
        return Err(RenderError::ConversionFailed);
    }
    let (markdown, images) = article_to_md(
        d.title.as_str(),
        mp_name,
        d.mp_id.as_str(),
        d.url.as_str(),
        d.pic_url.as_str(),
        d.description.as_str(),
        d.publish_time,
        html.as_str(),
        download_images,
    );
    let slug = slugify(d.title.as_str());
    let mut file_name = slug.clone();
    file_name.append(".md");
    Ok(RenderedArticle { markdown, images, slug, file_name })
}

/// The file name of an extracted image: `index.format`.
pub fn image_file_name(img: &ExtractedImage) -> (r: String)
    requires
        img.index < u64::MAX,
    ensures
        r@ == decimal(img.index as nat) + seq!['.'] + img.format@,
{
    let mut v = decimal_exec(img.index as u64);
    v.push('.');
    extend_chars(&mut v, &chars_of(img.format.as_str()));
    string_of(&v)
}

/// The file name of an article's cover image: `cover.` and the format its URL names.
pub fn cover_file_name(pic_url: &str) -> (r: String)
    ensures
        r@ == "cover."@ + image_ext_of(pic_url@),
{
    let mut r = to_string("cover.");
    let ext = image_ext_from_url(pic_url);
    r.append(ext.as_str());
    r
}

/// Where an article is published in a workspace.
pub struct WorkspacePaths {
    /// The article's directory: `<workspace>/published/<date>/<slug>`.
    pub dir: String,
    /// Its images: `<dir>/imgs`.
    pub imgs_dir: String,
    /// Its Markdown file: `<dir>/<slug>.md`.
    pub markdown_file: String,
    /// The date part: `YYYYMMDD`, or `unknown` where chrono cannot render the timestamp.
    pub date: String,
}

/// The date a workspace files an article under.
pub open spec fn workspace_date(ts: int) -> Seq<char> {
    match compact_date_text(ts) {
        Some(d) => d,
        None => "unknown"@,
    }
}

/// The paths under which an article is published to a workspace.
pub fn workspace_paths(workspace: &str, ts: i64, slug: &str) -> (r: WorkspacePaths)
    ensures
        r.date@ == workspace_date(ts as int),
        r.dir@ == path_join(path_join(path_join(workspace@, "published"@), workspace_date(ts as int)), slug@),
        r.imgs_dir@ == path_join(r.dir@, "imgs"@),
        r.markdown_file@ == path_join(r.dir@, slug@ + ".md"@),
{
    let date = match format_compact_date(ts) {
        Some(d) => d,
        None => to_string("unknown"),
    };
    let published = join_path(workspace, "published");
    let by_date = join_path(published.as_str(), date.as_str());
    let dir = join_path(by_date.as_str(), slug);
    let imgs_dir = join_path(dir.as_str(), "imgs");
    let mut file = to_string(slug);
    file.append(".md");
    let markdown_file = join_path(dir.as_str(), file.as_str());
    WorkspacePaths { dir, imgs_dir, markdown_file, date }
}

/// What came of the steps of publishing an article to a workspace.
pub struct WorkspaceSteps {
    /// Its directory (with `imgs/`) was created.
    pub dir_created: bool,
    /// The article has a cover image to publish.
    pub has_cover: bool,
    /// The cover image was downloaded and saved.
    pub cover_saved: bool,
    /// Its Markdown file was written.
    pub markdown_written: bool,
}

/// An article counts as published to the workspace where its directory was created, its
/// Markdown written and, if it has a cover image, that image downloaded and saved.
pub open spec fn published_ok(s: WorkspaceSteps) -> bool {
    s.dir_created && s.markdown_written && (!s.has_cover || s.cover_saved)
}

/// Whether an article counts as published to the workspace; where it does not, the run
/// counts a workspace failure (the Markdown may still have been written).
pub fn workspace_published(steps: &WorkspaceSteps) -> (b: bool)
    ensures
        b == published_ok(*steps),
{
    steps.dir_created && steps.markdown_written && (!steps.has_cover || steps.cover_saved)
}

/// Whether an article's workspace publishing counts as done: `None` where no workspace is
/// set (nothing to fail), otherwise as `workspace_published` decides on its steps.
pub fn workspace_outcome(steps: &Option<WorkspaceSteps>) -> (b: bool)
    ensures
        b == match *steps {
            None => true,
            Some(s) => published_ok(s),
        },
{
    match steps {
        None => true,
        Some(s) => workspace_published(s),
    }
}

/// What a refresh task's final status means for its article: only `success` lets the run
/// go on to the article's content; any other status is an error, `Refresh task <status>`.
pub fn refresh_task_result(status: &str) -> (r: Result<(), String>)
    ensures
        r is Ok <==> status@ == "success"@,
        r matches Err(m) ==> m@ == "Refresh task "@ + status@,
{
    let st = to_string(status);
    if st == to_string("success") {
        Ok(())
    } else {
        let mut m = to_string("Refresh task ");
        m.append(status);
        Err(m)
    }
}

/// A date range from flags and file takes in every second of its first and of its last
/// day: an article published at any time of those days passes the filter.
pub proof fn lemma_range_covers_whole_days(cli: CliOptions, cfg: Config, r: Resolved, t: i64)
    requires
        resolved_from(cli, cfg, r),
        date_start(chosen(cli.since, cfg.sync.since@)) matches Some(s) && s <= t,
        date_start(chosen(cli.until, cfg.sync.until@)) matches Some(u) && t <= u + 86399,
        date_start(chosen(cli.since, cfg.sync.since@))->0 >= i64::MIN,
        date_start(chosen(cli.until, cfg.sync.until@))->0 + 86399 <= i64::MAX,
    ensures
        in_range(t, r.since_ts, r.until_ts),
{
}
}
