//! What is known of each article of one public account between runs: fetched, failed (and
//! how often), where its file is. The records come from `state.jsonl`, one per line, the
//! later line for an article overriding the earlier.
use vstd::prelude::*;

use crate::text::{
    decimal, decimal_exec, join_path, parent_of, parent_path, path_join, string_of, to_string,
};
use crate::reply::{str_at, str_or_empty};
use crate::trusted::{compact_date_text, format_compact_date, json_is_valid, json_parses, json_str_at, json_u64, json_u64_at};

verus! {

broadcast use vstd::set::group_set_axioms;

/// A record as read from one line of the state file, with missing fields defaulted.
pub struct StoredRecord {
    pub article_id: String,
    pub status: String,
    pub file_path: String,
    pub title: String,
    pub failed_count: u64,
}

/// What a line of the state file holds: no record where it is not JSON, otherwise its
/// `article_id`, `status`, `file_path` and `title` (`""` where missing) and its
/// `failed_count` (0 where missing).
pub open spec fn line_record(line: Seq<char>, r: Option<StoredRecord>) -> bool {
    if !json_parses(line) {
        r is None
    } else {
        r matches Some(rec) && rec.article_id@ == str_or_empty(json_str_at(line, "/article_id"@))
            && rec.status@ == str_or_empty(json_str_at(line, "/status"@))
            && rec.file_path@ == str_or_empty(json_str_at(line, "/file_path"@))
            && rec.title@ == str_or_empty(json_str_at(line, "/title"@))
            && rec.failed_count == match json_u64_at(line, "/failed_count"@) {
            Some(n) => n,
            None => 0,
        }
    }
}

/// Reads a line of the state file.
pub fn stored_record_of(line: &str) -> (r: Option<StoredRecord>)
    ensures
        line_record(line@, r),
{
    if !json_is_valid(line) {
        return None;
    }
    let failed_count: u64 = match json_u64(line, "/failed_count") {
        Some(n) => n,
        None => 0,
    };
    Some(StoredRecord {
        article_id: str_at(line, "/article_id"),
        status: str_at(line, "/status"),
        file_path: str_at(line, "/file_path"),
        title: str_at(line, "/title"),
        failed_count,
    })
}

/// A record to append to the state file after an article was attempted.
pub struct StateEntry {
    pub article_id: String,
    pub title: String,
    pub publish_time: i64,
    pub status: String,
    pub file_path: String,
    pub failed_count: u32,
}

/// What the store holds of one article.
pub struct RecordView {
    pub status: Seq<char>,
    pub file_path: Seq<char>,
    pub title: Seq<char>,
    pub failed_count: u32,
}

struct Rec {
    status: String,
    file_path: String,
    title: String,
    failed_count: u32,
}

struct Entry {
    id: String,
    rec: Rec,
}

impl Rec {
    spec fn view(&self) -> RecordView {
        RecordView {
            status: self.status@,
            file_path: self.file_path@,
            title: self.title@,
            failed_count: self.failed_count,
        }
    }
}

/// The record of an article as the store keeps it: the count is taken modulo 2^32.
pub open spec fn stored_view(r: StoredRecord) -> RecordView {
    RecordView {
        status: r.status@,
        file_path: r.file_path@,
        title: r.title@,
        failed_count: r.failed_count as u32,
    }
}

/// The records that the lines of a state file give, a later line for an article
/// overriding an earlier one; lines that are no record (`None`) count for nothing.
pub open spec fn loaded(lines: Seq<Option<StoredRecord>>) -> Map<Seq<char>, RecordView>
    decreases lines.len(),
{
    if lines.len() == 0 {
        Map::empty()
    } else {
        match lines.last() {
            Some(r) => loaded(lines.drop_last()).insert(r.article_id@, stored_view(r)),
            None => loaded(lines.drop_last()),
        }
    }
}

/// Each record of `v` as the line that holds it.
pub open spec fn some_records(v: Seq<StoredRecord>) -> Seq<Option<StoredRecord>> {
    v.map_values(|r: StoredRecord| Some(r))
}

spec fn entries_map(es: Seq<Entry>) -> Map<Seq<char>, RecordView>
    decreases es.len(),
{
    if es.len() == 0 {
        Map::empty()
    } else {
        entries_map(es.drop_last()).insert(es.last().id@, es.last().rec.view())
    }
}

spec fn distinct_ids(es: Seq<Entry>) -> bool {
    forall|i: int, j: int| 0 <= i < j < es.len() ==> es[i].id@ != es[j].id@
}

/// The state of one public account's articles.
pub struct StateStore {
    mp_dir: String,
    state_file: String,
    entries: Vec<Entry>,
}

proof fn lemma_entries_map(es: Seq<Entry>)
    requires
        distinct_ids(es),
    ensures
        entries_map(es).dom().finite(),
        entries_map(es).dom().len() == es.len(),
        forall|k: Seq<char>| #[trigger]
            entries_map(es).contains_key(k) <==> exists|i: int| 0 <= i < es.len() && es[i].id@ == k,
        forall|i: int| #![trigger es[i]]
            0 <= i < es.len() ==> entries_map(es)[es[i].id@] == es[i].rec.view(),
    decreases es.len(),
{
    if es.len() > 0 {
        let p = es.drop_last();
        assert(distinct_ids(p));
        lemma_entries_map(p);
        let last = es.last();
        assert(!entries_map(p).contains_key(last.id@)) by {
            if entries_map(p).contains_key(last.id@) {
                let i = choose|i: int| 0 <= i < p.len() && p[i].id@ == last.id@;
                assert(es[i].id@ == es[es.len() - 1].id@);
            }
        }
        assert forall|k: Seq<char>| #[trigger]
            entries_map(es).contains_key(k) <==> exists|i: int| 0 <= i < es.len() && es[i].id@
                == k by {
            if entries_map(p).contains_key(k) {
                let i = choose|i: int| 0 <= i < p.len() && p[i].id@ == k;
                assert(es[i].id@ == k);
            }
            if exists|i: int| 0 <= i < es.len() && es[i].id@ == k {
                let i = choose|i: int| 0 <= i < es.len() && es[i].id@ == k;
                if i < es.len() - 1 {
                    assert(p[i].id@ == k);
                }
            }
        }
        assert forall|i: int| #![trigger es[i]] 0 <= i < es.len() implies entries_map(es)[es[i].id@]
            == es[i].rec.view() by {
            if i < es.len() - 1 {
                assert(p[i] == es[i]);
            }
        }
    }
}

/// Record `r` has title `title` and names a file.
pub open spec fn titled_with_file(r: RecordView, title: Seq<char>) -> bool {
    r.title == title && r.file_path.len() > 0
}

/// `p` is the file that record `r` names, joined to `dir`.
pub open spec fn is_file_of(p: Seq<char>, dir: Seq<char>, r: RecordView) -> bool {
    p == path_join(dir, r.file_path)
}

/// `p` is the file, joined to `dir`, of some record in `m` with title `title`.
pub open spec fn file_of_titled_record(
    m: Map<Seq<char>, RecordView>,
    title: Seq<char>,
    dir: Seq<char>,
    p: Seq<char>,
) -> bool {
    exists|k: Seq<char>|
        #![trigger m.contains_key(k)]
        m.contains_key(k) && titled_with_file(m[k], title) && is_file_of(p, dir, m[k])
}

/// The files of the records in `es` with title `title` that name a file, joined to `dir`.
spec fn title_paths(es: Seq<Entry>, title: Seq<char>, dir: Seq<char>) -> Seq<Seq<char>>
    decreases es.len(),
{
    if es.len() == 0 {
        Seq::empty()
    } else {
        let p = title_paths(es.drop_last(), title, dir);
        let e = es.last();
        if e.rec.title@ == title && e.rec.file_path@.len() > 0 {
            p.push(path_join(dir, e.rec.file_path@))
        } else {
            p
        }
    }
}

proof fn lemma_title_paths(es: Seq<Entry>, title: Seq<char>, dir: Seq<char>)
    requires
        distinct_ids(es),
    ensures
        forall|k: Seq<char>|
            #![trigger entries_map(es).contains_key(k)]
            entries_map(es).contains_key(k) && titled_with_file(entries_map(es)[k], title) ==> title_paths(es, title, dir).contains(
                path_join(dir, entries_map(es)[k].file_path),
            ),
        forall|j: int|
            #![trigger title_paths(es, title, dir)[j]]
            0 <= j < title_paths(es, title, dir).len() ==> file_of_titled_record(
                entries_map(es),
                title,
                dir,
                title_paths(es, title, dir)[j],
            ),
    decreases es.len(),
{
    if es.len() > 0 {
        let p = es.drop_last();
        assert(distinct_ids(p));
        lemma_title_paths(p, title, dir);
        lemma_entries_map(p);
        lemma_entries_map(es);
        let last = es.last();
        let mp = entries_map(p);
        let m = entries_map(es);
        let tp = title_paths(p, title, dir);
        let t = title_paths(es, title, dir);
        assert(!mp.contains_key(last.id@)) by {
            if mp.contains_key(last.id@) {
                let i = choose|i: int| 0 <= i < p.len() && p[i].id@ == last.id@;
                assert(es[i].id@ == es[es.len() - 1].id@);
            }
        }
        assert forall|k: Seq<char>|
            #![trigger m.contains_key(k)]
            m.contains_key(k) && titled_with_file(m[k], title) implies t.contains(
                path_join(dir, m[k].file_path),
            ) by {
            if k == last.id@ {
                assert(m[k] == last.rec.view());
                assert(t.last() == path_join(dir, m[k].file_path));
                assert(t[t.len() - 1] == path_join(dir, m[k].file_path));
            } else {
                assert(mp[k] == m[k]);
                let w = choose|w: int| 0 <= w < tp.len() && tp[w] == path_join(dir, mp[k].file_path);
                assert(t[w] == tp[w]);
            }
        }
        assert forall|j: int|
            #![trigger title_paths(es, title, dir)[j]]
            0 <= j < title_paths(es, title, dir).len() implies file_of_titled_record(
                entries_map(es),
                title,
                dir,
                title_paths(es, title, dir)[j],
            ) by {
            if j < tp.len() {
                assert(title_paths(es, title, dir)[j] == tp[j]);
                assert(file_of_titled_record(mp, title, dir, tp[j]));
                let k = choose|k: Seq<char>|
                    #![trigger mp.contains_key(k)]
                    mp.contains_key(k) && titled_with_file(mp[k], title) && is_file_of(tp[j], dir, mp[k]);
                assert(k != last.id@);
                assert(entries_map(es)[k] == mp[k]);
                assert(entries_map(es).contains_key(k));
            } else {
                assert(entries_map(es)[last.id@] == last.rec.view());
                assert(entries_map(es).contains_key(last.id@));
                assert(title_paths(es, title, dir)[j] == path_join(dir, last.rec.file_path@));
            }
        }
    } else {
        assert(title_paths(es, title, dir).len() == 0);
    }
}

impl View for StateStore {
    type V = Map<Seq<char>, RecordView>;

    closed spec fn view(&self) -> Map<Seq<char>, RecordView> {
        entries_map(self.entries@)
    }
}

/// The failure count that the store holds for an article, 0 where it holds none.
pub open spec fn count_of(m: Map<Seq<char>, RecordView>, id: Seq<char>) -> u32 {
    if m.contains_key(id) {
        m[id].failed_count
    } else {
        0
    }
}

/// The failure count after an attempt that ended with `status`: one more on `"failed"`,
/// zero otherwise.
pub open spec fn count_after(m: Map<Seq<char>, RecordView>, id: Seq<char>, status: Seq<char>) -> int {
    if status == "failed"@ {
        count_of(m, id) + 1
    } else {
        0
    }
}

/// The store after an attempt at `id` ended with `status`: the article's record holds
/// the status, file and title, and the failure count that `count_after` gives.
pub open spec fn recorded(
    m: Map<Seq<char>, RecordView>,
    id: Seq<char>,
    title: Seq<char>,
    status: Seq<char>,
    file_path: Seq<char>,
) -> Map<Seq<char>, RecordView> {
    m.insert(
        id,
        RecordView {
            status: status,
            file_path: file_path,
            title: title,
            failed_count: count_after(m, id, status) as u32,
        },
    )
}

/// The record that reading back an appended entry gives.
pub open spec fn entry_record(e: StateEntry) -> StoredRecord {
    StoredRecord {
        article_id: e.article_id,
        status: e.status,
        file_path: e.file_path,
        title: e.title,
        failed_count: e.failed_count as u64,
    }
}

/// An article was fetched: its record says `"success"`.
pub open spec fn fetched(m: Map<Seq<char>, RecordView>, id: Seq<char>) -> bool {
    m.contains_key(id) && m[id].status == "success"@
}

/// An article is given up on: `max` is not 0, and its record says `"failed"` with at
/// least `max` failures.
pub open spec fn exhausted(m: Map<Seq<char>, RecordView>, id: Seq<char>, max: u32) -> bool {
    max != 0 && m.contains_key(id) && m[id].status == "failed"@ && m[id].failed_count >= max
}

/// Where an article's files go, for the outside to settle on: the candidate files whose
/// directory is reused if the file exists, in order, and the directory of its date.
pub struct ArticleDirPlan {
    pub candidates: Vec<String>,
    pub date_dir: String,
}

impl ArticleDirPlan {
    /// The directory to reuse, given which candidate files exist (`exists[j]` for
    /// candidate `j`): the directory part of the first candidate that exists; none where
    /// none does, and the article then takes a new numbered directory under `date_dir`.
    pub fn existing_dir(&self, exists: &Vec<bool>) -> (r: Option<String>)
        requires
            exists@.len() == self.candidates@.len(),
        ensures
            r is None <==> forall|j: int| 0 <= j < exists@.len() ==> !exists@[j],
            r matches Some(d) ==> exists|j: int|
                0 <= j < exists@.len() && exists@[j] && (forall|k: int| 0 <= k < j ==> !exists@[k])
                    && d@ == parent_path(#[trigger] self.candidates@[j]@),
    {
        let mut j: usize = 0;
        while j < exists.len()
            invariant
                j <= exists@.len(),
                exists@.len() == self.candidates@.len(),
                forall|k: int| 0 <= k < j ==> !exists@[k],
            decreases exists.len() - j,
        {
            if exists[j] {
                let d = parent_of(self.candidates[j].as_str());
                return Some(d);
            }
            j += 1;
        }
        None
    }
}

/// The name of an article's date directory: its UTC date as `YYYYMMDD`, or `unknown` for
/// a timestamp that is not positive or that chrono cannot render.
pub open spec fn date_dir_name(ts: int) -> Seq<char> {
    if ts > 0 && compact_date_text(ts) is Some {
        compact_date_text(ts)->0
    } else {
        "unknown"@
    }
}

/// `n` written with at least two digits, as `format!("{:02}", n)` gives it.
pub open spec fn two_digits(n: nat) -> Seq<char> {
    if n < 10 {
        seq!['0'] + decimal(n)
    } else {
        decimal(n)
    }
}

/// The directory for the next article of a date: `date_dir` joined with the count of its
/// existing subdirectories plus one, in two digits.
pub fn article_seq_dir(date_dir: &str, existing: usize) -> (r: String)
    requires
        existing < u64::MAX,
    ensures
        r@ == path_join(date_dir@, two_digits((existing + 1) as nat)),
{
    let n = (existing as u64) + 1;
    let mut d: Vec<char> = if n < 10 {
        vec!['0']
    } else {
        Vec::new()
    };
    let digits = decimal_exec(n);
    crate::text::extend_chars(&mut d, &digits);
    proof {
        if n < 10 {
            assert(d@ =~= seq!['0'] + decimal(n as nat));
        } else {
            assert(d@ =~= decimal(n as nat));
        }
    }
    let name = string_of(&d);
    join_path(date_dir, name.as_str())
}

impl StateStore {
    #[verifier::type_invariant]
    closed spec fn inv(self) -> bool {
        distinct_ids(self.entries@)
    }

    /// The directory of the public account's articles.
    pub closed spec fn mp_dir_view(&self) -> Seq<char> {
        self.mp_dir@
    }

    /// The state file of the public account.
    pub closed spec fn state_file_view(&self) -> Seq<char> {
        self.state_file@
    }

    /// The entry that holds `id`, if any.
    fn find_entry(&self, id: &String) -> (r: Option<usize>)
        ensures
            match r {
                Some(k) => k < self.entries@.len() && self.entries@[k as int].id@ == id@
                    && self@.contains_key(id@) && self@[id@] == self.entries@[k as int].rec.view(),
                None => !self@.contains_key(id@),
            },
    {
        proof {
            use_type_invariant(self);
            lemma_entries_map(self.entries@);
        }
        let mut i: usize = 0;
        while i < self.entries.len()
            invariant
                i <= self.entries@.len(),
                distinct_ids(self.entries@),
                forall|j: int| 0 <= j < i ==> self.entries@[j].id@ != id@,
            decreases self.entries.len() - i,
        {
            if self.entries[i].id == *id {
                proof {
                    lemma_entries_map(self.entries@);
                }
                return Some(i);
            }
            i += 1;
        }
        None
    }

    /// Sets the record of `id`, replacing the one it had.
    fn upsert(&mut self, id: String, rec: Rec)
        ensures
            final(self)@ == old(self)@.insert(id@, rec.view()),
            final(self).mp_dir == old(self).mp_dir,
            final(self).state_file == old(self).state_file,
    {
        proof {
            use_type_invariant(&*self);
            lemma_entries_map(self.entries@);
        }
        let ghost old_es = self.entries@;
        match self.find_entry(&id) {
            Some(k) => {
                let mut es: Vec<Entry> = Vec::new();
                std::mem::swap(&mut es, &mut self.entries);
                es.set(k, Entry { id, rec });
                proof {
                    assert(distinct_ids(es@)) by {
                        assert forall|i: int, j: int| 0 <= i < j < es@.len() implies es@[i].id@
                            != es@[j].id@ by {
                            assert(old_es[i].id@ != old_es[j].id@);
                        }
                    }
                    lemma_entries_map(es@);
                    assert(entries_map(es@) =~= entries_map(old_es).insert(
                        es@[k as int].id@,
                        es@[k as int].rec.view(),
                    )) by {
                        assert forall|key: Seq<char>| #[trigger] entries_map(es@).contains_key(key)
                            <==> entries_map(old_es).insert(
                            es@[k as int].id@,
                            es@[k as int].rec.view(),
                        ).contains_key(key) by {
                            if exists|i: int| 0 <= i < es@.len() && es@[i].id@ == key {
                                let i = choose|i: int| 0 <= i < es@.len() && es@[i].id@ == key;
                                if i != k {
                                    assert(old_es[i].id@ == key);
                                }
                            }
                            if exists|i: int| 0 <= i < old_es.len() && old_es[i].id@ == key {
                                let i = choose|i: int| 0 <= i < old_es.len() && old_es[i].id@ == key;
                                assert(es@[i].id@ == key);
                            }
                        }
                        assert forall|key: Seq<char>| #[trigger] entries_map(es@).contains_key(key)
                            implies entries_map(es@)[key] == entries_map(old_es).insert(
                            es@[k as int].id@,
                            es@[k as int].rec.view(),
                        )[key] by {
                            let i = choose|i: int| 0 <= i < es@.len() && es@[i].id@ == key;
                            if i != k {
                                assert(old_es[i] == es@[i]);
                            }
                        }
                    }
                }
                self.entries = es;
            },
            None => {
                let mut es: Vec<Entry> = Vec::new();
                std::mem::swap(&mut es, &mut self.entries);
                es.push(Entry { id, rec });
                proof {
                    assert(es@.drop_last() =~= old_es);
                    assert(distinct_ids(es@)) by {
                        assert forall|i: int, j: int| 0 <= i < j < es@.len() implies es@[i].id@
                            != es@[j].id@ by {
                            if j == es@.len() - 1 {
                                assert(entries_map(old_es).contains_key(old_es[i].id@));
                            } else {
                                assert(old_es[i].id@ != old_es[j].id@);
                            }
                        }
                    }
                }
                self.entries = es;
            },
        }
    }

    /// The store of the public account `mp_id` under `output_dir`, holding the records that
    /// the non-empty lines of its state file give (`None` for a line that holds no record).
    /// Its directory is `output_dir` joined with `mp_id`, its state file `state.jsonl` there.
    pub fn new(mp_id: &str, output_dir: &str, lines: Vec<Option<StoredRecord>>) -> (r: StateStore)
        ensures
            r@ == loaded(lines@),
            r.mp_dir_view() == path_join(output_dir@, mp_id@),
            r.state_file_view() == path_join(path_join(output_dir@, mp_id@), "state.jsonl"@),
    {
        let mp_dir = join_path(output_dir, mp_id);
        let state_file = join_path(mp_dir.as_str(), "state.jsonl");
        let mut store = StateStore { mp_dir, state_file, entries: Vec::new() };
        proof {
            assert(store@ =~= loaded(lines@.take(0)));
        }
        let mut i: usize = 0;
        while i < lines.len()
            invariant
                i <= lines@.len(),
                store@ == loaded(lines@.take(i as int)),
                store.mp_dir_view() == path_join(output_dir@, mp_id@),
                store.state_file_view() == path_join(path_join(output_dir@, mp_id@), "state.jsonl"@),
            decreases lines.len() - i,
        {
            proof {
                assert(lines@.take(i + 1).drop_last() =~= lines@.take(i as int));
            }
            match &lines[i] {
                Some(r) => {
                    let rec = Rec {
                        status: r.status.clone(),
                        file_path: r.file_path.clone(),
                        title: r.title.clone(),
                        failed_count: r.failed_count as u32,
                    };
                    store.upsert(r.article_id.clone(), rec);
                },
                None => {},
            }
            i += 1;
        }
        proof {
            assert(lines@.take(lines.len() as int) =~= lines@);
        }
        store
    }

    /// The directory of the public account's articles.
    pub fn mp_dir(&self) -> (r: &str)
        ensures
            r@ == self.mp_dir_view(),
    {
        self.mp_dir.as_str()
    }

    /// The state file of the public account.
    pub fn state_file(&self) -> (r: &str)
        ensures
            r@ == self.state_file_view(),
    {
        self.state_file.as_str()
    }

    /// Whether the article was fetched: its record says `"success"`.
    pub fn is_fetched(&self, id: &str) -> (b: bool)
        ensures
            b == fetched(self@, id@),
    {
        let key = to_string(id);
        match self.find_entry(&key) {
            Some(k) => self.entries[k].rec.status == to_string("success"),
            None => false,
        }
    }

    /// Whether the article is given up on: `max` is not 0 (0 retries forever) and its record
    /// says `"failed"` with at least `max` failures.
    pub fn is_exhausted(&self, id: &str, max: u32) -> (b: bool)
        ensures
            b == exhausted(self@, id@, max),
    {
        if max == 0 {
            return false;
        }
        let key = to_string(id);
        match self.find_entry(&key) {
            Some(k) => self.entries[k].rec.status == to_string("failed")
                && self.entries[k].rec.failed_count >= max,
            None => false,
        }
    }

    /// The failure count of an article, 0 where the store holds no record of it.
    pub fn failed_count(&self, id: &str) -> (n: u32)
        ensures
            n == count_of(self@, id@),
    {
        let key = to_string(id);
        match self.find_entry(&key) {
            Some(k) => self.entries[k].rec.failed_count,
            None => 0,
        }
    }

    /// Records the outcome of an attempt at an article: its record becomes `status`,
    /// `file_path` and `title`, with the failure count one higher on `"failed"` and zero
    /// otherwise. Returns the entry to append to the state file.
    pub fn record(&mut self, id: &str, title: &str, ts: i64, status: &str, file_path: &str) -> (e:
        StateEntry)
        requires
            status@ == "failed"@ ==> count_of(old(self)@, id@) < u32::MAX,
        ensures
            final(self)@ == recorded(old(self)@, id@, title@, status@, file_path@),
            final(self).mp_dir_view() == old(self).mp_dir_view(),
            final(self).state_file_view() == old(self).state_file_view(),
            e.article_id@ == id@,
            e.title@ == title@,
            e.publish_time == ts,
            e.status@ == status@,
            e.file_path@ == file_path@,
            e.failed_count == count_after(old(self)@, id@, status@),
    {
        let current = self.failed_count(id);
        let new_count: u32 = if to_string(status) == to_string("failed") {
            current + 1
        } else {
            0
        };
        let rec = Rec {
            status: to_string(status),
            file_path: to_string(file_path),
            title: to_string(title),
            failed_count: new_count,
        };
        self.upsert(to_string(id), rec);
        StateEntry {
            article_id: to_string(id),
            title: to_string(title),
            publish_time: ts,
            status: to_string(status),
            file_path: to_string(file_path),
            failed_count: new_count,
        }
    }

    /// Whether a state file of `line_count` non-empty lines should be rewritten: it has
    /// lines, and more than twice as many as the store has articles.
    pub fn needs_compaction(&self, line_count: usize) -> (b: bool)
        ensures
            b == (line_count > 0 && line_count > 2 * self@.len()),
    {
        proof {
            use_type_invariant(self);
            lemma_entries_map(self.entries@);
        }
        line_count > 0 && (line_count as u128) > 2 * (self.entries.len() as u128)
    }

    /// The records to write when the state file is rewritten: one per article, as the
    /// store holds it.
    pub fn compact(&self) -> (r: Vec<StoredRecord>)
        ensures
            loaded(some_records(r@)) == self@,
            r@.len() == self@.len(),
            forall|i: int, j: int|
                0 <= i < j < r@.len() ==> (#[trigger] r@[i]).article_id@ != (#[trigger] r@[j]).article_id@,
    {
        proof {
            use_type_invariant(self);
            lemma_entries_map(self.entries@);
        }
        let mut r: Vec<StoredRecord> = Vec::new();
        let mut i: usize = 0;
        while i < self.entries.len()
            invariant
                i <= self.entries@.len(),
                r@.len() == i,
                loaded(some_records(r@)) == entries_map(self.entries@.take(i as int)),
                forall|j: int| 0 <= j < i ==> (#[trigger] r@[j]).article_id@ == self.entries@[j].id@,
            decreases self.entries.len() - i,
        {
            let e = &self.entries[i];
            let ghost prev = r@;
            r.push(
                StoredRecord {
                    article_id: e.id.clone(),
                    status: e.rec.status.clone(),
                    file_path: e.rec.file_path.clone(),
                    title: e.rec.title.clone(),
                    failed_count: e.rec.failed_count as u64,
                },
            );
            proof {
                assert(some_records(r@).drop_last() =~= some_records(prev));
                assert(self.entries@.take(i + 1).drop_last() =~= self.entries@.take(i as int));
                assert(stored_view(r@.last()) == e.rec.view());
            }
            i += 1;
        }
        proof {
            assert(self.entries@.take(self.entries.len() as int) =~= self.entries@);
        }
        r
    }

    /// Where the files of an article go. The candidates are, in order: the file of its own
    /// record, if that names one; then the files of the records (other or its own) with the
    /// same title that name one, each joined to the account's directory. The first
    /// candidate that exists gives the directory to reuse; where none does, the article
    /// takes a new numbered directory under `date_dir`.
    pub fn resolve_article_dir(&self, id: &str, title: &str, ts: i64) -> (r: ArticleDirPlan)
        ensures
            r.date_dir@ == path_join(self.mp_dir_view(), date_dir_name(ts as int)),
            ({
                let own = if self@.contains_key(id@) && self@[id@].file_path.len() > 0 {
                    seq![path_join(self.mp_dir_view(), self@[id@].file_path)]
                } else {
                    Seq::<Seq<char>>::empty()
                };
                let cands = r.candidates@.map_values(|c: String| c@);
                let rest = cands.skip(own.len() as int);
                &&& cands.len() >= own.len()
                &&& cands.take(own.len() as int) == own
                &&& forall|k: Seq<char>|
                    #![trigger self@.contains_key(k)]
                    self@.contains_key(k) && titled_with_file(self@[k], title@) ==> rest.contains(path_join(self.mp_dir_view(), self@[k].file_path))
                &&& forall|j: int|
                    #![trigger rest[j]]
                    0 <= j < rest.len() ==> file_of_titled_record(
                        self@,
                        title@,
                        self.mp_dir_view(),
                        rest[j],
                    )
            }),
    {
        proof {
            use_type_invariant(self);
            lemma_entries_map(self.entries@);
        }
        let mut candidates: Vec<String> = Vec::new();
        let key = to_string(id);
        match self.find_entry(&key) {
            Some(k) => {
                if !self.entries[k].rec.file_path.as_str().is_empty() {
                    candidates.push(join_path(self.mp_dir.as_str(), self.entries[k].rec.file_path.as_str()));
                }
            },
            None => {},
        }
        let own_len = candidates.len();
        let title_s = to_string(title);
        let ghost own = candidates@.map_values(|c: String| c@);
        let ghost es = self.entries@;
        let ghost dir = self.mp_dir@;
        let mut i: usize = 0;
        proof {
            assert(candidates@.map_values(|c: String| c@) =~= own + title_paths(es.take(0), title@, dir));
        }
        while i < self.entries.len()
            invariant
                i <= es.len(),
                es == self.entries@,
                dir == self.mp_dir@,
                own.len() == own_len,
                title_s@ == title@,
                candidates@.map_values(|c: String| c@) == own + title_paths(
                    es.take(i as int),
                    title@,
                    dir,
                ),
            decreases es.len() - i,
        {
            let e = &self.entries[i];
            proof {
                assert(es.take(i + 1).drop_last() =~= es.take(i as int));
                assert(es.take(i + 1).last() == es[i as int]);
            }
            let ghost prev = candidates@.map_values(|c: String| c@);
            let matches = e.rec.title == title_s && !e.rec.file_path.as_str().is_empty();
            proof {
                assert(matches == (e.rec.title@ == title@ && e.rec.file_path@.len() > 0));
                if !matches {
                    assert(title_paths(es.take(i + 1), title@, dir) == title_paths(
                        es.take(i as int),
                        title@,
                        dir,
                    ));
                }
            }
            if matches {
                candidates.push(join_path(self.mp_dir.as_str(), e.rec.file_path.as_str()));
                proof {
                    assert(candidates@.map_values(|c: String| c@) =~= prev.push(
                        path_join(dir, e.rec.file_path@),
                    ));
                    assert(own + title_paths(es.take(i as int), title@, dir).push(
                        path_join(dir, e.rec.file_path@),
                    ) =~= (own + title_paths(es.take(i as int), title@, dir)).push(
                        path_join(dir, e.rec.file_path@),
                    ));
                }
            }
            i += 1;
        }
        proof {
            assert(es.take(es.len() as int) =~= es);
            lemma_title_paths(es, title@, dir);
            let cands = candidates@.map_values(|c: String| c@);
            assert(cands.take(own_len as int) =~= own);
            assert(cands.skip(own_len as int) =~= title_paths(es, title@, dir));
        }
        let name = if ts > 0 {
            match format_compact_date(ts) {
                Some(d) => d,
                None => to_string("unknown"),
            }
        } else {
            to_string("unknown")
        };
        let date_dir = join_path(self.mp_dir.as_str(), name.as_str());
        ArticleDirPlan { candidates, date_dir }
    }
}


// ---------------------------------------------------------------------------
// What recording keeps
// ---------------------------------------------------------------------------

/// After a success is recorded, the article counts as fetched (later runs skip it), its
/// failure count is zero, and it is never given up on.
pub proof fn lemma_success_is_fetched(
    m: Map<Seq<char>, RecordView>,
    id: Seq<char>,
    title: Seq<char>,
    file_path: Seq<char>,
    max: u32,
)
    ensures
        fetched(recorded(m, id, title, "success"@, file_path), id),
        count_of(recorded(m, id, title, "success"@, file_path), id) == 0,
        !exhausted(recorded(m, id, title, "success"@, file_path), id, max),
{
    reveal_strlit("success");
    reveal_strlit("failed");
    assert("success"@ != "failed"@) by {
        assert("success"@[0] != "failed"@[0]);
    }
}

/// After a failure is recorded, the article is not fetched (later runs retry it) and its
/// failure count is one higher; it is given up on exactly when `max` is not 0 and the new
/// count reaches `max`.
pub proof fn lemma_failure_counts(
    m: Map<Seq<char>, RecordView>,
    id: Seq<char>,
    title: Seq<char>,
    file_path: Seq<char>,
    max: u32,
)
    requires
        count_of(m, id) < u32::MAX,
    ensures
        !fetched(recorded(m, id, title, "failed"@, file_path), id),
        count_of(recorded(m, id, title, "failed"@, file_path), id) == count_of(m, id) + 1,
        exhausted(recorded(m, id, title, "failed"@, file_path), id, max) <==> (max != 0
            && count_of(m, id) + 1 >= max),
{
    reveal_strlit("success");
    reveal_strlit("failed");
    assert("success"@ != "failed"@) by {
        assert("success"@[0] != "failed"@[0]);
    }
}

/// With `max_failures` 0 no article is ever given up on.
pub proof fn lemma_zero_max_never_exhausts(m: Map<Seq<char>, RecordView>, id: Seq<char>)
    ensures
        !exhausted(m, id, 0),
{
}

/// No article is both fetched and given up on.
pub proof fn lemma_fetched_excludes_exhausted(m: Map<Seq<char>, RecordView>, id: Seq<char>, max: u32)
    ensures
        !(fetched(m, id) && exhausted(m, id, max)),
{
    reveal_strlit("success");
    reveal_strlit("failed");
    assert("success"@ != "failed"@) by {
        assert("success"@[0] != "failed"@[0]);
    }
}

/// Recording an attempt at one article leaves every other article's record, and whether it
/// is fetched or given up on, as it was.
pub proof fn lemma_record_leaves_others(
    m: Map<Seq<char>, RecordView>,
    id: Seq<char>,
    other: Seq<char>,
    title: Seq<char>,
    status: Seq<char>,
    file_path: Seq<char>,
    max: u32,
)
    requires
        other != id,
    ensures
        recorded(m, id, title, status, file_path).contains_key(other) == m.contains_key(other),
        m.contains_key(other) ==> recorded(m, id, title, status, file_path)[other] == m[other],
        fetched(recorded(m, id, title, status, file_path), other) == fetched(m, other),
        exhausted(recorded(m, id, title, status, file_path), other, max) == exhausted(m, other, max),
{
}

/// Reading back the state file after the entry that `record` returns was appended to it
/// gives the store that `record` left: the file and the store agree.
pub proof fn lemma_appended_entry_reloads(
    lines: Seq<Option<StoredRecord>>,
    id: Seq<char>,
    title: Seq<char>,
    status: Seq<char>,
    file_path: Seq<char>,
    e: StateEntry,
)
    requires
        e.article_id@ == id,
        e.title@ == title,
        e.status@ == status,
        e.file_path@ == file_path,
        e.failed_count == count_after(loaded(lines), id, status),
    ensures
        loaded(lines.push(Some(entry_record(e)))) == recorded(loaded(lines), id, title, status, file_path),
{
    assert(lines.push(Some(entry_record(e))).drop_last() =~= lines);
    let v = stored_view(entry_record(e));
    assert(v == RecordView {
        status: status,
        file_path: file_path,
        title: title,
        failed_count: count_after(loaded(lines), id, status) as u32,
    });
}

/// The store after the attempts of `es` were recorded in their order, each by its article,
/// title, status and file.
pub open spec fn recorded_all(m: Map<Seq<char>, RecordView>, es: Seq<StateEntry>) -> Map<
    Seq<char>,
    RecordView,
>
    decreases es.len(),
{
    if es.len() == 0 {
        m
    } else {
        let e = es.last();
        recorded(recorded_all(m, es.drop_last()), e.article_id@, e.title@, e.status@, e.file_path@)
    }
}

/// `es` are the entries that `record` returns when called in their order on a store that
/// holds `m`: each carries the failure count of its article after its attempt.
pub open spec fn entries_from(m: Map<Seq<char>, RecordView>, es: Seq<StateEntry>) -> bool
    decreases es.len(),
{
    if es.len() == 0 {
        true
    } else {
        entries_from(m, es.drop_last()) && es.last().failed_count == count_after(
            recorded_all(m, es.drop_last()),
            es.last().article_id@,
            es.last().status@,
        )
    }
}

/// The lines that appending the entries of `es` adds to a state file.
pub open spec fn entry_lines(es: Seq<StateEntry>) -> Seq<Option<StoredRecord>> {
    es.map_values(|e: StateEntry| Some(entry_record(e)))
}

/// Reading back a state file to which the entries of a run of `record` calls were appended
/// gives the store that those calls left.
pub proof fn lemma_appended_entries_reload(lines: Seq<Option<StoredRecord>>, es: Seq<StateEntry>)
    requires
        entries_from(loaded(lines), es),
    ensures
        loaded(lines + entry_lines(es)) == recorded_all(loaded(lines), es),
    decreases es.len(),
{
    if es.len() == 0 {
        assert(lines + entry_lines(es) =~= lines);
    } else {
        let init = es.drop_last();
        let e = es.last();
        lemma_appended_entries_reload(lines, init);
        let before = lines + entry_lines(init);
        assert(lines + entry_lines(es) =~= before.push(Some(entry_record(e))));
        lemma_appended_entry_reloads(
            before,
            e.article_id@,
            e.title@,
            e.status@,
            e.file_path@,
            e,
        );
    }
}

/// Recording attempts at other articles leaves whether an article is fetched, its failure
/// count and whether it is given up on as they were.
pub proof fn lemma_others_leave_article(
    m: Map<Seq<char>, RecordView>,
    es: Seq<StateEntry>,
    id: Seq<char>,
    max: u32,
)
    requires
        forall|k: int| 0 <= k < es.len() ==> (#[trigger] es[k]).article_id@ != id,
    ensures
        fetched(recorded_all(m, es), id) == fetched(m, id),
        count_of(recorded_all(m, es), id) == count_of(m, id),
        exhausted(recorded_all(m, es), id, max) == exhausted(m, id, max),
    decreases es.len(),
{
    if es.len() > 0 {
        assert(es.last() == es[es.len() - 1]);
        assert forall|k: int| 0 <= k < es.drop_last().len() implies (
        #[trigger] es.drop_last()[k]).article_id@ != id by {
            assert(es.drop_last()[k] == es[k]);
        }
        lemma_others_leave_article(m, es.drop_last(), id, max);
    }
}

/// Whether an article is fetched is decided by the last attempt recorded for it: it is
/// fetched exactly when that attempt's status is `success`.
pub proof fn lemma_last_attempt_decides(
    m: Map<Seq<char>, RecordView>,
    es: Seq<StateEntry>,
    id: Seq<char>,
    j: int,
)
    requires
        0 <= j < es.len(),
        es[j].article_id@ == id,
        forall|k: int| j < k < es.len() ==> (#[trigger] es[k]).article_id@ != id,
    ensures
        fetched(recorded_all(m, es), id) == (es[j].status@ == "success"@),
    decreases es.len(),
{
    if j < es.len() - 1 {
        assert(es.last() == es[es.len() - 1]);
        let init = es.drop_last();
        assert(init[j] == es[j]);
        assert forall|k: int| j < k < init.len() implies (#[trigger] init[k]).article_id@ != id by {
            assert(init[k] == es[k]);
        }
        lemma_last_attempt_decides(m, init, id, j);
    } else {
        assert(es.last() == es[j]);
    }
}

/// An article with no failures behind it that then fails `k` times in a row has a failure
/// count of `k`, and is given up on exactly when `max` is not 0 and `k` reaches `max`.
pub proof fn lemma_failures_in_a_row(
    m: Map<Seq<char>, RecordView>,
    es: Seq<StateEntry>,
    id: Seq<char>,
    max: u32,
)
    requires
        count_of(m, id) == 0,
        es.len() < u32::MAX,
        forall|k: int|
            0 <= k < es.len() ==> (#[trigger] es[k]).article_id@ == id && es[k].status@
                == "failed"@,
    ensures
        count_of(recorded_all(m, es), id) == es.len(),
        es.len() > 0 ==> !fetched(recorded_all(m, es), id),
        exhausted(recorded_all(m, es), id, max) == (max != 0 && es.len() >= max),
    decreases es.len(),
{
    reveal_strlit("success");
    reveal_strlit("failed");
    assert("success"@ != "failed"@) by {
        assert("success"@[0] != "failed"@[0]);
    }
    if es.len() > 0 {
        let init = es.drop_last();
        assert(es.last() == es[es.len() - 1]);
        assert forall|k: int| 0 <= k < init.len() implies (#[trigger] init[k]).article_id@ == id
            && init[k].status@ == "failed"@ by {
            assert(init[k] == es[k]);
        }
        lemma_failures_in_a_row(m, init, id, max);
    } else {
        assert(max != 0 && m.contains_key(id) ==> m[id].failed_count < max);
    }
}

proof fn lemma_loaded_keys(lines: Seq<Option<StoredRecord>>, id: Seq<char>)
    requires
        forall|i: int| 0 <= i < lines.len() ==> !(#[trigger] lines[i] matches Some(r) && r.article_id@ == id),
    ensures
        !loaded(lines).contains_key(id),
    decreases lines.len(),
{
    if lines.len() > 0 {
        assert(lines.last() == lines[lines.len() - 1]);
        assert forall|i: int| 0 <= i < lines.drop_last().len() implies !(#[trigger] lines.drop_last()[i] matches Some(r) && r.article_id@ == id) by {
            assert(lines.drop_last()[i] == lines[i]);
        }
        lemma_loaded_keys(lines.drop_last(), id);
    }
}

/// An article that no line of the state file names and that no attempt was recorded for is
/// neither fetched nor given up on.
pub proof fn lemma_unrecorded_not_fetched(
    lines: Seq<Option<StoredRecord>>,
    es: Seq<StateEntry>,
    id: Seq<char>,
    max: u32,
)
    requires
        forall|i: int| 0 <= i < lines.len() ==> !(#[trigger] lines[i] matches Some(r) && r.article_id@ == id),
        forall|k: int| 0 <= k < es.len() ==> (#[trigger] es[k]).article_id@ != id,
    ensures
        !fetched(recorded_all(loaded(lines), es), id),
        !exhausted(recorded_all(loaded(lines), es), id, max),
{
    lemma_loaded_keys(lines, id);
    lemma_others_leave_article(loaded(lines), es, id, max);
}
}
