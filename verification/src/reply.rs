//! Reading the server's JSON replies: what a login answer, a page of accounts or articles,
//! an article's detail and a refresh task say, each field read at its JSON pointer, with
//! `""` or 0 where it is missing.
use vstd::prelude::*;

use crate::client::{task_id_from_refresh, ArticleDetail, ArticleInfo, LoginEvent, MpInfo};
use crate::text::{chars_of, decimal, decimal_exec, extend_chars, string_of};
use crate::trusted::{
    json_array_len, json_array_len_at, json_has, json_i64, json_i64_at, json_is_valid,
    json_parses, json_str, json_str_at, json_value_exists,
};

verus! {

/// The view of an optional string.
pub open spec fn opt_view(o: Option<String>) -> Option<Seq<char>> {
    match o {
        Some(s) => Some(s@),
        None => None,
    }
}

/// A string read from a reply, `""` where there is none.
pub open spec fn str_or_empty(o: Option<Seq<char>>) -> Seq<char> {
    match o {
        Some(s) => s,
        None => Seq::empty(),
    }
}

/// An integer read from a reply, 0 where there is none.
pub open spec fn int_or_zero(o: Option<i64>) -> i64 {
    match o {
        Some(n) => n,
        None => 0,
    }
}

/// The JSON pointer to field `key` of item `k` of the array at `list`.
pub open spec fn item_pointer(list: Seq<char>, k: nat, key: Seq<char>) -> Seq<char> {
    list + seq!['/'] + decimal(k) + seq!['/'] + key
}

/// The number of items in the array at `list`, 0 where there is no array.
pub open spec fn list_len(body: Seq<char>, list: Seq<char>) -> nat {
    match json_array_len_at(body, list) {
        Some(n) => n as nat,
        None => 0,
    }
}

/// The total that a page reports at `/data/total`, 0 where there is none.
pub open spec fn page_total(body: Seq<char>) -> i64 {
    int_or_zero(json_i64_at(body, "/data/total"@))
}

fn pointer_of(list: &str, k: usize, key: &str) -> (r: String)
    ensures
        r@ == item_pointer(list@, k as nat, key@),
{
    let mut v = chars_of(list);
    v.push('/');
    extend_chars(&mut v, &decimal_exec(k as u64));
    v.push('/');
    extend_chars(&mut v, &chars_of(key));
    proof {
        assert(v@ =~= item_pointer(list@, k as nat, key@));
    }
    string_of(&v)
}

fn or_empty(o: Option<String>) -> (r: String)
    ensures
        r@ == str_or_empty(opt_view(o)),
{
    match o {
        Some(s) => s,
        None => String::new(),
    }
}

fn or_zero(o: Option<i64>) -> (r: i64)
    ensures
        r == int_or_zero(o),
{
    match o {
        Some(n) => n,
        None => 0,
    }
}

pub(crate) fn str_at(body: &str, pointer: &str) -> (r: String)
    ensures
        r@ == str_or_empty(json_str_at(body@, pointer@)),
{
    or_empty(json_str(body, pointer))
}

fn item_count(body: &str, list: &str) -> (n: usize)
    ensures
        n == list_len(body@, list@),
{
    match json_array_len(body, list) {
        Some(n) => n,
        None => 0,
    }
}

/// Whether a reply body is JSON.
pub fn reply_is_json(body: &str) -> (b: bool)
    ensures
        b == json_parses(body@),
{
    json_is_valid(body)
}

/// The `message` of a reply, where it holds a string there.
pub fn reply_message(body: &str) -> (r: Option<String>)
    ensures
        opt_view(r) == json_str_at(body@, "/message"@),
{
    json_str(body, "/message")
}

// ---------------------------------------------------------------------------
// Logging in
// ---------------------------------------------------------------------------

/// What a login reply says: `NotJson` for a body that is not JSON (with whether the status
/// was 5xx), otherwise its `code` and its `data.access_token`.
pub open spec fn login_reply(body: Seq<char>, server_error: bool, e: LoginEvent) -> bool {
    if !json_parses(body) {
        e == LoginEvent::NotJson { server_error }
    } else {
        e matches LoginEvent::Answered { code, access_token } && code == json_i64_at(body, "/code"@)
            && opt_view(access_token) == json_str_at(body, "/data/access_token"@)
    }
}

/// Reads a login reply.
pub fn login_event_of(body: &str, server_error: bool) -> (e: LoginEvent)
    ensures
        login_reply(body@, server_error, e),
{
    if !json_is_valid(body) {
        LoginEvent::NotJson { server_error }
    } else {
        LoginEvent::Answered {
            code: json_i64(body, "/code"),
            access_token: json_str(body, "/data/access_token"),
        }
    }
}

// ---------------------------------------------------------------------------
// Pages of accounts and articles
// ---------------------------------------------------------------------------

/// Item `k` of the array at `list` read as an article: its `id` and `title` (`""` where
/// missing) and its `publish_time` (0 where missing).
pub open spec fn article_read(body: Seq<char>, list: Seq<char>, k: nat, a: ArticleInfo) -> bool {
    &&& a.id@ == str_or_empty(json_str_at(body, item_pointer(list, k, "id"@)))
    &&& a.title@ == str_or_empty(json_str_at(body, item_pointer(list, k, "title"@)))
    &&& a.publish_time == int_or_zero(json_i64_at(body, item_pointer(list, k, "publish_time"@)))
}

/// Item `k` of the array at `list` read as an account: its `id` and `mp_name` (`""` where
/// missing).
pub open spec fn mp_read(body: Seq<char>, list: Seq<char>, k: nat, m: MpInfo) -> bool {
    &&& m.id@ == str_or_empty(json_str_at(body, item_pointer(list, k, "id"@)))
    &&& m.mp_name@ == str_or_empty(json_str_at(body, item_pointer(list, k, "mp_name"@)))
}

/// Where a page of accounts holds its items: `/data/list` where there is a value there,
/// `/data/mps` otherwise.
pub open spec fn mps_list_pointer(body: Seq<char>) -> Seq<char> {
    if json_has(body, "/data/list"@) {
        "/data/list"@
    } else {
        "/data/mps"@
    }
}

/// Reads a page of articles: the items of `/data/list` in order (none where it holds no
/// array) and the total at `/data/total` (0 where missing).
pub fn articles_page_of(body: &str) -> (r: (Vec<ArticleInfo>, i64))
    ensures
        r.0@.len() == list_len(body@, "/data/list"@),
        forall|k: int|
            0 <= k < r.0@.len() ==> article_read(body@, "/data/list"@, k as nat, #[trigger] r.0@[k]),
        r.1 == page_total(body@),
{
    let list = "/data/list";
    let n = item_count(body, list);
    let mut out: Vec<ArticleInfo> = Vec::new();
    let mut k: usize = 0;
    while k < n
        invariant
            k <= n,
            n == list_len(body@, list@),
            out@.len() == k,
            forall|j: int|
                0 <= j < k ==> article_read(body@, list@, j as nat, #[trigger] out@[j]),
        decreases n - k,
    {
        let id = str_at(body, pointer_of(list, k, "id").as_str());
        let title = str_at(body, pointer_of(list, k, "title").as_str());
        let publish_time = or_zero(json_i64(body, pointer_of(list, k, "publish_time").as_str()));
        out.push(ArticleInfo { id, title, publish_time });
        k += 1;
    }
    (out, or_zero(json_i64(body, "/data/total")))
}

/// Reads a page of accounts: the items of `/data/list`, or of `/data/mps` where the former
/// is missing, in order (none where it holds no array), and the total at `/data/total`
/// (0 where missing).
pub fn mps_page_of(body: &str) -> (r: (Vec<MpInfo>, i64))
    ensures
        r.0@.len() == list_len(body@, mps_list_pointer(body@)),
        forall|k: int|
            0 <= k < r.0@.len() ==> mp_read(body@, mps_list_pointer(body@), k as nat, #[trigger] r.0@[k]),
        r.1 == page_total(body@),
{
    let list = if json_value_exists(body, "/data/list") {
        "/data/list"
    } else {
        "/data/mps"
    };
    let n = item_count(body, list);
    let mut out: Vec<MpInfo> = Vec::new();
    let mut k: usize = 0;
    while k < n
        invariant
            k <= n,
            list@ == mps_list_pointer(body@),
            n == list_len(body@, list@),
            out@.len() == k,
            forall|j: int| 0 <= j < k ==> mp_read(body@, list@, j as nat, #[trigger] out@[j]),
        decreases n - k,
    {
        let id = str_at(body, pointer_of(list, k, "id").as_str());
        let mp_name = str_at(body, pointer_of(list, k, "mp_name").as_str());
        out.push(MpInfo { id, mp_name });
        k += 1;
    }
    (out, or_zero(json_i64(body, "/data/total")))
}

// ---------------------------------------------------------------------------
// Articles and refresh tasks
// ---------------------------------------------------------------------------

/// An article's detail as its reply gives it: each field read from `data` (`""` or 0 where
/// missing).
pub open spec fn detail_read(body: Seq<char>, d: ArticleDetail) -> bool {
    &&& d.id@ == str_or_empty(json_str_at(body, "/data/id"@))
    &&& d.mp_id@ == str_or_empty(json_str_at(body, "/data/mp_id"@))
    &&& d.title@ == str_or_empty(json_str_at(body, "/data/title"@))
    &&& d.url@ == str_or_empty(json_str_at(body, "/data/url"@))
    &&& d.pic_url@ == str_or_empty(json_str_at(body, "/data/pic_url"@))
    &&& d.description@ == str_or_empty(json_str_at(body, "/data/description"@))
    &&& d.content@ == str_or_empty(json_str_at(body, "/data/content"@))
    &&& d.content_html@ == str_or_empty(json_str_at(body, "/data/content_html"@))
    &&& d.publish_time == int_or_zero(json_i64_at(body, "/data/publish_time"@))
}

/// Reads an article's detail.
pub fn article_detail_of(body: &str) -> (d: ArticleDetail)
    ensures
        detail_read(body@, d),
{
    ArticleDetail {
        id: str_at(body, "/data/id"),
        mp_id: str_at(body, "/data/mp_id"),
        title: str_at(body, "/data/title"),
        url: str_at(body, "/data/url"),
        pic_url: str_at(body, "/data/pic_url"),
        description: str_at(body, "/data/description"),
        content: str_at(body, "/data/content"),
        content_html: str_at(body, "/data/content_html"),
        publish_time: or_zero(json_i64(body, "/data/publish_time")),
    }
}

/// The task id that a refresh reply gives: its `data.task_id`, where its `code` is 0.
pub fn refresh_task_id_of(body: &str) -> (r: Option<String>)
    ensures
        opt_view(r) == (if json_i64_at(body@, "/code"@) == Some(0i64) {
            json_str_at(body@, "/data/task_id"@)
        } else {
            None
        }),
{
    task_id_from_refresh(json_i64(body, "/code"), json_str(body, "/data/task_id"))
}

/// The status that a poll of a refresh task reads: its `data.status`, where it is a
/// string.
pub fn task_status_of(body: &str) -> (r: Option<String>)
    ensures
        opt_view(r) == json_str_at(body@, "/data/status"@),
{
    json_str(body, "/data/status")
}

}
