//! What the WeRSS API client decides: the records it reads, the base URL it accepts, the
//! paths it requests, when paging stops, how a login attempt and a task poll go on.
//! Sending the requests is left to the caller.
use vstd::prelude::*;

use crate::text::{
    chars_of, extend_chars, signed_decimal, signed_decimal_exec, starts_with,
    string_of, trim_end_char, trim_end_matching, matches_at_exec,
};

verus! {

/// A public account on the server.
pub struct MpInfo {
    pub id: String,
    pub mp_name: String,
}

impl Clone for MpInfo {
    fn clone(&self) -> (r: Self)
        ensures
            r == *self,
    {
        MpInfo { id: self.id.clone(), mp_name: self.mp_name.clone() }
    }
}

/// An article as listed for a public account.
pub struct ArticleInfo {
    pub id: String,
    pub title: String,
    pub publish_time: i64,
}

impl Clone for ArticleInfo {
    fn clone(&self) -> (r: Self)
        ensures
            r == *self,
    {
        ArticleInfo { id: self.id.clone(), title: self.title.clone(), publish_time: self.publish_time }
    }
}

/// An article with its content.
pub struct ArticleDetail {
    pub id: String,
    pub mp_id: String,
    pub title: String,
    pub url: String,
    pub pic_url: String,
    pub description: String,
    pub content: String,
    pub content_html: String,
    pub publish_time: i64,
}

// ---------------------------------------------------------------------------
// Base URL
// ---------------------------------------------------------------------------

/// Why a base URL is refused.
#[derive(PartialEq, Eq, Structural, Debug, Clone, Copy)]
pub enum ApiBaseError {
    /// Nothing is left once trailing slashes are dropped.
    Empty,
    /// It starts with neither `http://` nor `https://`.
    NotHttp,
}

/// What a base URL becomes: trailing `'/'`s dropped; refused when that leaves nothing or
/// when it starts with neither `http://` nor `https://`.
pub open spec fn normalized_base(base: Seq<char>) -> Result<Seq<char>, ApiBaseError> {
    let b = trim_end_char(base, '/');
    if b.len() == 0 {
        Err(ApiBaseError::Empty)
    } else if !starts_with(b, "http://"@) && !starts_with(b, "https://"@) {
        Err(ApiBaseError::NotHttp)
    } else {
        Ok(b)
    }
}

/// Checks and normalizes the API base URL.
pub fn normalize_api_base(base: &str) -> (r: Result<String, ApiBaseError>)
    ensures
        match r {
            Ok(s) => normalized_base(base@) == Ok::<Seq<char>, ApiBaseError>(s@),
            Err(e) => normalized_base(base@) == Err::<Seq<char>, ApiBaseError>(e),
        },
{
    let b = trim_end_matching(&chars_of(base), '/');
    if b.len() == 0 {
        return Err(ApiBaseError::Empty);
    }
    if !matches_at_exec(&b, &chars_of("http://"), 0) && !matches_at_exec(&b, &chars_of("https://"), 0) {
        return Err(ApiBaseError::NotHttp);
    }
    Ok(string_of(&b))
}

// ---------------------------------------------------------------------------
// Paths
// ---------------------------------------------------------------------------

/// The login endpoint.
pub const LOGIN_PATH: &'static str = "/api/v1/wx/auth/login";

/// Articles and accounts are listed this many at a time.
pub const PAGE_SIZE: i64 = 100;

/// `base` followed by `path`.
pub fn api_url(base: &str, path: &str) -> (r: String)
    ensures
        r@ == base@ + path@,
{
    let mut r = String::from_str(base);
    r.append(path);
    r
}

fn cat(parts: Vec<Vec<char>>) -> (r: String)
    ensures
        r@ == concat_all(parts@.map_values(|p: Vec<char>| p@)),
{
    let ghost vs = parts@.map_values(|p: Vec<char>| p@);
    let mut out: Vec<char> = Vec::new();
    let mut i: usize = 0;
    while i < parts.len()
        invariant
            i <= parts@.len(),
            vs == parts@.map_values(|p: Vec<char>| p@),
            out@ == concat_all(vs.take(i as int)),
        decreases parts.len() - i,
    {
        proof {
            assert(vs.take(i + 1).drop_last() =~= vs.take(i as int));
        }
        extend_chars(&mut out, &parts[i]);
        i += 1;
    }
    proof {
        assert(vs.take(parts.len() as int) =~= vs);
    }
    string_of(&out)
}

/// The pieces of `parts` one after another.
pub open spec fn concat_all(parts: Seq<Seq<char>>) -> Seq<char>
    decreases parts.len(),
{
    if parts.len() == 0 {
        Seq::empty()
    } else {
        concat_all(parts.drop_last()) + parts.last()
    }
}

/// The page of public accounts at `offset`.
pub fn mps_page_path(offset: i64) -> (r: String)
    ensures
        r@ == "/api/v1/wx/mps?limit=100&offset="@ + signed_decimal(offset as int),
{
    let parts = vec![chars_of("/api/v1/wx/mps?limit=100&offset="), signed_decimal_exec(offset)];
    proof {
        reveal_with_fuel(concat_all, 3);
    }
    cat(parts)
}

/// The request that makes the server sync pages `start_page` to `end_page` of an account.
pub fn update_mp_path(mp_id: &str, start_page: i64, end_page: i64) -> (r: String)
    ensures
        r@ == "/api/v1/wx/mps/update/"@ + mp_id@ + "?start_page="@ + signed_decimal(
            start_page as int,
        ) + "&end_page="@ + signed_decimal(end_page as int),
{
    let parts = vec![
        chars_of("/api/v1/wx/mps/update/"),
        chars_of(mp_id),
        chars_of("?start_page="),
        signed_decimal_exec(start_page),
        chars_of("&end_page="),
        signed_decimal_exec(end_page),
    ];
    proof {
        reveal_with_fuel(concat_all, 7);
    }
    cat(parts)
}

/// The page of an account's articles at `offset`.
pub fn articles_page_path(offset: i64, mp_id: &str) -> (r: String)
    ensures
        r@ == "/api/v1/wx/articles?limit=100&offset="@ + signed_decimal(offset as int)
            + "&mp_id="@ + mp_id@,
{
    let parts = vec![
        chars_of("/api/v1/wx/articles?limit=100&offset="),
        signed_decimal_exec(offset),
        chars_of("&mp_id="),
        chars_of(mp_id),
    ];
    proof {
        reveal_with_fuel(concat_all, 5);
    }
    cat(parts)
}

/// The request that makes the server fetch an article's content again.
pub fn refresh_article_path(article_id: &str) -> (r: String)
    ensures
        r@ == "/api/v1/wx/articles/"@ + article_id@ + "/refresh"@,
{
    let parts = vec![chars_of("/api/v1/wx/articles/"), chars_of(article_id), chars_of("/refresh")];
    proof {
        reveal_with_fuel(concat_all, 4);
    }
    cat(parts)
}

/// The state of a refresh task.
pub fn refresh_task_path(task_id: &str) -> (r: String)
    ensures
        r@ == "/api/v1/wx/articles/refresh/tasks/"@ + task_id@,
{
    let parts = vec![chars_of("/api/v1/wx/articles/refresh/tasks/"), chars_of(task_id)];
    proof {
        reveal_with_fuel(concat_all, 3);
    }
    cat(parts)
}

/// An article with its content.
pub fn article_detail_path(article_id: &str) -> (r: String)
    ensures
        r@ == "/api/v1/wx/articles/"@ + article_id@ + "?content=true"@,
{
    let parts = vec![chars_of("/api/v1/wx/articles/"), chars_of(article_id), chars_of("?content=true")];
    proof {
        reveal_with_fuel(concat_all, 4);
    }
    cat(parts)
}

// ---------------------------------------------------------------------------
// Paging
// ---------------------------------------------------------------------------

/// Listing stops once as many items were collected as the server reports in total, or
/// once a page came back short.
pub open spec fn last_page(collected: int, total: int, page_len: int) -> bool {
    collected >= total || page_len < PAGE_SIZE
}

/// Whether listing stops after a page of `page_len` items, with `collected` items so far
/// and `total` reported.
pub fn pagination_done(collected: usize, total: i64, page_len: usize) -> (b: bool)
    ensures
        b == last_page(collected as int, total as int, page_len as int),
{
    (collected as i128) >= (total as i128) || page_len < 100
}

/// Appends a page of items to those collected so far, in order, and says whether listing
/// stops after it.
pub fn append_page<T>(out: &mut Vec<T>, page: Vec<T>, total: i64) -> (done: bool)
    ensures
        final(out)@ == old(out)@ + page@,
        done == last_page(final(out)@.len() as int, total as int, page@.len() as int),
{
    let page_len = page.len();
    let mut page = page;
    out.append(&mut page);
    pagination_done(out.len(), total, page_len)
}

/// The offset of the next page.
pub fn next_offset(offset: i64) -> (r: i64)
    requires
        offset <= i64::MAX - PAGE_SIZE,
    ensures
        r == offset + PAGE_SIZE,
{
    offset + PAGE_SIZE
}

// ---------------------------------------------------------------------------
// Responses
// ---------------------------------------------------------------------------

/// What to do with the status of an API response.
#[derive(PartialEq, Eq, Structural, Debug, Clone, Copy)]
pub enum StatusAction {
    /// Log in again and send the request once more.
    Reauthenticate,
    /// Report an API error.
    Fail,
    /// Read the body as JSON.
    Parse,
}

/// The status is 2xx.
pub open spec fn is_success(status: u16) -> bool {
    200 <= status <= 299
}

/// The status is 5xx.
pub open spec fn is_server_error(status: u16) -> bool {
    500 <= status <= 599
}

/// A 401 leads to a new login where a retry is allowed; otherwise anything but a 2xx is an
/// error and a 2xx is read.
pub fn classify_status(status: u16, retry: bool) -> (a: StatusAction)
    ensures
        a == (if status == 401 && retry {
            StatusAction::Reauthenticate
        } else if !is_success(status) {
            StatusAction::Fail
        } else {
            StatusAction::Parse
        }),
{
    if status == 401 && retry {
        StatusAction::Reauthenticate
    } else if !(200 <= status && status <= 299) {
        StatusAction::Fail
    } else {
        StatusAction::Parse
    }
}

/// Where a request stands: its first answer, or the answer after the one new login that a
/// 401 allows.
#[derive(PartialEq, Eq, Structural, Debug, Clone, Copy)]
pub enum ReqState {
    First,
    AfterReauth,
}

/// What to do with an answer of status `status`: the first answer is classified by
/// `classify_status`; the answer to the request sent again after a new login is read
/// whatever its status, so a request logs in again at most once.
pub fn req_step(state: ReqState, retry: bool, status: u16) -> (a: StatusAction)
    ensures
        state == ReqState::First ==> a == (if status == 401 && retry {
            StatusAction::Reauthenticate
        } else if !is_success(status) {
            StatusAction::Fail
        } else {
            StatusAction::Parse
        }),
        state == ReqState::AfterReauth ==> a == StatusAction::Parse,
{
    match state {
        ReqState::First => classify_status(status, retry),
        ReqState::AfterReauth => StatusAction::Parse,
    }
}

/// The task id that a refresh request gives: none unless the response code is 0.
pub fn task_id_from_refresh(code: Option<i64>, task_id: Option<String>) -> (r: Option<String>)
    ensures
        r == (if code == Some(0i64) {
            task_id
        } else {
            None
        }),
{
    match code {
        Some(c) => if c == 0 {
            task_id
        } else {
            None
        },
        None => None,
    }
}

// ---------------------------------------------------------------------------
// Logging in
// ---------------------------------------------------------------------------

/// How many times a login is tried.
pub const LOGIN_MAX_ATTEMPTS: u32 = 3;

/// What came of one login request.
pub enum LoginEvent {
    /// The request could not be sent or answered.
    SendFailed { connect: bool, timeout: bool },
    /// The body is not JSON; `server_error` tells whether the status was 5xx.
    NotJson { server_error: bool },
    /// The body is JSON with this `code` and `data.access_token`.
    Answered { code: Option<i64>, access_token: Option<String> },
}

/// Why a login failed.
#[derive(PartialEq, Eq, Structural, Debug, Clone, Copy)]
pub enum LoginFailure {
    /// The server could not be reached.
    CannotConnect,
    /// The request failed otherwise.
    RequestFailed,
    /// The server answered with something that is not JSON.
    NotJson,
    /// The server refused the credentials (a code other than 0).
    Rejected,
    /// The server accepted them but sent no token.
    NoToken,
}

/// What to do after a login attempt.
pub enum LoginStep {
    Retry,
    Done(String),
    Fail(LoginFailure),
}

/// The step after attempt `attempt` (counted from 1): a failed send is retried while
/// attempts remain if it could not connect or timed out; a non-JSON body is retried while
/// attempts remain if the status was 5xx; an answer with code 0 gives its token.
pub open spec fn login_next(attempt: u32, event: LoginEvent) -> LoginStep {
    match event {
        LoginEvent::SendFailed { connect, timeout } => if attempt < LOGIN_MAX_ATTEMPTS && (connect
            || timeout) {
            LoginStep::Retry
        } else if connect {
            LoginStep::Fail(LoginFailure::CannotConnect)
        } else {
            LoginStep::Fail(LoginFailure::RequestFailed)
        },
        LoginEvent::NotJson { server_error } => if attempt < LOGIN_MAX_ATTEMPTS && server_error {
            LoginStep::Retry
        } else {
            LoginStep::Fail(LoginFailure::NotJson)
        },
        LoginEvent::Answered { code, access_token } => if code != Some(0i64) {
            LoginStep::Fail(LoginFailure::Rejected)
        } else {
            match access_token {
                Some(t) => LoginStep::Done(t),
                None => LoginStep::Fail(LoginFailure::NoToken),
            }
        },
    }
}

/// Decides how a login goes on after attempt `attempt`.
pub fn login_step(attempt: u32, event: LoginEvent) -> (s: LoginStep)
    ensures
        s == login_next(attempt, event),
{
    match event {
        LoginEvent::SendFailed { connect, timeout } => if attempt < LOGIN_MAX_ATTEMPTS && (connect
            || timeout) {
            LoginStep::Retry
        } else if connect {
            LoginStep::Fail(LoginFailure::CannotConnect)
        } else {
            LoginStep::Fail(LoginFailure::RequestFailed)
        },
        LoginEvent::NotJson { server_error } => if attempt < LOGIN_MAX_ATTEMPTS && server_error {
            LoginStep::Retry
        } else {
            LoginStep::Fail(LoginFailure::NotJson)
        },
        LoginEvent::Answered { code, access_token } => {
            let accepted = match code {
                Some(c) => c == 0,
                None => false,
            };
            if !accepted {
                LoginStep::Fail(LoginFailure::Rejected)
            } else {
                match access_token {
                    Some(t) => LoginStep::Done(t),
                    None => LoginStep::Fail(LoginFailure::NoToken),
                }
            }
        },
    }
}

// ---------------------------------------------------------------------------
// Polling a refresh task
// ---------------------------------------------------------------------------

/// A poll gives up after this many errors in a row.
pub const MAX_POLL_ERRORS: u32 = 5;

/// What one poll of a refresh task gave.
pub enum PollOutcome {
    /// The request succeeded; `data.status` as sent, if any.
    Status(Option<String>),
    /// The request failed.
    RequestFailed,
}

/// What to do after a poll.
pub enum PollAction {
    /// The task ended with this status (`success`, `failed` or `timeout`).
    Done(String),
    /// Too many requests failed in a row: report the last error.
    GiveUp,
    /// Wait and poll again.
    Wait,
}

/// How a poll of a refresh task stands: the errors in a row so far.
pub struct PollTracker {
    errors: u32,
}

/// The status a poll reads: `data.status`, or `failed` where there is none.
pub open spec fn read_status(s: Option<String>) -> Seq<char> {
    match s {
        Some(t) => t@,
        None => "failed"@,
    }
}

/// A status at which a task has ended.
pub open spec fn is_final_status(s: Seq<char>) -> bool {
    s == "success"@ || s == "failed"@
}

impl PollTracker {
    /// Errors in a row so far.
    pub closed spec fn errors_view(&self) -> nat {
        self.errors as nat
    }

    #[verifier::type_invariant]
    closed spec fn inv(self) -> bool {
        self.errors < MAX_POLL_ERRORS
    }

    /// The number of failed requests in a row so far.
    pub fn errors(&self) -> (n: u32)
        ensures
            n == self.errors_view(),
    {
        self.errors
    }

    /// A poll with no errors yet.
    pub fn new() -> (t: PollTracker)
        ensures
            t.errors_view() == 0,
    {
        PollTracker { errors: 0 }
    }

    /// Takes in one poll. A status of `success` or `failed` (a missing one reads as
    /// `failed`) ends the task and clears the error count; the fifth failed request in a
    /// row gives up; otherwise the task times out once `elapsed_secs` reaches `max_wait`,
    /// and is polled again before that.
    pub fn observe(&mut self, outcome: PollOutcome, elapsed_secs: u64, max_wait: u64) -> (a:
        PollAction)
        ensures
            match outcome {
                PollOutcome::Status(s) => final(self).errors_view() == 0 && if is_final_status(
                    read_status(s),
                ) {
                    a matches PollAction::Done(d) && d@ == read_status(s)
                } else if elapsed_secs >= max_wait {
                    a matches PollAction::Done(d) && d@ == "timeout"@
                } else {
                    a is Wait
                },
                PollOutcome::RequestFailed => if old(self).errors_view() + 1 >= MAX_POLL_ERRORS {
                    a is GiveUp
                } else {
                    final(self).errors_view() == old(self).errors_view() + 1 && if elapsed_secs
                        >= max_wait {
                        a matches PollAction::Done(d) && d@ == "timeout"@
                    } else {
                        a is Wait
                    }
                },
            },
    {
        proof {
            use_type_invariant(&*self);
        }
        match outcome {
            PollOutcome::Status(s) => {
                self.errors = 0;
                let status = match s {
                    Some(t) => t,
                    None => String::from_str("failed"),
                };
                if status == String::from_str("success") || status == String::from_str("failed") {
                    return PollAction::Done(status);
                }
            },
            PollOutcome::RequestFailed => {
                if self.errors + 1 >= MAX_POLL_ERRORS {
                    return PollAction::GiveUp;
                }
                self.errors = self.errors + 1;
            },
        }
        if elapsed_secs >= max_wait {
            PollAction::Done(String::from_str("timeout"))
        } else {
            PollAction::Wait
        }
    }
}


/// A login is tried at most three times: no attempt from the third on is retried.
pub proof fn lemma_login_attempts_bounded(attempt: u32, event: LoginEvent)
    ensures
        login_next(attempt, event) is Retry ==> attempt < LOGIN_MAX_ATTEMPTS,
{
}
}
