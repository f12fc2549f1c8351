use werss_cli::sync::workspace_outcome;
use werss_cli::text::{parent_of, relative_to};
use werss_cli::client::{
    api_url, article_detail_path, articles_page_path, classify_status, login_step,
    mps_page_path, next_offset, normalize_api_base, pagination_done, refresh_article_path,
    refresh_task_path, task_id_from_refresh, update_mp_path, ApiBaseError, ArticleDetail,
    ArticleInfo, LoginEvent, LoginFailure, LoginStep, MpInfo, PollAction, PollOutcome,
    PollTracker, StatusAction, LOGIN_PATH,
};
use werss_cli::auth::{session_step, SessionAction, SessionEvent};
use werss_cli::config::Config;
use werss_cli::convert::conversion_succeeds;
use werss_cli::state::{StateStore, StoredRecord};
use werss_cli::sync::{
    cover_file_name, filter_by_time, image_file_name, may_retry, parse_date, parse_mp_selection,
    plan_pending, preflight, refresh_task_result, render_article, resolve, select_mps,
    workspace_paths, workspace_published, CliOptions, MpSelection, PathFacts, PreflightError,
    RenderError, SelectionError, WorkspaceSteps,
};

#[test]
fn api_base_is_normalized() {
    assert_eq!(normalize_api_base("http://h:8001///").ok().unwrap(), "http://h:8001");
    assert_eq!(normalize_api_base("https://h").ok().unwrap(), "https://h");
    assert_eq!(normalize_api_base("").err(), Some(ApiBaseError::Empty));
    assert_eq!(normalize_api_base("///").err(), Some(ApiBaseError::Empty));
    assert_eq!(normalize_api_base("ftp://h").err(), Some(ApiBaseError::NotHttp));
}

#[test]
fn request_paths() {
    assert_eq!(api_url("http://h", LOGIN_PATH), "http://h/api/v1/wx/auth/login");
    assert_eq!(mps_page_path(200), "/api/v1/wx/mps?limit=100&offset=200");
    assert_eq!(update_mp_path("MP_1", 0, 1), "/api/v1/wx/mps/update/MP_1?start_page=0&end_page=1");
    assert_eq!(articles_page_path(0, "MP_1"), "/api/v1/wx/articles?limit=100&offset=0&mp_id=MP_1");
    assert_eq!(refresh_article_path("a1"), "/api/v1/wx/articles/a1/refresh");
    assert_eq!(refresh_task_path("t1"), "/api/v1/wx/articles/refresh/tasks/t1");
    assert_eq!(article_detail_path("a1"), "/api/v1/wx/articles/a1?content=true");
    assert_eq!(update_mp_path("M", -2, -1), "/api/v1/wx/mps/update/M?start_page=-2&end_page=-1");
}

#[test]
fn paging_stops_on_total_or_short_page() {
    assert!(pagination_done(5, 5, 100));
    assert!(pagination_done(100, 250, 99));
    assert!(!pagination_done(100, 250, 100));
    assert!(pagination_done(0, 0, 100));
    assert!(pagination_done(3, -1, 100));
    assert_eq!(next_offset(100), 200);
}

#[test]
fn status_classification() {
    assert_eq!(classify_status(401, true), StatusAction::Reauthenticate);
    assert_eq!(classify_status(401, false), StatusAction::Fail);
    assert_eq!(classify_status(500, true), StatusAction::Fail);
    assert_eq!(classify_status(200, true), StatusAction::Parse);
    assert_eq!(classify_status(299, false), StatusAction::Parse);
}

#[test]
fn refresh_task_id_needs_code_zero() {
    assert_eq!(task_id_from_refresh(Some(0), Some("t".into())), Some("t".to_string()));
    assert_eq!(task_id_from_refresh(Some(1), Some("t".into())), None);
    assert_eq!(task_id_from_refresh(None, Some("t".into())), None);
    assert_eq!(task_id_from_refresh(Some(0), None), None);
}

#[test]
fn login_retries_transient_failures_up_to_three_attempts() {
    assert!(matches!(login_step(1, LoginEvent::SendFailed { connect: true, timeout: false }), LoginStep::Retry));
    assert!(matches!(login_step(2, LoginEvent::SendFailed { connect: false, timeout: true }), LoginStep::Retry));
    assert!(matches!(
        login_step(3, LoginEvent::SendFailed { connect: true, timeout: false }),
        LoginStep::Fail(LoginFailure::CannotConnect)
    ));
    assert!(matches!(
        login_step(1, LoginEvent::SendFailed { connect: false, timeout: false }),
        LoginStep::Fail(LoginFailure::RequestFailed)
    ));
    assert!(matches!(login_step(1, LoginEvent::NotJson { server_error: true }), LoginStep::Retry));
    assert!(matches!(login_step(3, LoginEvent::NotJson { server_error: true }), LoginStep::Fail(LoginFailure::NotJson)));
    assert!(matches!(login_step(1, LoginEvent::NotJson { server_error: false }), LoginStep::Fail(LoginFailure::NotJson)));
    assert!(matches!(
        login_step(1, LoginEvent::Answered { code: Some(1), access_token: Some("x".into()) }),
        LoginStep::Fail(LoginFailure::Rejected)
    ));
    assert!(matches!(
        login_step(1, LoginEvent::Answered { code: Some(0), access_token: None }),
        LoginStep::Fail(LoginFailure::NoToken)
    ));
    match login_step(1, LoginEvent::Answered { code: Some(0), access_token: Some("tok".into()) }) {
        LoginStep::Done(t) => assert_eq!(t, "tok"),
        _ => panic!("expected a token"),
    }
}

#[test]
fn poll_ends_on_final_status_or_timeout() {
    let mut p = PollTracker::new();
    assert!(matches!(p.observe(PollOutcome::Status(Some("pending".into())), 0, 180), PollAction::Wait));
    match p.observe(PollOutcome::Status(Some("success".into())), 3, 180) {
        PollAction::Done(s) => assert_eq!(s, "success"),
        _ => panic!(),
    }
    match p.observe(PollOutcome::Status(None), 3, 180) {
        PollAction::Done(s) => assert_eq!(s, "failed"),
        _ => panic!(),
    }
    match p.observe(PollOutcome::Status(Some("processing".into())), 180, 180) {
        PollAction::Done(s) => assert_eq!(s, "timeout"),
        _ => panic!(),
    }
}

#[test]
fn poll_gives_up_after_five_errors_in_a_row() {
    let mut p = PollTracker::new();
    for _ in 0..4 {
        assert!(matches!(p.observe(PollOutcome::RequestFailed, 0, 180), PollAction::Wait));
    }
    assert!(matches!(p.observe(PollOutcome::RequestFailed, 0, 180), PollAction::GiveUp));
    let mut p = PollTracker::new();
    for _ in 0..4 {
        p.observe(PollOutcome::RequestFailed, 0, 180);
    }
    assert!(matches!(p.observe(PollOutcome::Status(Some("pending".into())), 0, 180), PollAction::Wait));
    assert!(matches!(p.observe(PollOutcome::RequestFailed, 0, 180), PollAction::Wait));
}

fn cli() -> CliOptions {
    CliOptions {
        api_base: None,
        username: None,
        password: None,
        mp: None,
        output: None,
        workspace: None,
        since: None,
        until: None,
        limit: None,
        download_images: false,
        start_page: None,
        end_page: None,
    }
}

#[test]
fn flags_override_config() {
    let mut cfg = Config::default();
    cfg.api.base = "http://file".into();
    cfg.sync.since = "2026-01-01".into();
    cfg.sync.until = "2026-01-02".into();
    let mut c = cli();
    c.api_base = Some("http://flag".into());
    c.limit = Some(7);
    c.until = Some("1970-01-02".into());
    let r = resolve(&c, &cfg);
    assert_eq!(r.api_base, "http://flag");
    assert_eq!(r.mp, "all");
    assert_eq!(r.output, "./articles");
    assert_eq!(r.limit, 7);
    assert_eq!(r.max_failures, 3);
    assert_eq!(r.since_ts, Some(1767225600));
    assert_eq!(r.until_ts, Some(86400 + 86399));
    assert_eq!(r.end_page, 1);
}

#[test]
fn dates_parse_to_utc_midnight() {
    assert_eq!(parse_date("1970-01-01"), Some(0));
    assert_eq!(parse_date(" 2015-05-15 "), Some(1431648000));
    assert_eq!(parse_date(""), None);
    assert_eq!(parse_date("   "), None);
    assert_eq!(parse_date("2015-13-01"), None);
}

#[test]
fn preflight_checks_in_order() {
    let mut c = cli();
    c.mp = Some("  ".into());
    let r = resolve(&c, &Config::default());
    let ok = PathFacts {
        output_exists: true,
        output_is_dir: true,
        output_writable: true,
        workspace_exists: false,
        workspace_is_dir: false,
    };
    assert_eq!(preflight(&r, &ok), Err(PreflightError::NoTargetMps));
    let r = resolve(&cli(), &Config::default());
    assert_eq!(preflight(&r, &ok), Ok(()));
    let file = PathFacts { output_is_dir: false, ..ok };
    assert_eq!(preflight(&r, &file), Err(PreflightError::OutputNotDir));
    let ro = PathFacts { output_writable: false, ..ok };
    assert_eq!(preflight(&r, &ro), Err(PreflightError::OutputNotWritable));
    let mut c = cli();
    c.workspace = Some("ws".into());
    let r = resolve(&c, &Config::default());
    let ws_file = PathFacts { workspace_exists: true, workspace_is_dir: false, ..ok };
    assert_eq!(preflight(&r, &ws_file), Err(PreflightError::WorkspaceNotDir));
}

#[test]
fn mp_selection() {
    assert!(matches!(parse_mp_selection(" ALL "), Ok(MpSelection::All)));
    match parse_mp_selection(" MP_1 , ,MP_2,") {
        Ok(MpSelection::Ids(v)) => assert_eq!(v, vec!["MP_1".to_string(), "MP_2".to_string()]),
        _ => panic!(),
    }
    assert!(matches!(parse_mp_selection(" , , "), Err(SelectionError::NoValidIds)));
    assert!(matches!(parse_mp_selection(""), Err(SelectionError::NoValidIds)));
}

fn mp(id: &str) -> MpInfo {
    MpInfo { id: id.into(), mp_name: format!("name {id}") }
}

#[test]
fn selecting_mps_reports_missing_ids() {
    let ids = vec!["B".to_string(), "X".to_string(), "A".to_string()];
    let choice = select_mps(&ids, vec![mp("A"), mp("B"), mp("C")]);
    let got: Vec<&str> = choice.selected.iter().map(|m| m.id.as_str()).collect();
    assert_eq!(got, vec!["A", "B"]);
    assert_eq!(choice.missing, vec!["X".to_string()]);
}

fn art(id: &str, t: i64) -> ArticleInfo {
    ArticleInfo { id: id.into(), title: format!("title {id}"), publish_time: t }
}

#[test]
fn articles_filtered_by_time_range() {
    let v = vec![art("a", 10), art("b", 20), art("c", 30)];
    let got: Vec<String> = filter_by_time(v, Some(15), Some(30)).into_iter().map(|a| a.id).collect();
    assert_eq!(got, vec!["b", "c"]);
    let v = vec![art("a", 10), art("b", 20)];
    assert_eq!(filter_by_time(v, None, None).len(), 2);
}

#[test]
fn pending_plan_skips_fetched_and_exhausted() {
    let rec = |id: &str, status: &str, n: u64| {
        Some(StoredRecord {
            article_id: id.into(),
            status: status.into(),
            file_path: "".into(),
            title: "".into(),
            failed_count: n,
        })
    };
    let store = StateStore::new("MP", "o", vec![rec("a", "success", 0), rec("b", "failed", 3), rec("c", "failed", 1)]);
    let arts = vec![art("a", 1), art("b", 2), art("c", 3), art("d", 4), art("e", 5)];
    let plan = plan_pending(&arts, &store, 3, 0);
    assert_eq!(plan.skipped, 1);
    assert_eq!(plan.exhausted, 1);
    let ids: Vec<&str> = plan.pending.iter().map(|a| a.id.as_str()).collect();
    assert_eq!(ids, vec!["c", "d", "e"]);
    let plan = plan_pending(&arts, &store, 3, 2);
    assert_eq!(plan.pending.len(), 2);
    let plan = plan_pending(&arts, &store, 0, 0);
    assert_eq!(plan.exhausted, 0);
    assert_eq!(plan.pending.len(), 4);
}

fn detail(content: &str, content_html: &str, title: &str) -> ArticleDetail {
    ArticleDetail {
        id: "a1".into(),
        mp_id: "MP_1".into(),
        title: title.into(),
        url: "https://mp/s".into(),
        pic_url: "https://p/0?wx_fmt=jpeg".into(),
        description: "".into(),
        content: content.into(),
        content_html: content_html.into(),
        publish_time: 0,
    }
}

#[test]
fn render_article_prefers_content() {
    let d = detail("<p>Body text</p>", "<h1>X</h1><p>Other</p>", "My Title");
    let r = render_article(&d, "Account", false).ok().unwrap();
    assert_eq!(r.slug, "my-title");
    assert_eq!(r.file_name, "my-title.md");
    assert!(r.markdown.starts_with("---\ntitle: \"My Title\"\nauthor: \"Account\"\ncoverImage: \"https://p/0?wx_fmt=jpeg\"\nurl: \"https://mp/s\"\nmp_id: \"MP_1\"\n---\n"));
    assert!(r.markdown.contains("Body text"));
    assert!(!r.markdown.contains("Other"));
}

#[test]
fn render_article_falls_back_to_stripped_content_html() {
    let d = detail("", "<h1>Heading</h1><p>Kept</p>", "T");
    let r = render_article(&d, "A", false).ok().unwrap();
    assert!(r.markdown.contains("Kept"));
    assert!(!r.markdown.contains("Heading"));
}

#[test]
fn render_article_errors() {
    assert_eq!(render_article(&detail("", "", "T"), "A", false).err(), Some(RenderError::EmptyContent));
    assert_eq!(render_article(&detail("  \n ", "", "T"), "A", false).err(), Some(RenderError::EmptyContent));
    assert_eq!(render_article(&detail("<p>x</p>", "", ""), "A", false).err(), Some(RenderError::EmptyTitle));
}

#[test]
fn image_and_cover_file_names() {
    let d = detail("<p><img src=\"https://e/a.gif\"></p>", "", "T");
    let r = render_article(&d, "A", true).ok().unwrap();
    assert_eq!(r.images.len(), 1);
    assert_eq!(image_file_name(&r.images[0]), "0.gif");
    assert_eq!(cover_file_name("https://p/c.JPEG"), "cover.jpg");
    assert_eq!(cover_file_name("https://p/0?wx_fmt=jpeg"), "cover.png");
}

#[test]
fn workspace_layout() {
    let p = workspace_paths("ws", 1431648000, "slug");
    assert_eq!(p.date, "20150515");
    assert_eq!(p.dir, "ws/published/20150515/slug");
    assert_eq!(p.imgs_dir, "ws/published/20150515/slug/imgs");
    assert_eq!(p.markdown_file, "ws/published/20150515/slug/slug.md");
    let p = workspace_paths("ws", 0, "s");
    assert_eq!(p.date, "19700101");
    let p = workspace_paths("ws", i64::MAX, "s");
    assert_eq!(p.date, "unknown");
}

#[test]
fn session_steps() {
    assert_eq!(session_step(SessionEvent::SavedToken { valid: true }, false, false), SessionAction::UseSavedToken);
    assert_eq!(session_step(SessionEvent::SavedToken { valid: false }, false, false), SessionAction::RenewToken);
    assert_eq!(session_step(SessionEvent::RenewFailed, true, false), SessionAction::LogIn);
    assert_eq!(session_step(SessionEvent::NoSavedToken, true, false), SessionAction::LogIn);
    assert_eq!(session_step(SessionEvent::Renewed, true, false), SessionAction::Ready);
    assert_eq!(session_step(SessionEvent::LoggedIn, false, true), SessionAction::Ready);
    assert_eq!(session_step(SessionEvent::LoginFailed, true, false), SessionAction::GiveUp);
    assert_eq!(session_step(SessionEvent::LoginFailed, false, false), SessionAction::PromptAndLogIn);
    assert_eq!(session_step(SessionEvent::LoginFailed, false, true), SessionAction::GiveUp);
}

#[test]
fn retries_stop_after_three() {
    assert!(may_retry(0));
    assert!(may_retry(2));
    assert!(!may_retry(3));
}

#[test]
fn binary_content_cannot_be_converted() {
    let binary = "\u{1}".repeat(64);
    assert!(!conversion_succeeds(&binary, false));
    assert!(!conversion_succeeds(&binary, true));
    assert!(conversion_succeeds("<p>```</p>", false));
    let d = detail(&binary, "", "T");
    assert_eq!(render_article(&d, "A", false).err(), Some(RenderError::ConversionFailed));
}

#[test]
fn only_a_successful_refresh_goes_on() {
    assert_eq!(refresh_task_result("success"), Ok(()));
    assert_eq!(refresh_task_result("timeout"), Err("Refresh task timeout".to_string()));
    assert_eq!(refresh_task_result("failed"), Err("Refresh task failed".to_string()));
    assert_eq!(refresh_task_result("Success"), Err("Refresh task Success".to_string()));
}

#[test]
fn workspace_counts_a_missing_cover_as_failure() {
    let all = WorkspaceSteps { dir_created: true, has_cover: true, cover_saved: true, markdown_written: true };
    assert!(workspace_published(&all));
    let no_cover = WorkspaceSteps { cover_saved: false, ..all };
    assert!(!workspace_published(&no_cover));
    let none_wanted = WorkspaceSteps { has_cover: false, cover_saved: false, ..all };
    assert!(workspace_published(&none_wanted));
    let no_md = WorkspaceSteps { markdown_written: false, ..all };
    assert!(!workspace_published(&no_md));
    let no_dir = WorkspaceSteps { dir_created: false, has_cover: true, cover_saved: false, markdown_written: false };
    assert!(!workspace_published(&no_dir));
}

#[test]
fn relative_paths_and_parents() {
    assert_eq!(relative_to("out/MP/20250101/01/a.md", "out/MP").as_deref(), Some("20250101/01/a.md"));
    assert_eq!(relative_to("out/MP2/a.md", "out/MP"), None);
    assert_eq!(relative_to("out/MP", "out/MP").as_deref(), Some(""));
    assert_eq!(relative_to("x/a.md", "out"), None);
    assert_eq!(parent_of("out/MP/20250101/01/a.md"), "out/MP/20250101/01");
    assert_eq!(parent_of("a.md"), "");
    assert_eq!(parent_of("/a.md"), "/");
}

#[test]
fn no_workspace_means_nothing_to_fail() {
    assert!(workspace_outcome(&None));
    let bad = WorkspaceSteps { dir_created: true, has_cover: true, cover_saved: false, markdown_written: true };
    assert!(!workspace_outcome(&Some(bad)));
}
