use werss_cli::client::{append_page, req_step, ArticleInfo, LoginEvent, PollOutcome, PollTracker, ReqState, StatusAction};
use werss_cli::reply::{
    article_detail_of, articles_page_of, login_event_of, mps_page_of, refresh_task_id_of,
    reply_is_json, reply_message, task_status_of,
};
use werss_cli::state::stored_record_of;

#[test]
fn login_replies_are_read() {
    match login_event_of("<html>bad gateway</html>", true) {
        LoginEvent::NotJson { server_error } => assert!(server_error),
        _ => panic!("expected NotJson"),
    }
    match login_event_of(r#"{"code":0,"data":{"access_token":"tok"}}"#, false) {
        LoginEvent::Answered { code, access_token } => {
            assert_eq!(code, Some(0));
            assert_eq!(access_token.as_deref(), Some("tok"));
        }
        _ => panic!("expected Answered"),
    }
    match login_event_of(r#"{"code":40101,"message":"bad password"}"#, false) {
        LoginEvent::Answered { code, access_token } => {
            assert_eq!(code, Some(40101));
            assert_eq!(access_token, None);
        }
        _ => panic!("expected Answered"),
    }
    assert_eq!(reply_message(r#"{"message":"bad password"}"#).as_deref(), Some("bad password"));
    assert_eq!(reply_message(r#"{"message":5}"#), None);
}

#[test]
fn article_pages_are_read_with_defaults() {
    let body = r#"{"data":{"total":3,"list":[
        {"id":"a1","title":"First","publish_time":1700000000},
        {"title":"No id"},
        {"id":"a3","publish_time":"soon"}
    ]}}"#;
    let (items, total) = articles_page_of(body);
    assert_eq!(total, 3);
    assert_eq!(items.len(), 3);
    assert_eq!((items[0].id.as_str(), items[0].title.as_str(), items[0].publish_time), ("a1", "First", 1700000000));
    assert_eq!((items[1].id.as_str(), items[1].title.as_str(), items[1].publish_time), ("", "No id", 0));
    assert_eq!((items[2].id.as_str(), items[2].title.as_str(), items[2].publish_time), ("a3", "", 0));
    let (none, total) = articles_page_of(r#"{"data":{}}"#);
    assert!(none.is_empty());
    assert_eq!(total, 0);
    let (none, _) = articles_page_of("not json");
    assert!(none.is_empty());
}

#[test]
fn account_pages_fall_back_to_mps() {
    let (items, total) = mps_page_of(r#"{"data":{"mps":[{"id":"MP_1","mp_name":"One"},{"id":"MP_2"}],"total":2}}"#);
    assert_eq!(total, 2);
    assert_eq!(items.len(), 2);
    assert_eq!((items[0].id.as_str(), items[0].mp_name.as_str()), ("MP_1", "One"));
    assert_eq!((items[1].id.as_str(), items[1].mp_name.as_str()), ("MP_2", ""));
    let (items, _) = mps_page_of(r#"{"data":{"list":[{"id":"L"}],"mps":[{"id":"M"}]}}"#);
    assert_eq!(items.len(), 1);
    assert_eq!(items[0].id, "L");
    let (items, _) = mps_page_of(r#"{"data":{"list":null,"mps":[{"id":"M"}]}}"#);
    assert!(items.is_empty());
}

#[test]
fn article_detail_and_tasks_are_read() {
    let d = article_detail_of(
        r#"{"data":{"id":"x","mp_id":"MP","title":"T","url":"https://u","pic_url":"https://p.jpg","description":"D","content":"<p>c</p>","content_html":"<h1>T</h1>","publish_time":42}}"#,
    );
    assert_eq!(d.id, "x");
    assert_eq!(d.mp_id, "MP");
    assert_eq!(d.title, "T");
    assert_eq!(d.url, "https://u");
    assert_eq!(d.pic_url, "https://p.jpg");
    assert_eq!(d.description, "D");
    assert_eq!(d.content, "<p>c</p>");
    assert_eq!(d.content_html, "<h1>T</h1>");
    assert_eq!(d.publish_time, 42);
    let empty = article_detail_of(r#"{"code":0}"#);
    assert_eq!(empty.title, "");
    assert_eq!(empty.publish_time, 0);
    assert_eq!(refresh_task_id_of(r#"{"code":0,"data":{"task_id":"t9"}}"#).as_deref(), Some("t9"));
    assert_eq!(refresh_task_id_of(r#"{"code":1,"data":{"task_id":"t9"}}"#), None);
    assert_eq!(task_status_of(r#"{"data":{"status":"running"}}"#).as_deref(), Some("running"));
    assert_eq!(task_status_of(r#"{"data":{}}"#), None);
    assert!(reply_is_json("[1, 2]"));
    assert!(!reply_is_json("{oops"));
}

#[test]
fn state_lines_are_read_with_defaults() {
    let r = stored_record_of(r#"{"article_id":"a","status":"failed","file_path":"","title":"A","failed_count":2,"updated_at":5}"#).unwrap();
    assert_eq!(r.article_id, "a");
    assert_eq!(r.status, "failed");
    assert_eq!(r.title, "A");
    assert_eq!(r.failed_count, 2);
    let r = stored_record_of(r#"{"article_id":"b"}"#).unwrap();
    assert_eq!(r.status, "");
    assert_eq!(r.failed_count, 0);
    assert!(stored_record_of("{truncated").is_none());
}

#[test]
fn a_request_logs_in_again_at_most_once() {
    assert_eq!(req_step(ReqState::First, true, 401), StatusAction::Reauthenticate);
    assert_eq!(req_step(ReqState::First, false, 401), StatusAction::Fail);
    assert_eq!(req_step(ReqState::First, true, 500), StatusAction::Fail);
    assert_eq!(req_step(ReqState::First, true, 200), StatusAction::Parse);
    assert_eq!(req_step(ReqState::AfterReauth, true, 401), StatusAction::Parse);
    assert_eq!(req_step(ReqState::AfterReauth, true, 503), StatusAction::Parse);
}

#[test]
fn pages_are_collected_in_order() {
    let art = |id: &str| ArticleInfo { id: id.into(), title: String::new(), publish_time: 0 };
    let mut out = vec![art("a")];
    let full: Vec<ArticleInfo> = (0..100).map(|i| art(&format!("p{i}"))).collect();
    assert!(!append_page(&mut out, full, 500));
    assert_eq!(out.len(), 101);
    assert_eq!(out[0].id, "a");
    assert_eq!(out[1].id, "p0");
    assert_eq!(out[100].id, "p99");
    assert!(append_page(&mut out, vec![art("z")], 500));
    assert_eq!(out[101].id, "z");
    let mut few = Vec::new();
    assert!(append_page(&mut few, (0..100).map(|i| art(&i.to_string())).collect(), 100));
}

#[test]
fn poll_tracker_counts_errors() {
    let mut t = PollTracker::new();
    assert_eq!(t.errors(), 0);
    t.observe(PollOutcome::RequestFailed, 0, 180);
    t.observe(PollOutcome::RequestFailed, 0, 180);
    assert_eq!(t.errors(), 2);
    t.observe(PollOutcome::Status(Some("running".into())), 0, 180);
    assert_eq!(t.errors(), 0);
}
