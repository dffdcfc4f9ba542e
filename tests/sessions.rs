use xeno_mcp::executor::status_text;
use xeno_mcp::manifest::Timestamp;
use xeno_mcp::scripts::{build_loader_lua, build_scanner_lua, build_spy_lua};
use xeno_mcp::sessions::ScanSessions;

#[test]
fn first_chunk_starts_a_session() {
    let mut s = ScanSessions::new();
    s.begin_or_touch(7, "tree", Timestamp { secs: 1, nanos: 0 });
    let list = s.list();
    assert_eq!(list.len(), 1);
    assert_eq!(list[0].place_id, 7);
    assert_eq!(list[0].status, "scanning");
    assert_eq!(list[0].progress, "receiving tree");
}

#[test]
fn later_chunks_update_progress_only() {
    let mut s = ScanSessions::new();
    s.begin_or_touch(7, "tree", Timestamp { secs: 1, nanos: 0 });
    s.begin_or_touch(7, "scripts", Timestamp { secs: 9, nanos: 0 });
    s.begin_or_touch(8, "services", Timestamp { secs: 3, nanos: 0 });
    let list = s.list();
    assert_eq!(list.len(), 2);
    let seven = list.iter().find(|x| x.place_id == 7).unwrap();
    assert_eq!(seven.progress, "receiving scripts");
    assert_eq!(seven.started_at, Timestamp { secs: 1, nanos: 0 });
}

#[test]
fn cancel_reports_whether_a_session_existed() {
    let mut s = ScanSessions::new();
    s.begin_or_touch(7, "tree", Timestamp { secs: 1, nanos: 0 });
    assert!(s.cancel(7));
    assert!(!s.cancel(7));
    assert!(s.list().is_empty());
}

#[test]
fn status_codes_have_labels() {
    assert_eq!(status_text(0), "Failed");
    assert_eq!(status_text(1), "Attaching");
    assert_eq!(status_text(2), "Waiting for Roblox");
    assert_eq!(status_text(3), "Attached");
    assert_eq!(status_text(200), "Unknown");
}

#[test]
fn spy_template_is_filled() {
    let out = build_spy_lua("p={{PORT}} s={{SECRET}} again={{PORT}}", 3111, &Some("k".to_string()));
    assert_eq!(out, "p=3111 s=k again=3111");
    let out = build_spy_lua("s={{SECRET}}", 1, &None);
    assert_eq!(out, "s=");
}

#[test]
fn loader_template_uses_executor_directory_with_forward_slashes() {
    let t = "{{PORT}}|{{SECRET}}|{{EXCHANGE_DIR}}";
    let out = build_loader_lua(t, 80, &None, "C:\\ex", &None);
    assert_eq!(out, "80||C:/ex");
    let out = build_loader_lua(t, 80, &Some("z".to_string()), "C:\\ex", &Some("D:\\other\\dir".to_string()));
    assert_eq!(out, "80|z|D:/other/dir");
}

#[test]
fn scanner_template_defaults_scopes() {
    let t = "{{BASE_URL}} {{SECRET}} {{SCOPES}}";
    let out = build_scanner_lua(t, 3111, &None, &None);
    assert_eq!(out, "http://localhost:3111  [\"services\",\"tree\",\"scripts\",\"remotes\",\"properties\"]");
    let out = build_scanner_lua(t, 1, &Some("s".to_string()), &Some("[\"tree\"]".to_string()));
    assert_eq!(out, "http://localhost:1 s [\"tree\"]");
}
