use std::sync::{Arc, Mutex};

use axum::body::Bytes;
use segment_store::app_state::AppState;
use segment_store::handlers::{
    handle_any, handle_delete, handle_get, handle_list, handle_put, join_lines, trim_list_path,
    upload_step, BodyEvent, ListParams, Status,
};
use segment_store::segment::{Segment, StreamStep};

type Shared = Arc<Mutex<Segment>>;

fn shared_segment() -> Shared {
    Arc::new(Mutex::new(Segment::new()))
}

fn store(state: &mut AppState<Shared>, path: String) {
    handle_put(state, path, shared_segment());
}

#[test]
fn test_handle_put_success() {
    let mut state: AppState<Shared> = AppState::default();
    let path = "test".to_string();

    let segment = shared_segment();
    handle_put(&mut state, path.clone(), Arc::clone(&segment));

    let mut seg = segment.lock().unwrap();
    assert!(upload_step(&mut seg, BodyEvent::Data(Bytes::from("chunk"))).is_none());
    let reply = upload_step(&mut seg, BodyEvent::Finished).unwrap();

    let status = reply.status;
    assert_eq!(status, Status::Success);

    assert!(state.contains_key(&path));

    let list = state.list("", 0, 100);
    assert!(list.contains(&path));
}

#[test]
fn test_handle_get_success() {
    let mut state: AppState<Shared> = AppState::default();
    let path = "test".to_string();

    let segment = shared_segment();
    segment.lock().unwrap().add_chunk(Bytes::from("chunk"));
    state.insert(path.clone(), segment);

    let found = handle_get(&state, &path);

    assert!(found.is_ok());
}

#[test]
fn test_handle_get_not_found() {
    let state: AppState<Shared> = AppState::default();
    let path = "test".to_string();

    let reply = handle_get(&state, &path).unwrap_err();

    assert_eq!(reply.status, Status::NotFound);
}

#[test]
fn test_handle_delete_success() {
    let mut state: AppState<Shared> = AppState::default();
    let path = "test".to_string();

    store(&mut state, path.clone());

    let reply = handle_delete(&mut state, &path);

    assert_eq!(reply.status, Status::Success);

    assert!(!state.contains_key(&path));

    let list = state.list("", 0, 100);
    assert!(!list.contains(&path));
}

#[test]
fn test_handle_delete_not_found() {
    let mut state: AppState<Shared> = AppState::default();
    let path = "test".to_string();

    let reply = handle_delete(&mut state, &path);

    assert_eq!(reply.status, Status::NotFound);
}

#[test]
fn test_handle_list_default_params() {
    let state: AppState<Shared> = AppState::default();

    let params = ListParams { limit: None, offset: None };

    let reply = handle_list(&state, "/test/", params);

    assert_eq!(reply.status, Status::Success);
}

#[test]
fn test_handle_list_path_prefix() {
    let mut state: AppState<Shared> = AppState::default();
    // The path of the request "/test/?limit=10".
    let path = "/test/";

    for prefix in &["test/", "other/", "test/sub/"] {
        for i in 0..3 {
            let path = format!("{}path{}", prefix, i);
            store(&mut state, path);
        }
    }

    let params = ListParams { limit: Some(10), offset: None };

    let reply = handle_list(&state, path, params);

    assert_eq!(reply.status, Status::Success);
    let body_text = reply.body;
    let lines: Vec<&str> = body_text.lines().collect();

    assert!(lines.iter().all(|line| line.starts_with("test/")));
}

#[test]
fn test_handle_list_empty() {
    let state: AppState<Shared> = AppState::default();
    // The path of the request "/?limit=10&offset=0".
    let path = "/";

    let params = ListParams { limit: Some(10), offset: Some(0) };

    let reply = handle_list(&state, path, params);

    assert_eq!(reply.status, Status::Success);

    let body_text = reply.body;
    assert_eq!(body_text.to_string(), "");
}

#[test]
fn test_handle_list_with_pagination() {
    let mut state: AppState<Shared> = AppState::default();
    // The path of the request "/test/?limit=2&offset=0".
    let path = "/test/";

    for i in 0..5 {
        let path = format!("test/{}", i);
        store(&mut state, path);
    }

    let params = ListParams { limit: Some(2), offset: Some(0) };

    let reply = handle_list(&state, path, params);

    assert_eq!(reply.status, Status::Success);

    let body_text = reply.body;
    let lines: Vec<&str> = body_text.lines().collect();
    assert_eq!(lines.len(), 2);
}

#[test]
fn test_handle_list_offset() {
    let mut state: AppState<Shared> = AppState::default();
    // The path of the request "/test/?limit=10&offset=2".
    let path = "/test/";

    for i in 0..10 {
        let path = format!("test/{}", i);
        store(&mut state, path);
    }

    let params = ListParams { limit: Some(10), offset: Some(2) };

    let reply = handle_list(&state, path, params);

    assert_eq!(reply.status, Status::Success);

    let body_text = reply.body;
    let lines: Vec<&str> = body_text.lines().collect();

    assert_eq!(lines.len(), 8);

    assert_eq!(lines[0], "test/2");
    assert_eq!(lines[7], "test/9");
}

#[test]
fn test_handle_any_list() {
    let state: AppState<Shared> = AppState::default();
    // The path of the request "/?limit=10".
    let path = "/";

    let params = ListParams { limit: Some(10), offset: None };

    let reply = handle_any(&state, "LIST", path, params);

    assert_eq!(reply.status, Status::Success);
}

#[test]
fn test_handle_any_method_not_allowed() {
    let state: AppState<Shared> = AppState::default();
    let path = "/";

    let params = ListParams { limit: None, offset: None };

    let reply = handle_any(&state, "INVALID", path, params);

    assert_eq!(reply.status, Status::MethodNotAllowed);
}

#[test]
fn method_not_allowed_has_empty_body() {
    let state: AppState<Shared> = AppState::default();
    let params = ListParams { limit: None, offset: None };
    let reply = handle_any(&state, "list", "/", params);
    assert_eq!(reply.status, Status::MethodNotAllowed);
    assert_eq!(reply.body, "");
}

#[test]
fn any_list_gives_the_listing() {
    let mut state: AppState<Shared> = AppState::default();
    store(&mut state, "a/1".to_string());
    store(&mut state, "a/2".to_string());
    let params = ListParams { limit: None, offset: None };
    let reply = handle_any(&state, "LIST", "/a/", params);
    assert_eq!(reply.status, Status::Success);
    assert_eq!(reply.body, "a/1\na/2");
}

#[test]
fn list_trims_slashes_and_stars() {
    let mut state: AppState<Shared> = AppState::default();
    store(&mut state, "a/1".to_string());
    store(&mut state, "b/1".to_string());
    let params = ListParams { limit: None, offset: None };
    let reply = handle_list(&state, "///a/**", params);
    assert_eq!(reply.body, "a/1");
}

#[test]
fn trim_list_path_cases() {
    assert_eq!(trim_list_path("/test/"), "test/");
    assert_eq!(trim_list_path("///a*b**"), "a*b");
    assert_eq!(trim_list_path("/"), "");
    assert_eq!(trim_list_path("*/"), "*/");
    assert_eq!(trim_list_path("/**"), "");
    assert_eq!(trim_list_path(""), "");
    assert_eq!(trim_list_path("/é*"), "é");
}

#[test]
fn join_lines_cases() {
    let none: Vec<String> = Vec::new();
    assert_eq!(join_lines(&none, "\n"), "");
    assert_eq!(join_lines(&vec!["a".to_string()], "\n"), "a");
    assert_eq!(join_lines(&vec!["a".to_string(), "".to_string(), "c".to_string()], ", "), "a, , c");
}

#[test]
fn put_replaces_earlier_segment() {
    let mut state: AppState<Shared> = AppState::default();
    let first = shared_segment();
    let second = shared_segment();
    handle_put(&mut state, "p".to_string(), Arc::clone(&first));
    handle_put(&mut state, "p".to_string(), Arc::clone(&second));
    let got = handle_get(&state, "p").unwrap();
    assert!(Arc::ptr_eq(got, &second));
    assert_eq!(state.len(), 1);
}

#[test]
fn get_after_delete_is_not_found() {
    let mut state: AppState<Shared> = AppState::default();
    store(&mut state, "p".to_string());
    assert_eq!(handle_delete(&mut state, "p").body, "ok");
    let reply = handle_get(&state, "p").unwrap_err();
    assert_eq!(reply.status, Status::NotFound);
    assert_eq!(reply.body, "not found");
    assert_eq!(handle_delete(&mut state, "p").body, "not found");
}

#[test]
fn upload_failure_answers_bad_request_and_closes() {
    let mut segment = Segment::new();
    assert!(upload_step(&mut segment, BodyEvent::Data(Bytes::from("x"))).is_none());
    let reply = upload_step(&mut segment, BodyEvent::Failed("broken body".to_string())).unwrap();
    assert_eq!(reply.status, Status::BadRequest);
    assert_eq!(reply.body, "broken body");
    assert!(segment.is_closed());
    assert!(matches!(segment.stream(1), StreamStep::End));
}

#[test]
fn upload_finish_answers_ok_and_closes() {
    let mut segment = Segment::new();
    let reply = upload_step(&mut segment, BodyEvent::Finished).unwrap();
    assert_eq!(reply.status, Status::Success);
    assert_eq!(reply.body, "ok");
    assert!(segment.is_closed());
    assert_eq!(segment.num_chunks(), 0);
}

#[test]
fn list_limit_is_capped() {
    let mut state: AppState<Shared> = AppState::default();
    for i in 0..3 {
        store(&mut state, format!("x/{}", i));
    }
    let params = ListParams { limit: Some(usize::MAX), offset: Some(1) };
    let reply = handle_list(&state, "/x/", params);
    assert_eq!(reply.body, "x/1\nx/2");
    let params = ListParams { limit: Some(0), offset: None };
    assert_eq!(handle_list(&state, "/x/", params).body, "");
}
