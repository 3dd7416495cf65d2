use preflight::diff::FileStatus;
use preflight::events::{event_matches, event_type_matches, EventPayload, WsEvent, WsEventType};
use preflight::parser::parse_diff;
use preflight::review::{AgentStatus, AuthorType, ReviewStatus, RevisionTrigger, ThreadOrigin};
use preflight::service::ReviewService;
use preflight::types::{ApiError, CreateReviewRequest, CreateThreadRequest};

const MODIFIED_DIFF: &str = "\
diff --git a/src/main.rs b/src/main.rs
index abc1234..def5678 100644
--- a/src/main.rs
+++ b/src/main.rs
@@ -1,1 +1,5 @@
-fn main() {}
+use std::io;
+
+fn main() {
+    println!(\"hello\");
+}
";

const RENAME_DIFF: &str = "\
diff --git a/old.rs b/new.rs
similarity index 100%
rename from old.rs
rename to new.rs
";

fn service_with_review() -> (ReviewService, u128) {
    let mut svc = ReviewService::new();
    let files = parse_diff(MODIFIED_DIFF).unwrap();
    let (resp, _evs) = svc
        .create_review(
            CreateReviewRequest {
                title: Some("Test review".to_string()),
                repo_path: "/tmp/repo".to_string(),
                base_ref: "HEAD".to_string(),
            },
            files,
            1000,
        )
        .unwrap();
    (svc, resp.id)
}

#[test]
fn create_review_over_modification() {
    let mut svc = ReviewService::new();
    let files = parse_diff(MODIFIED_DIFF).unwrap();
    let (resp, evs) = svc
        .create_review(
            CreateReviewRequest {
                title: Some("Test review".to_string()),
                repo_path: "/tmp/repo".to_string(),
                base_ref: "HEAD".to_string(),
            },
            files,
            1000,
        )
        .unwrap();
    assert_eq!(resp.file_count, 1);
    assert_eq!(resp.revision_count, 1);
    assert_eq!(resp.open_thread_count, 0);
    assert_eq!(resp.status, ReviewStatus::Open);
    assert_eq!(evs.len(), 1);
    assert_eq!(evs[0].event_type, WsEventType::ReviewCreated);
    assert_eq!(evs[0].review_id, resp.id);
}

#[test]
fn list_and_fetch_files() {
    let (svc, id) = service_with_review();
    let files = svc.list_files(id, None).unwrap();
    assert_eq!(files.len(), 1);
    assert_eq!(files[0].path, "src/main.rs");
    assert_eq!(files[0].status, FileStatus::Modified);

    let fd = svc.get_file_diff(id, "src/main.rs", None).unwrap();
    assert_eq!(fd.path, "src/main.rs");
    assert_eq!(fd.status, FileStatus::Modified);
    assert!(!fd.hunks.is_empty());
    let lines = &fd.hunks[0].lines;
    assert!(lines
        .iter()
        .any(|l| l.kind == preflight::diff::LineKind::Removed && l.content.starts_with("fn main")));
    assert!(lines
        .iter()
        .any(|l| l.kind == preflight::diff::LineKind::Added && l.content.starts_with("use std::io")));
}

#[test]
fn file_diff_lines_are_highlighted() {
    let (svc, id) = service_with_review();
    let fd = svc.get_file_diff(id, "src/main.rs", None).unwrap();
    let added: Vec<_> = fd.hunks[0]
        .lines
        .iter()
        .filter(|l| l.kind == preflight::diff::LineKind::Added)
        .collect();
    assert!(!added.is_empty());
    // a .rs path maps to a known language, so the added lines carry markup
    let marked = added.iter().filter_map(|l| l.highlighted.as_ref()).count();
    assert!(marked > 0);
    assert!(added
        .iter()
        .filter_map(|l| l.highlighted.as_ref())
        .any(|h| h.contains("sy-")));
}

#[test]
fn get_file_diff_unknown_file_not_found() {
    let (svc, id) = service_with_review();
    let err = svc.get_file_diff(id, "nope.rs", None).unwrap_err();
    assert!(matches!(err, ApiError::NotFound(_)));
}

#[test]
fn old_path_resolves_under_rename() {
    let mut svc = ReviewService::new();
    let files = parse_diff(RENAME_DIFF).unwrap();
    let (resp, _evs) = svc
        .create_review(
            CreateReviewRequest {
                title: None,
                repo_path: "/tmp/repo".to_string(),
                base_ref: "HEAD".to_string(),
            },
            files,
            1000,
        )
        .unwrap();
    let p = svc.resolve_old_read_path(resp.id, "new.rs").unwrap();
    assert_eq!(p, "old.rs");
    let q = svc.resolve_old_read_path(resp.id, "unrelated.rs").unwrap();
    assert_eq!(q, "unrelated.rs");
}

#[test]
fn content_response_numbers_and_highlights_lines() {
    let svc = ReviewService::new();
    let resp = svc.build_content_response(
        "src/main.rs".to_string(),
        "use std::io;\n\nfn main() {\n    println!(\"hello\");\n}\n",
    );
    assert_eq!(resp.path, "src/main.rs");
    assert_eq!(resp.language.as_deref(), Some("Rust"));
    assert_eq!(resp.lines.len(), 5);
    assert_eq!(resp.lines[0].line_no, 1);
    assert_eq!(resp.lines[0].content, "use std::io;");
    assert_eq!(resp.lines[4].content, "}");
    assert!(resp.lines[0].highlighted.as_deref().unwrap().contains("sy-"));
}

#[test]
fn content_response_unknown_language() {
    let svc = ReviewService::new();
    let resp = svc.build_content_response("notes.xyz123".to_string(), "hello\nworld\n");
    assert_eq!(resp.language, None);
    assert_eq!(resp.lines.len(), 2);
    assert_eq!(resp.lines[1].content, "world");
    assert!(resp.lines[1].highlighted.is_none());
}

#[test]
fn thread_comment_and_events() {
    let (mut svc, id) = service_with_review();
    let (thread, evs) = svc
        .create_thread(
            id,
            CreateThreadRequest {
                file_path: "src/main.rs".to_string(),
                line_start: 1,
                line_end: 2,
                origin: ThreadOrigin::Comment,
                body: "why?".to_string(),
                author_type: AuthorType::Human,
            },
            2000,
        )
        .unwrap();
    assert_eq!(thread.comments.len(), 1);
    assert_eq!(thread.comments[0].body, "why?");
    assert_eq!(evs.len(), 1);
    assert_eq!(evs[0].event_type, WsEventType::ThreadCreated);
    match &evs[0].payload {
        EventPayload::Thread(t) => assert_eq!(t.id, thread.id),
        _ => panic!("expected a thread payload"),
    }

    let (comment, evs) = svc
        .add_comment(thread.id, AuthorType::Agent, "because X".to_string(), 3000)
        .unwrap();
    assert_eq!(comment.body, "because X");
    assert_eq!(evs.len(), 1);
    assert_eq!(evs[0].event_type, WsEventType::CommentAdded);

    let threads = svc.list_threads(id, None).unwrap();
    assert_eq!(threads.len(), 1);
    assert_eq!(threads[0].comments.len(), 2);
}

#[test]
fn agent_status_clears_on_new_comment() {
    let (mut svc, id) = service_with_review();
    let (thread, _) = svc
        .create_thread(
            id,
            CreateThreadRequest {
                file_path: "src/main.rs".to_string(),
                line_start: 1,
                line_end: 1,
                origin: ThreadOrigin::Comment,
                body: "look here".to_string(),
                author_type: AuthorType::Human,
            },
            2000,
        )
        .unwrap();

    let evs = svc
        .set_agent_status(thread.id, AgentStatus::Working, 2500)
        .unwrap();
    assert_eq!(evs.len(), 1);
    assert_eq!(evs[0].event_type, WsEventType::ThreadAcknowledged);
    let threads = svc.list_threads(id, None).unwrap();
    assert_eq!(threads[0].agent_status, Some(AgentStatus::Working));

    // a comment of either author clears the in-memory status
    svc.add_comment(thread.id, AuthorType::Agent, "done".to_string(), 3000)
        .unwrap();
    let threads = svc.list_threads(id, None).unwrap();
    assert_eq!(threads[0].agent_status, None);
}

#[test]
fn no_change_revision_rejected() {
    let (mut svc, id) = service_with_review();
    let same_files = parse_diff(MODIFIED_DIFF).unwrap();
    let err = svc
        .create_revision(id, RevisionTrigger::Manual, None, same_files, 4000)
        .unwrap_err();
    match err {
        ApiError::BadRequest(msg) => {
            assert_eq!(msg, "no changes detected since last revision");
        },
        _ => panic!("expected a bad request"),
    }
}

#[test]
fn changed_revision_accepted() {
    let (mut svc, id) = service_with_review();
    let changed = "\
diff --git a/src/main.rs b/src/main.rs
index abc1234..def5678 100644
--- a/src/main.rs
+++ b/src/main.rs
@@ -1,1 +1,2 @@
-fn main() {}
+fn main() { hello(); }
+fn hello() {}
";
    let files = parse_diff(changed).unwrap();
    let (resp, evs) = svc
        .create_revision(id, RevisionTrigger::Agent, Some("reworked".to_string()), files, 4000)
        .unwrap();
    assert_eq!(resp.revision_number, 2);
    assert_eq!(resp.trigger, RevisionTrigger::Agent);
    assert_eq!(evs.len(), 1);
    assert_eq!(evs[0].event_type, WsEventType::RevisionCreated);
    let revs = svc.list_revisions(id).unwrap();
    assert_eq!(revs.len(), 2);
    assert_eq!(revs[0].revision_number, 1);
    assert_eq!(revs[1].revision_number, 2);
}

#[test]
fn request_revision_only_when_open() {
    let (mut svc, id) = service_with_review();
    let evs = svc.request_revision(id, 5000).unwrap();
    assert_eq!(evs.len(), 1);
    assert_eq!(evs[0].event_type, WsEventType::RevisionRequested);

    svc.update_review_status(id, ReviewStatus::Closed, 5100).unwrap();
    let err = svc.request_revision(id, 5200).unwrap_err();
    assert!(matches!(err, ApiError::BadRequest(_)));
}

#[test]
fn delete_review_unreachable_afterwards() {
    let (mut svc, id) = service_with_review();
    let evs = svc.delete_review(id, 6000).unwrap();
    assert_eq!(evs.len(), 1);
    assert_eq!(evs[0].event_type, WsEventType::ReviewDeleted);
    assert!(matches!(svc.get_review(id), Err(ApiError::NotFound(_))));
    assert!(matches!(svc.list_threads(id, None), Err(ApiError::NotFound(_))));
    assert!(matches!(svc.list_revisions(id), Err(ApiError::NotFound(_))));
}

#[test]
fn presence_debounce() {
    let (mut svc, id) = service_with_review();

    // connect: one event, immediately
    let (evs, _) = svc.update_agent_presence(id, true, 10_000_000).unwrap();
    assert_eq!(evs.len(), 1);
    assert_eq!(evs[0].event_type, WsEventType::AgentPresenceChanged);
    assert!(svc.get_agent_presence(id).unwrap().connected);

    // a second connect is silent
    let (evs, _) = svc.update_agent_presence(id, true, 10_500_000).unwrap();
    assert!(evs.is_empty());

    // disconnect: nothing yet, a deadline one grace period ahead
    let (evs, deadline) = svc.update_agent_presence(id, false, 11_000_000).unwrap();
    assert!(evs.is_empty());
    let deadline = deadline.unwrap();
    assert_eq!(deadline, 11_000_000 + 5_000_000);
    assert!(svc.get_agent_presence(id).unwrap().connected);

    // a reconnect within the grace window cancels the disconnect...
    let (evs, _) = svc.update_agent_presence(id, true, 12_000_000).unwrap();
    assert!(evs.is_empty());
    // ...so the old expiry does nothing
    let evs = svc.fire_presence(id, deadline, deadline);
    assert!(evs.is_empty());
    assert!(svc.get_agent_presence(id).unwrap().connected);

    // a disconnect whose grace period passes flips the flag once
    let (_, deadline) = svc.update_agent_presence(id, false, 13_000_000).unwrap();
    let deadline = deadline.unwrap();
    let evs = svc.fire_presence(id, deadline, deadline);
    assert_eq!(evs.len(), 1);
    assert_eq!(evs[0].event_type, WsEventType::AgentPresenceChanged);
    match evs[0].payload {
        EventPayload::Presence { connected } => assert!(!connected),
        _ => panic!("expected a presence payload"),
    }
    assert!(!svc.get_agent_presence(id).unwrap().connected);

    // and reconnecting fires the connect event again
    let (evs, _) = svc.update_agent_presence(id, true, 20_000_000).unwrap();
    assert_eq!(evs.len(), 1);
}

#[test]
fn presence_unknown_review_not_found() {
    let mut svc = ReviewService::new();
    assert!(matches!(
        svc.update_agent_presence(7, true, 0),
        Err(ApiError::NotFound(_))
    ));
    assert!(matches!(svc.get_agent_presence(7), Err(ApiError::NotFound(_))));
}

#[test]
fn event_type_matching() {
    assert!(event_type_matches(&WsEventType::CommentAdded, "comment_added"));
    assert!(!event_type_matches(&WsEventType::CommentAdded, "thread_created"));
    assert!(!event_type_matches(&WsEventType::AgentPresenceChanged, "agent_presence_changed"));
}

#[test]
fn event_filters() {
    let ev = WsEvent {
        event_type: WsEventType::CommentAdded,
        review_id: 42,
        payload: EventPayload::Empty,
        timestamp: 1,
    };
    assert!(event_matches(&ev, None, None));
    assert!(event_matches(&ev, Some(42), None));
    assert!(!event_matches(&ev, Some(43), None));
    let types = vec!["thread_created".to_string(), "comment_added".to_string()];
    assert!(event_matches(&ev, Some(42), Some(&types)));
    let other = vec!["thread_created".to_string()];
    assert!(!event_matches(&ev, None, Some(&other)));
}

#[test]
fn language_lookup() {
    let svc = ReviewService::new();
    let hl = &svc.highlighter;
    assert_eq!(hl.language_name("rs").as_deref(), Some("Rust"));
    assert_eq!(hl.language_name("js").as_deref(), Some("JavaScript"));
    assert_eq!(hl.language_name("xyz123"), None);
}

#[test]
fn highlighting_is_escaped_and_line_for_line() {
    let svc = ReviewService::new();
    let hl = &svc.highlighter;
    let lines = hl.highlight_file("let x = a < b && c > d;\n", "test.rs").unwrap();
    assert_eq!(lines.len(), 1);
    assert!(lines[0].contains("&lt;") || lines[0].contains("&amp;"));
    let lines = hl.highlight_file("let x = 1;\nlet y = 2;\n", "test.rs").unwrap();
    assert_eq!(lines.len(), 2);
    for line in &lines {
        assert!(!line.ends_with('\n'));
    }
    let empty = hl.highlight_file("", "test.rs").unwrap();
    assert!(empty.is_empty());
    assert!(hl.highlight_file("hello\n", "test.xyz123").is_none());
}

#[test]
fn symref_and_merge_base_parsing() {
    assert_eq!(
        preflight::gitref::symref_branch("refs/remotes/origin/main\n").as_deref(),
        Some("main")
    );
    assert_eq!(preflight::gitref::symref_branch("fatal: ref refs/remotes/origin/HEAD is not a symbolic ref"), None);
    assert_eq!(
        preflight::gitref::trimmed_ref("  abc123\n").as_deref(),
        Some("abc123")
    );
    assert_eq!(preflight::gitref::trimmed_ref("   \n"), None);
}
