use preflight::diff::{FileDiff, FileStatus};
use preflight::review::{AuthorType, ReviewStatus, RevisionTrigger, ThreadOrigin, ThreadStatus};
use preflight::store::{
    AddCommentInput, CreateReviewInput, CreateRevisionInput, CreateThreadInput, StoreError,
    StoreState,
};

fn review_input(title: &str) -> CreateReviewInput {
    CreateReviewInput {
        title: Some(title.to_string()),
        repo_path: "/tmp/test-repo".to_string(),
        base_ref: "HEAD".to_string(),
    }
}

fn thread_input(review_id: u128, file: &str, body: &str) -> CreateThreadInput {
    CreateThreadInput {
        review_id,
        file_path: file.to_string(),
        line_start: 1,
        line_end: 1,
        origin: ThreadOrigin::Comment,
        initial_comment_body: body.to_string(),
        initial_comment_author: AuthorType::Human,
        revision_number: None,
        content_snippet: None,
    }
}

#[test]
fn create_and_get_review() {
    let mut store = StoreState::new_empty();
    let review = store.create_review(review_input("Test review"), 10).unwrap();
    assert_eq!(review.title.as_deref(), Some("Test review"));
    assert_eq!(review.status, ReviewStatus::Open);
    let fetched = store.get_review(review.id).unwrap();
    assert_eq!(fetched.id, review.id);
    assert_eq!(fetched.repo_path, "/tmp/test-repo");
    assert_eq!(fetched.base_ref, "HEAD");
}

#[test]
fn get_review_not_found() {
    let store = StoreState::new_empty();
    let result = store.get_review(424242);
    assert!(matches!(result, Err(StoreError::ReviewNotFound(_))));
}

#[test]
fn update_review_status_persists_in_memory() {
    let mut store = StoreState::new_empty();
    let review = store.create_review(review_input("t"), 10).unwrap();
    store
        .update_review_status(review.id, ReviewStatus::Closed, 20)
        .unwrap();
    let updated = store.get_review(review.id).unwrap();
    assert_eq!(updated.status, ReviewStatus::Closed);
    assert_eq!(updated.updated_at, 20);
}

#[test]
fn updated_at_does_not_go_backwards() {
    let mut store = StoreState::new_empty();
    let review = store.create_review(review_input("t"), 100).unwrap();
    store
        .update_review_status(review.id, ReviewStatus::Closed, 50)
        .unwrap();
    let updated = store.get_review(review.id).unwrap();
    assert_eq!(updated.updated_at, 100);
}

#[test]
fn create_and_get_thread() {
    let mut store = StoreState::new_empty();
    let review = store.create_review(review_input("t"), 10).unwrap();
    let mut input = thread_input(review.id, "src/main.rs", "Looks wrong");
    input.line_start = 10;
    input.line_end = 15;
    let thread = store.create_thread(input, 11).unwrap();
    assert_eq!(thread.file_path, "src/main.rs");
    assert_eq!(thread.line_start, 10);
    assert_eq!(thread.line_end, 15);
    assert_eq!(thread.comments.len(), 1);
    assert_eq!(thread.comments[0].body, "Looks wrong");
    assert_eq!(thread.comments[0].author_type, AuthorType::Human);
    assert_eq!(thread.status, ThreadStatus::Open);
}

#[test]
fn create_thread_review_not_found() {
    let mut store = StoreState::new_empty();
    let result = store.create_thread(thread_input(7, "x", "hi"), 10);
    assert!(matches!(result, Err(StoreError::ReviewNotFound(_))));
}

#[test]
fn get_threads_review_not_found() {
    let store = StoreState::new_empty();
    let result = store.get_threads(7, None);
    assert!(matches!(result, Err(StoreError::ReviewNotFound(_))));
}

#[test]
fn get_threads_filtered_by_file() {
    let mut store = StoreState::new_empty();
    let review = store.create_review(review_input("t"), 10).unwrap();
    store
        .create_thread(thread_input(review.id, "src/a.rs", "a"), 11)
        .unwrap();
    store
        .create_thread(thread_input(review.id, "src/b.rs", "b"), 12)
        .unwrap();
    let all = store.get_threads(review.id, None).unwrap();
    assert_eq!(all.len(), 2);
    let filtered = store.get_threads(review.id, Some("src/a.rs")).unwrap();
    assert_eq!(filtered.len(), 1);
    assert_eq!(filtered[0].file_path, "src/a.rs");
}

#[test]
fn update_thread_status() {
    let mut store = StoreState::new_empty();
    let review = store.create_review(review_input("t"), 10).unwrap();
    let thread = store
        .create_thread(thread_input(review.id, "src/main.rs", "fix this"), 11)
        .unwrap();
    store
        .update_thread_status(thread.id, ThreadStatus::Resolved, 12)
        .unwrap();
    let threads = store.get_threads(review.id, None).unwrap();
    assert_eq!(threads[0].status, ThreadStatus::Resolved);
}

#[test]
fn add_comment_to_thread() {
    let mut store = StoreState::new_empty();
    let review = store.create_review(review_input("t"), 10).unwrap();
    let thread = store
        .create_thread(thread_input(review.id, "src/main.rs", "why?"), 11)
        .unwrap();
    let comment = store
        .add_comment(
            AddCommentInput {
                thread_id: thread.id,
                author_type: AuthorType::Agent,
                body: "because X".to_string(),
            },
            12,
        )
        .unwrap();
    assert_eq!(comment.author_type, AuthorType::Agent);
    assert_eq!(comment.body, "because X");
    let threads = store.get_threads(review.id, None).unwrap();
    assert_eq!(threads[0].comments.len(), 2);
}

#[test]
fn comment_timestamp_not_before_thread() {
    let mut store = StoreState::new_empty();
    let review = store.create_review(review_input("t"), 10).unwrap();
    let thread = store
        .create_thread(thread_input(review.id, "src/main.rs", "why?"), 11)
        .unwrap();
    // a clock reading behind the thread's creation is clamped to it
    let comment = store
        .add_comment(
            AddCommentInput {
                thread_id: thread.id,
                author_type: AuthorType::Human,
                body: "late clock".to_string(),
            },
            5,
        )
        .unwrap();
    assert_eq!(comment.created_at, 11);
}

#[test]
fn add_comment_thread_not_found() {
    let mut store = StoreState::new_empty();
    let result = store.add_comment(
        AddCommentInput {
            thread_id: 7,
            author_type: AuthorType::Human,
            body: "hello".to_string(),
        },
        10,
    );
    assert!(matches!(result, Err(StoreError::ThreadNotFound(_))));
}

#[test]
fn revision_numbers_increment() {
    let mut store = StoreState::new_empty();
    let review = store.create_review(review_input("t"), 10).unwrap();
    let r1 = store
        .create_revision(
            CreateRevisionInput {
                review_id: review.id,
                trigger: RevisionTrigger::Agent,
                message: None,
                files: vec![],
            },
            11,
        )
        .unwrap();
    let r2 = store
        .create_revision(
            CreateRevisionInput {
                review_id: review.id,
                trigger: RevisionTrigger::Manual,
                message: None,
                files: vec![],
            },
            12,
        )
        .unwrap();
    assert_eq!(r1.revision_number, 1);
    assert_eq!(r2.revision_number, 2);
}

#[test]
fn revisions_are_contiguous_from_one() {
    let mut store = StoreState::new_empty();
    let review = store.create_review(review_input("t"), 10).unwrap();
    for k in 0..3 {
        store
            .create_revision(
                CreateRevisionInput {
                    review_id: review.id,
                    trigger: RevisionTrigger::Agent,
                    message: None,
                    files: vec![],
                },
                11 + k,
            )
            .unwrap();
    }
    let revisions = store.get_revisions(review.id).unwrap();
    assert_eq!(revisions.len(), 3);
    assert_eq!(revisions[0].revision_number, 1);
    assert_eq!(revisions[1].revision_number, 2);
    assert_eq!(revisions[2].revision_number, 3);
}

#[test]
fn get_latest_revision() {
    let mut store = StoreState::new_empty();
    let review = store.create_review(review_input("t"), 10).unwrap();
    store
        .create_revision(
            CreateRevisionInput {
                review_id: review.id,
                trigger: RevisionTrigger::Agent,
                message: Some("first".to_string()),
                files: vec![],
            },
            11,
        )
        .unwrap();
    store
        .create_revision(
            CreateRevisionInput {
                review_id: review.id,
                trigger: RevisionTrigger::Manual,
                message: Some("second".to_string()),
                files: vec![],
            },
            12,
        )
        .unwrap();
    let latest = store.get_latest_revision(review.id).unwrap();
    assert_eq!(latest.revision_number, 2);
    assert_eq!(latest.message.as_deref(), Some("second"));
}

#[test]
fn create_revision_review_not_found() {
    let mut store = StoreState::new_empty();
    let result = store.create_revision(
        CreateRevisionInput {
            review_id: 7,
            trigger: RevisionTrigger::Agent,
            message: None,
            files: vec![],
        },
        10,
    );
    assert!(matches!(result, Err(StoreError::ReviewNotFound(_))));
}

#[test]
fn get_revision_not_found() {
    let mut store = StoreState::new_empty();
    let review = store.create_review(review_input("t"), 10).unwrap();
    let result = store.get_revision(review.id, 1);
    assert!(matches!(result, Err(StoreError::RevisionNotFound(_))));
}

#[test]
fn delete_review_removes_review_and_associated_data() {
    let mut store = StoreState::new_empty();
    let review = store.create_review(review_input("t"), 10).unwrap();
    store
        .create_thread(thread_input(review.id, "src/main.rs", "test"), 11)
        .unwrap();
    store
        .create_revision(
            CreateRevisionInput {
                review_id: review.id,
                trigger: RevisionTrigger::Agent,
                message: None,
                files: vec![],
            },
            12,
        )
        .unwrap();

    store.delete_review(review.id).unwrap();

    assert!(matches!(
        store.get_review(review.id),
        Err(StoreError::ReviewNotFound(_))
    ));
    assert!(matches!(
        store.get_threads(review.id, None),
        Err(StoreError::ReviewNotFound(_))
    ));
    assert!(matches!(
        store.get_revisions(review.id),
        Err(StoreError::ReviewNotFound(_))
    ));
    assert!(store.list_reviews().is_empty());
}

#[test]
fn delete_review_not_found() {
    let mut store = StoreState::new_empty();
    let result = store.delete_review(7);
    assert!(matches!(result, Err(StoreError::ReviewNotFound(_))));
}

#[test]
fn delete_review_does_not_affect_other_reviews() {
    let mut store = StoreState::new_empty();
    let review1 = store.create_review(review_input("a"), 10).unwrap();
    let review2 = store.create_review(review_input("b"), 11).unwrap();
    store.delete_review(review1.id).unwrap();
    assert!(store.get_review(review2.id).is_ok());
    assert_eq!(store.list_reviews().len(), 1);
}

#[test]
fn delete_closed_reviews() {
    let mut store = StoreState::new_empty();
    let r1 = store.create_review(review_input("a"), 10).unwrap();
    let r2 = store.create_review(review_input("b"), 11).unwrap();
    let r3 = store.create_review(review_input("c"), 12).unwrap();
    store
        .update_review_status(r1.id, ReviewStatus::Closed, 13)
        .unwrap();
    store
        .update_review_status(r2.id, ReviewStatus::Closed, 14)
        .unwrap();

    let deleted = store.delete_closed_reviews();
    assert_eq!(deleted.len(), 2);
    assert!(deleted.contains(&r1.id));
    assert!(deleted.contains(&r2.id));

    let remaining = store.list_reviews();
    assert_eq!(remaining.len(), 1);
    assert_eq!(remaining[0].id, r3.id);
}

#[test]
fn delete_closed_reviews_none_closed() {
    let mut store = StoreState::new_empty();
    store.create_review(review_input("a"), 10).unwrap();
    let deleted = store.delete_closed_reviews();
    assert!(deleted.is_empty());
    assert_eq!(store.list_reviews().len(), 1);
}

#[test]
fn list_reviews_open_thread_count() {
    let mut store = StoreState::new_empty();
    let review = store.create_review(review_input("t"), 10).unwrap();
    store
        .create_thread(thread_input(review.id, "src/main.rs", "first"), 11)
        .unwrap();
    store
        .create_thread(thread_input(review.id, "src/main.rs", "second"), 12)
        .unwrap();

    let list = store.list_reviews();
    assert_eq!(list[0].thread_count, 2);
    assert_eq!(list[0].open_thread_count, 2);

    let threads = store.get_threads(review.id, None).unwrap();
    store
        .update_thread_status(threads[0].id, ThreadStatus::Resolved, 13)
        .unwrap();
    let list = store.list_reviews();
    assert_eq!(list[0].thread_count, 2);
    assert_eq!(list[0].open_thread_count, 1);

    let mut expl = thread_input(review.id, "src/main.rs", "This does X");
    expl.origin = ThreadOrigin::AgentExplanation;
    expl.initial_comment_author = AuthorType::Agent;
    store.create_thread(expl, 14).unwrap();
    let list = store.list_reviews();
    assert_eq!(list[0].thread_count, 3);
    assert_eq!(list[0].open_thread_count, 1);
}

#[test]
fn file_count_tracks_latest_revision() {
    let mut store = StoreState::new_empty();
    let review = store.create_review(review_input("t"), 10).unwrap();
    let file = FileDiff {
        old_path: None,
        new_path: Some("src/main.rs".to_string()),
        status: FileStatus::Added,
        hunks: vec![],
    };
    store
        .create_revision(
            CreateRevisionInput {
                review_id: review.id,
                trigger: RevisionTrigger::Agent,
                message: None,
                files: vec![file],
            },
            11,
        )
        .unwrap();
    let list = store.list_reviews();
    assert_eq!(list[0].file_count, 1);
}

#[test]
fn reload_from_tables_preserves_state() {
    let mut store = StoreState::new_empty();
    let review = store.create_review(review_input("kept"), 10).unwrap();
    store
        .create_thread(thread_input(review.id, "src/main.rs", "note"), 11)
        .unwrap();
    store
        .create_revision(
            CreateRevisionInput {
                review_id: review.id,
                trigger: RevisionTrigger::Manual,
                message: None,
                files: vec![],
            },
            12,
        )
        .unwrap();

    // rebuild the store from its tables, as a restart from disk would
    let reloaded = StoreState::try_from_parts(
        store.reviews.clone(),
        store.threads.clone(),
        store.revisions.clone(),
    )
    .unwrap();

    let a = reloaded.get_review(review.id).unwrap();
    assert_eq!(a.title.as_deref(), Some("kept"));
    let threads = reloaded.get_threads(review.id, None).unwrap();
    assert_eq!(threads.len(), 1);
    assert_eq!(threads[0].comments[0].body, "note");
    let revs = reloaded.get_revisions(review.id).unwrap();
    assert_eq!(revs.len(), 1);
    assert_eq!(revs[0].revision_number, 1);

    // a fresh id from the reloaded store does not collide
    let extra = {
        let mut r = reloaded;
        r.create_review(review_input("fresh"), 20).unwrap()
    };
    assert_ne!(extra.id, review.id);
}

#[test]
fn reload_rejects_broken_tables() {
    let mut store = StoreState::new_empty();
    let review = store.create_review(review_input("a"), 10).unwrap();
    store
        .create_revision(
            CreateRevisionInput {
                review_id: review.id,
                trigger: RevisionTrigger::Manual,
                message: None,
                files: vec![],
            },
            11,
        )
        .unwrap();
    let mut revisions = store.revisions.clone();
    revisions[0].revision_number = 7;
    let result = StoreState::try_from_parts(store.reviews.clone(), store.threads.clone(), revisions);
    assert!(matches!(result, Err(StoreError::PersistenceError(_))));
}
