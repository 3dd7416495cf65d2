use vstd::prelude::*;

verus! {

use crate::diff::{clone_opt_string, FileStatus, Hunk};
use crate::review::{AgentStatus, AuthorType, ReviewStatus, RevisionTrigger, ThreadOrigin,
    ThreadStatus};
use crate::store::StoreError;

/// The views of a vector of strings.
pub open spec fn str_views(v: Seq<String>) -> Seq<Seq<char>> {
    v.map_values(|s: String| s@)
}

/// Body of a review-creation request.
pub struct CreateReviewRequest {
    pub title: Option<String>,
    pub repo_path: String,
    pub base_ref: String,
}

/// Body of a revision-creation request.
pub struct CreateRevisionRequest {
    pub trigger: RevisionTrigger,
    pub message: Option<String>,
}

/// Body of a thread-creation request.
pub struct CreateThreadRequest {
    pub file_path: String,
    pub line_start: u32,
    pub line_end: u32,
    pub origin: ThreadOrigin,
    pub body: String,
    pub author_type: AuthorType,
}

/// Body of a review-status update.
pub struct UpdateReviewStatusRequest {
    pub status: ReviewStatus,
}

/// Body of a thread-status update.
pub struct UpdateThreadStatusRequest {
    pub status: ThreadStatus,
}

/// Body of an agent-status update.
pub struct UpdateAgentStatusRequest {
    pub status: AgentStatus,
}

/// Body of an agent-presence update.
pub struct UpdateAgentPresenceRequest {
    pub connected: bool,
}

/// Body of a comment-creation request.
pub struct AddCommentRequest {
    pub author_type: AuthorType,
    pub body: String,
}

/// Revision selector of file queries; the latest revision when absent.
pub struct RevisionQuery {
    pub revision: Option<u32>,
}

/// Selector of an inter-revision comparison.
pub struct InterdiffQuery {
    pub from: u32,
    pub to: u32,
}

/// A review with its derived counts.
#[derive(Debug, PartialEq, Eq)]
pub struct ReviewResponse {
    pub id: u128,
    pub title: Option<String>,
    pub status: ReviewStatus,
    pub file_count: usize,
    pub thread_count: usize,
    pub open_thread_count: usize,
    pub revision_count: usize,
    pub created_at: i64,
    pub updated_at: i64,
}

impl Clone for ReviewResponse {
    fn clone(&self) -> (r: Self)
        ensures
            r == *self,
    {
        ReviewResponse {
            id: self.id,
            title: clone_opt_string(&self.title),
            status: self.status,
            file_count: self.file_count,
            thread_count: self.thread_count,
            open_thread_count: self.open_thread_count,
            revision_count: self.revision_count,
            created_at: self.created_at,
            updated_at: self.updated_at,
        }
    }
}

/// A revision without its file bodies.
#[derive(Debug, PartialEq, Eq)]
pub struct RevisionResponse {
    pub id: u128,
    pub review_id: u128,
    pub revision_number: u32,
    pub trigger: RevisionTrigger,
    pub message: Option<String>,
    pub file_count: usize,
    pub created_at: i64,
}

impl Clone for RevisionResponse {
    fn clone(&self) -> (r: Self)
        ensures
            r == *self,
    {
        RevisionResponse {
            id: self.id,
            review_id: self.review_id,
            revision_number: self.revision_number,
            trigger: self.trigger,
            message: clone_opt_string(&self.message),
            file_count: self.file_count,
            created_at: self.created_at,
        }
    }
}

/// One entry of a review's file list.
#[derive(Debug, PartialEq, Eq)]
pub struct FileListEntry {
    pub path: String,
    pub status: FileStatus,
}

/// One file's diff, with highlighted lines.
#[derive(Debug, PartialEq, Eq)]
pub struct FileDiffResponse {
    pub path: String,
    pub old_path: Option<String>,
    pub status: FileStatus,
    pub hunks: Vec<Hunk>,
}

/// One line of a file's content.
#[derive(Debug, PartialEq, Eq)]
pub struct FileContentLine {
    pub line_no: u32,
    pub content: String,
    pub highlighted: Option<String>,
}

/// A file's content with per-line highlighting.
#[derive(Debug, PartialEq, Eq)]
pub struct FileContentResponse {
    pub path: String,
    pub language: Option<String>,
    pub lines: Vec<FileContentLine>,
}

/// One comment of a thread.
#[derive(Debug, PartialEq, Eq)]
pub struct CommentResponse {
    pub id: u128,
    pub author_type: AuthorType,
    pub body: String,
    pub created_at: i64,
}

impl Clone for CommentResponse {
    fn clone(&self) -> (r: Self)
        ensures
            r == *self,
    {
        CommentResponse {
            id: self.id,
            author_type: self.author_type,
            body: self.body.clone(),
            created_at: self.created_at,
        }
    }
}

/// A thread with its comments and the agent's ephemeral status.
#[derive(Debug, PartialEq, Eq)]
pub struct ThreadResponse {
    pub id: u128,
    pub review_id: u128,
    pub file_path: String,
    pub line_start: u32,
    pub line_end: u32,
    pub origin: ThreadOrigin,
    pub status: ThreadStatus,
    pub agent_status: Option<AgentStatus>,
    pub comments: Vec<CommentResponse>,
    pub created_at: i64,
    pub updated_at: i64,
}

/// Value equality on thread responses, comments compared element-wise.
pub open spec fn thread_response_eq(a: ThreadResponse, b: ThreadResponse) -> bool {
    &&& a.id == b.id
    &&& a.review_id == b.review_id
    &&& a.file_path == b.file_path
    &&& a.line_start == b.line_start
    &&& a.line_end == b.line_end
    &&& a.origin == b.origin
    &&& a.status == b.status
    &&& a.agent_status == b.agent_status
    &&& a.comments@ == b.comments@
    &&& a.created_at == b.created_at
    &&& a.updated_at == b.updated_at
}

impl Clone for ThreadResponse {
    fn clone(&self) -> (r: Self)
        ensures
            thread_response_eq(r, *self),
    {
        ThreadResponse {
            id: self.id,
            review_id: self.review_id,
            file_path: self.file_path.clone(),
            line_start: self.line_start,
            line_end: self.line_end,
            origin: self.origin,
            status: self.status,
            agent_status: self.agent_status,
            comments: crate::diff::clone_vec_exact(&self.comments),
            created_at: self.created_at,
            updated_at: self.updated_at,
        }
    }
}

/// Whether the agent is currently attached to a review.
#[derive(Debug, Clone, Copy, PartialEq, Eq, Structural)]
pub struct AgentPresenceResponse {
    pub connected: bool,
}

/// An error surfaced at the API boundary, by HTTP class.
#[derive(Debug, Clone, PartialEq, Eq)]
pub enum ApiError {
    NotFound(String),
    BadRequest(String),
    Internal(String),
}

impl ApiError {
    /// Map a store error to its API class: lookup misses become
    /// `NotFound`, persistence trouble becomes `Internal`.
    pub fn from_store(e: StoreError) -> (r: ApiError)
        ensures
            r is NotFound <==> (e is ReviewNotFound || e is ThreadNotFound || e
                is RevisionNotFound),
            r is Internal <==> e is PersistenceError,
    {
        match e {
            StoreError::ReviewNotFound(_) => ApiError::NotFound(
                String::from_str("review not found"),
            ),
            StoreError::ThreadNotFound(_) => ApiError::NotFound(
                String::from_str("thread not found"),
            ),
            StoreError::RevisionNotFound(_) => ApiError::NotFound(
                String::from_str("revision not found"),
            ),
            StoreError::PersistenceError(m) => ApiError::Internal(m),
        }
    }
}

} // verus!
