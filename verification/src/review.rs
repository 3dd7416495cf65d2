use vstd::prelude::*;

verus! {

use crate::diff::{clone_opt_string, clone_vec_exact, file_eq, FileDiff};

/// Whether a review is still being worked on.
#[derive(Debug, Clone, Copy, PartialEq, Eq, Structural)]
pub enum ReviewStatus {
    Open,
    Closed,
}

/// Why a thread exists.
#[derive(Debug, Clone, Copy, PartialEq, Eq, Structural)]
pub enum ThreadOrigin {
    Comment,
    ExplanationRequest,
    AgentExplanation,
}

/// Whether a thread's discussion is settled.
#[derive(Debug, Clone, Copy, PartialEq, Eq, Structural)]
pub enum ThreadStatus {
    Open,
    Resolved,
}

/// Who wrote a comment.
#[derive(Debug, Clone, Copy, PartialEq, Eq, Structural)]
pub enum AuthorType {
    Human,
    Agent,
}

/// What prompted a revision.
#[derive(Debug, Clone, Copy, PartialEq, Eq, Structural)]
pub enum RevisionTrigger {
    Agent,
    Manual,
}

/// The agent's ephemeral per-thread work tag; never persisted.
#[derive(Debug, Clone, Copy, PartialEq, Eq, Structural)]
pub enum AgentStatus {
    Seen,
    Working,
}

/// The anchor text captured when a thread is created.
#[derive(Debug, PartialEq, Eq)]
pub struct ContentSnippet {
    pub lines: Vec<String>,
    pub context_before: Vec<String>,
    pub context_after: Vec<String>,
}

/// Value equality on snippets, the line vectors compared element-wise.
pub open spec fn snippet_eq(a: ContentSnippet, b: ContentSnippet) -> bool {
    a.lines@ == b.lines@ && a.context_before@ == b.context_before@ && a.context_after@
        == b.context_after@
}

pub open spec fn opt_snippet_eq(a: Option<ContentSnippet>, b: Option<ContentSnippet>) -> bool {
    match (a, b) {
        (Some(x), Some(y)) => snippet_eq(x, y),
        (None, None) => true,
        _ => false,
    }
}

impl Clone for ContentSnippet {
    fn clone(&self) -> (r: Self)
        ensures
            snippet_eq(r, *self),
    {
        ContentSnippet {
            lines: clone_vec_exact(&self.lines),
            context_before: clone_vec_exact(&self.context_before),
            context_after: clone_vec_exact(&self.context_after),
        }
    }
}

pub fn clone_opt_snippet(o: &Option<ContentSnippet>) -> (r: Option<ContentSnippet>)
    ensures
        opt_snippet_eq(r, *o),
{
    match o {
        Some(s) => Some(s.clone()),
        None => None,
    }
}

/// A review: a handle to a git working tree under review.  Timestamps are
/// microseconds since the Unix epoch.
#[derive(Debug)]
pub struct Review {
    pub id: u128,
    pub title: Option<String>,
    pub status: ReviewStatus,
    pub created_at: i64,
    pub updated_at: i64,
    pub repo_path: String,
    pub base_ref: String,
}

impl Clone for Review {
    fn clone(&self) -> (r: Self)
        ensures
            r == *self,
    {
        Review {
            id: self.id,
            title: clone_opt_string(&self.title),
            status: self.status,
            created_at: self.created_at,
            updated_at: self.updated_at,
            repo_path: self.repo_path.clone(),
            base_ref: self.base_ref.clone(),
        }
    }
}

/// One comment in a thread.
#[derive(Debug)]
pub struct Comment {
    pub id: u128,
    pub author_type: AuthorType,
    pub body: String,
    pub created_at: i64,
}

impl Clone for Comment {
    fn clone(&self) -> (r: Self)
        ensures
            r == *self,
    {
        Comment {
            id: self.id,
            author_type: self.author_type,
            body: self.body.clone(),
            created_at: self.created_at,
        }
    }
}

/// A discussion anchored to a file and line range of a review.
#[derive(Debug)]
pub struct CommentThread {
    pub id: u128,
    pub review_id: u128,
    pub file_path: String,
    pub line_start: u32,
    pub line_end: u32,
    pub origin: ThreadOrigin,
    pub status: ThreadStatus,
    pub comments: Vec<Comment>,
    pub created_at: i64,
    pub updated_at: i64,
    pub revision_number: Option<u32>,
    pub content_snippet: Option<ContentSnippet>,
}

/// Value equality on threads, the snippet compared by content.
pub open spec fn thread_eq(a: CommentThread, b: CommentThread) -> bool {
    &&& a.id == b.id
    &&& a.review_id == b.review_id
    &&& a.file_path == b.file_path
    &&& a.line_start == b.line_start
    &&& a.line_end == b.line_end
    &&& a.origin == b.origin
    &&& a.status == b.status
    &&& a.comments@ == b.comments@
    &&& a.created_at == b.created_at
    &&& a.updated_at == b.updated_at
    &&& a.revision_number == b.revision_number
    &&& opt_snippet_eq(a.content_snippet, b.content_snippet)
}

impl Clone for CommentThread {
    fn clone(&self) -> (r: Self)
        ensures
            thread_eq(r, *self),
    {
        CommentThread {
            id: self.id,
            review_id: self.review_id,
            file_path: self.file_path.clone(),
            line_start: self.line_start,
            line_end: self.line_end,
            origin: self.origin,
            status: self.status,
            comments: clone_vec_exact(&self.comments),
            created_at: self.created_at,
            updated_at: self.updated_at,
            revision_number: self.revision_number,
            content_snippet: clone_opt_snippet(&self.content_snippet),
        }
    }
}

/// One numbered snapshot of a review's working-tree diff.
#[derive(Debug)]
pub struct Revision {
    pub id: u128,
    pub review_id: u128,
    pub revision_number: u32,
    pub trigger: RevisionTrigger,
    pub message: Option<String>,
    pub files: Vec<FileDiff>,
    pub created_at: i64,
}

/// Value equality on revisions, the files compared by content.
pub open spec fn revision_eq(a: Revision, b: Revision) -> bool {
    &&& a.id == b.id
    &&& a.review_id == b.review_id
    &&& a.revision_number == b.revision_number
    &&& a.trigger == b.trigger
    &&& a.message == b.message
    &&& a.files@.len() == b.files@.len()
    &&& forall|i: int| 0 <= i < a.files@.len() ==> file_eq(#[trigger] a.files@[i], b.files@[i])
    &&& a.created_at == b.created_at
}

impl Clone for Revision {
    fn clone(&self) -> (r: Self)
        ensures
            revision_eq(r, *self),
    {
        Revision {
            id: self.id,
            review_id: self.review_id,
            revision_number: self.revision_number,
            trigger: self.trigger,
            message: clone_opt_string(&self.message),
            files: crate::diff::clone_files(&self.files),
            created_at: self.created_at,
        }
    }
}

} // verus!
