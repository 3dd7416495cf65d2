use vstd::prelude::*;

verus! {

use crate::review::{opt_snippet_eq, revision_eq, thread_eq, AuthorType, Comment, CommentThread, ContentSnippet,
    Review, ReviewStatus, Revision, RevisionTrigger, ThreadOrigin, ThreadStatus};

/// A store operation that could not be carried out.
#[derive(Debug, Clone, PartialEq, Eq)]
pub enum StoreError {
    ReviewNotFound(u128),
    ThreadNotFound(u128),
    RevisionNotFound(u128),
    PersistenceError(String),
}

/// Input for creating a new review.
pub struct CreateReviewInput {
    pub title: Option<String>,
    pub repo_path: String,
    pub base_ref: String,
}

/// Input for creating a new comment thread.
pub struct CreateThreadInput {
    pub review_id: u128,
    pub file_path: String,
    pub line_start: u32,
    pub line_end: u32,
    pub origin: ThreadOrigin,
    pub initial_comment_body: String,
    pub initial_comment_author: AuthorType,
    pub revision_number: Option<u32>,
    pub content_snippet: Option<ContentSnippet>,
}

/// Input for creating a new revision.
pub struct CreateRevisionInput {
    pub review_id: u128,
    pub trigger: RevisionTrigger,
    pub message: Option<String>,
    pub files: Vec<crate::diff::FileDiff>,
}

/// Input for adding a comment to a thread.
pub struct AddCommentInput {
    pub thread_id: u128,
    pub author_type: AuthorType,
    pub body: String,
}

/// Summary of a review for listing.
#[derive(Debug)]
pub struct ReviewSummary {
    pub id: u128,
    pub title: Option<String>,
    pub status: ReviewStatus,
    pub thread_count: usize,
    pub open_thread_count: usize,
    pub file_count: usize,
}





/// The revisions of one review, in table order.
pub open spec fn revs_of(rs: Seq<Revision>, rid: u128) -> Seq<Revision>
    decreases rs.len(),
{
    if rs.len() == 0 {
        Seq::empty()
    } else {
        let p = revs_of(rs.drop_last(), rid);
        if rs.last().review_id == rid {
            p.push(rs.last())
        } else {
            p
        }
    }
}

/// The threads of one review, in table order.
pub open spec fn threads_of(ts: Seq<CommentThread>, rid: u128) -> Seq<CommentThread>
    decreases ts.len(),
{
    if ts.len() == 0 {
        Seq::empty()
    } else {
        let p = threads_of(ts.drop_last(), rid);
        if ts.last().review_id == rid {
            p.push(ts.last())
        } else {
            p
        }
    }
}

/// The review's open threads that are not agent explanations.
pub open spec fn open_threads_of(ts: Seq<CommentThread>, rid: u128) -> Seq<CommentThread>
    decreases ts.len(),
{
    if ts.len() == 0 {
        Seq::empty()
    } else {
        let p = open_threads_of(ts.drop_last(), rid);
        let l = ts.last();
        if l.review_id == rid && l.status is Open && !(l.origin is AgentExplanation) {
            p.push(l)
        } else {
            p
        }
    }
}

/// Revision numbers are exactly 1..len, in order.
pub open spec fn dense(rs: Seq<Revision>) -> bool {
    forall|i: int| 0 <= i < rs.len() ==> (#[trigger] rs[i]).revision_number == i + 1
}

pub open spec fn has_review(s: Seq<Review>, id: u128) -> bool {
    exists|i: int| 0 <= i < s.len() && (#[trigger] s[i]).id == id
}

pub open spec fn review_at(s: Seq<Review>, id: u128) -> int {
    choose|i: int| 0 <= i < s.len() && (#[trigger] s[i]).id == id
}

pub open spec fn review_of(s: Seq<Review>, id: u128) -> Review {
    s[review_at(s, id)]
}

pub open spec fn has_thread(s: Seq<CommentThread>, id: u128) -> bool {
    exists|i: int| 0 <= i < s.len() && (#[trigger] s[i]).id == id
}

pub open spec fn thread_at(s: Seq<CommentThread>, id: u128) -> int {
    choose|i: int| 0 <= i < s.len() && (#[trigger] s[i]).id == id
}

pub open spec fn thread_of(s: Seq<CommentThread>, id: u128) -> CommentThread {
    s[thread_at(s, id)]
}

/// The file count of a review: the files of its latest revision.
pub open spec fn file_count_of(rs: Seq<Revision>, rid: u128) -> int {
    let v = revs_of(rs, rid);
    if v.len() > 0 {
        v.last().files@.len() as int
    } else {
        0
    }
}

/// The derived listing entry of one review.
pub open spec fn spec_summary(ts: Seq<CommentThread>, rs: Seq<Revision>, rv: Review) -> ReviewSummary {
    ReviewSummary {
        id: rv.id,
        title: rv.title,
        status: rv.status,
        thread_count: threads_of(ts, rv.id).len() as usize,
        open_thread_count: open_threads_of(ts, rv.id).len() as usize,
        file_count: file_count_of(rs, rv.id) as usize,
    }
}

/// The review state: three tables keyed by id, and the next fresh id.
pub struct StoreState {
    pub reviews: Vec<Review>,
    pub threads: Vec<CommentThread>,
    pub revisions: Vec<Revision>,
    pub next_id: u128,
}

impl StoreState {
    /// The store's invariant: ids are unique and below the id counter,
    /// each review's revision numbers are exactly 1..N in table order,
    /// every revision belongs to an existing review, every thread has a
    /// comment, and thread line ranges are ordered.
    pub open spec fn wf(&self) -> bool {
        &&& forall|i: int, j: int|
            0 <= i < j < self.reviews@.len() ==> (#[trigger] self.reviews@[i]).id != (
            #[trigger] self.reviews@[j]).id
        &&& forall|i: int, j: int|
            0 <= i < j < self.threads@.len() ==> (#[trigger] self.threads@[i]).id != (
            #[trigger] self.threads@[j]).id
        &&& forall|i: int, j: int|
            0 <= i < j < self.revisions@.len() ==> (#[trigger] self.revisions@[i]).id != (
            #[trigger] self.revisions@[j]).id
        &&& forall|i: int| 0 <= i < self.reviews@.len() ==> (#[trigger] self.reviews@[i]).id < self.next_id
        &&& forall|i: int| 0 <= i < self.threads@.len() ==> (#[trigger] self.threads@[i]).id < self.next_id
        &&& forall|i: int|
            0 <= i < self.revisions@.len() ==> (#[trigger] self.revisions@[i]).id < self.next_id
        &&& forall|rid: u128| dense(#[trigger] revs_of(self.revisions@, rid))
        &&& forall|i: int|
            0 <= i < self.revisions@.len() ==> has_review(
                self.reviews@,
                (#[trigger] self.revisions@[i]).review_id,
            )
        &&& forall|i: int|
            0 <= i < self.threads@.len() ==> (#[trigger] self.threads@[i]).comments@.len() >= 1
        &&& forall|i: int|
            0 <= i < self.threads@.len() ==> (#[trigger] self.threads@[i]).line_start
                <= self.threads@[i].line_end
    }

    /// Start from nothing.
    pub fn new_empty() -> (r: StoreState)
        ensures
            r.wf(),
            r.reviews@.len() == 0,
            r.threads@.len() == 0,
            r.revisions@.len() == 0,
    {
        let r = StoreState { reviews: Vec::new(), threads: Vec::new(), revisions: Vec::new(), next_id: 1 };
        proof {
            assert forall|rid: u128| dense(#[trigger] revs_of(r.revisions@, rid)) by {
                assert(revs_of(r.revisions@, rid) =~= Seq::<Revision>::empty());
            }
        }
        r
    }

    /// Find a review's index by id.
    fn find_review(&self, id: u128) -> (r: Option<usize>)
        requires
            self.wf(),
        ensures
            match r {
                Some(i) => i < self.reviews@.len() && self.reviews@[i as int].id == id
                    && review_at(self.reviews@, id) == i as int && has_review(self.reviews@, id),
                None => !has_review(self.reviews@, id),
            },
    {
        let n = self.reviews.len();
        for i in 0..n
            invariant
                self.wf(),
                n == self.reviews@.len(),
                forall|k: int| 0 <= k < i ==> (#[trigger] self.reviews@[k]).id != id,
        {
            if self.reviews[i].id == id {
                proof {
                    let j = review_at(self.reviews@, id);
                    if j != i as int {
                        assert(self.reviews@[j].id == id);
                        if j < i as int {
                            assert(self.reviews@[j].id != self.reviews@[i as int].id);
                        } else {
                            assert(self.reviews@[i as int].id != self.reviews@[j].id);
                        }
                    }
                }
                return Some(i);
            }
        }
        None
    }

    /// Find a thread's index by id.
    fn find_thread(&self, id: u128) -> (r: Option<usize>)
        requires
            self.wf(),
        ensures
            match r {
                Some(i) => i < self.threads@.len() && self.threads@[i as int].id == id
                    && thread_at(self.threads@, id) == i as int && has_thread(self.threads@, id),
                None => !has_thread(self.threads@, id),
            },
    {
        let n = self.threads.len();
        for i in 0..n
            invariant
                self.wf(),
                n == self.threads@.len(),
                forall|k: int| 0 <= k < i ==> (#[trigger] self.threads@[k]).id != id,
        {
            if self.threads[i].id == id {
                proof {
                    let j = thread_at(self.threads@, id);
                    if j != i as int {
                        assert(self.threads@[j].id == id);
                        if j < i as int {
                            assert(self.threads@[j].id != self.threads@[i as int].id);
                        } else {
                            assert(self.threads@[i as int].id != self.threads@[j].id);
                        }
                    }
                }
                return Some(i);
            }
        }
        None
    }

    /// Whether a review with this id exists.
    pub fn review_exists(&self, id: u128) -> (r: bool)
        requires
            self.wf(),
        ensures
            r == has_review(self.reviews@, id),
    {
        self.find_review(id).is_some()
    }

    /// Look a review up by id.
    pub fn get_review(&self, id: u128) -> (r: Result<Review, StoreError>)
        requires
            self.wf(),
        ensures
            match r {
                Ok(rv) => has_review(self.reviews@, id) && rv == review_of(self.reviews@, id),
                Err(e) => !has_review(self.reviews@, id) && e == StoreError::ReviewNotFound(id),
            },
    {
        match self.find_review(id) {
            Some(i) => Ok(self.reviews[i].clone()),
            None => Err(StoreError::ReviewNotFound(id)),
        }
    }

    /// Create a review: fresh id, status `Open`, both timestamps at `now`.
    pub fn create_review(&mut self, input: CreateReviewInput, now: i64) -> (r: Result<
        Review,
        StoreError,
    >)
        requires
            old(self).wf(),
        ensures
            final(self).wf(),
            match r {
                Ok(rv) => {
                    &&& rv == (Review {
                        id: old(self).next_id,
                        title: input.title,
                        status: ReviewStatus::Open,
                        created_at: now,
                        updated_at: now,
                        repo_path: input.repo_path,
                        base_ref: input.base_ref,
                    })
                    &&& !has_review(old(self).reviews@, rv.id)
                    &&& final(self).reviews@ == old(self).reviews@.push(rv)
                    &&& final(self).threads@ == old(self).threads@
                    &&& final(self).revisions@ == old(self).revisions@
                    &&& final(self).next_id == old(self).next_id + 1
                },
                Err(e) => {
                    &&& e is PersistenceError
                    &&& old(self).next_id == u128::MAX
                    &&& *final(self) == *old(self)
                },
            },
    {
        if self.next_id == u128::MAX {
            return Err(StoreError::PersistenceError(String::from_str("id space exhausted")));
        }
        let rv = Review {
            id: self.next_id,
            title: input.title,
            status: ReviewStatus::Open,
            created_at: now,
            updated_at: now,
            repo_path: input.repo_path,
            base_ref: input.base_ref,
        };
        let out = rv.clone();
        self.reviews.push(rv);
        self.next_id = self.next_id + 1;
        proof {
            if has_review(old(self).reviews@, out.id) {
                let i = review_at(old(self).reviews@, out.id);
                assert(old(self).reviews@[i].id < old(self).next_id);
            }
            assert forall|k: int| 0 <= k < self.revisions@.len() implies has_review(
                self.reviews@,
                (#[trigger] self.revisions@[k]).review_id,
            ) by {
                let rid = self.revisions@[k].review_id;
                assert(has_review(old(self).reviews@, rid));
                let j = review_at(old(self).reviews@, rid);
                assert(self.reviews@[j].id == rid);
            }
        }
        Ok(out)
    }

    /// Set a review's status; `updated_at` advances to `now` when that is
    /// later.
    pub fn update_review_status(&mut self, id: u128, status: ReviewStatus, now: i64) -> (r: Result<
        (),
        StoreError,
    >)
        requires
            old(self).wf(),
        ensures
            final(self).wf(),
            match r {
                Ok(()) => {
                    &&& has_review(old(self).reviews@, id)
                    &&& ({
                        let i = review_at(old(self).reviews@, id);
                        let rv = old(self).reviews@[i];
                        final(self).reviews@ == old(self).reviews@.update(
                            i,
                            Review {
                                status,
                                updated_at: if now > rv.updated_at {
                                    now
                                } else {
                                    rv.updated_at
                                },
                                ..rv
                            },
                        )
                    })
                    &&& final(self).threads@ == old(self).threads@
                    &&& final(self).revisions@ == old(self).revisions@
                    &&& final(self).next_id == old(self).next_id
                },
                Err(e) => {
                    &&& !has_review(old(self).reviews@, id)
                    &&& e == StoreError::ReviewNotFound(id)
                    &&& *final(self) == *old(self)
                },
            },
    {
        let i = match self.find_review(id) {
            Some(i) => i,
            None => {
                return Err(StoreError::ReviewNotFound(id));
            },
        };
        let rv = self.reviews[i].clone();
        let updated_at = if now > rv.updated_at {
            now
        } else {
            rv.updated_at
        };
        let new_rv = Review { status, updated_at, ..rv };
        self.reviews.set(i, new_rv);
        proof {
            assert forall|k: int| 0 <= k < self.revisions@.len() implies has_review(
                self.reviews@,
                (#[trigger] self.revisions@[k]).review_id,
            ) by {
                let rid = self.revisions@[k].review_id;
                assert(has_review(old(self).reviews@, rid));
                let j = review_at(old(self).reviews@, rid);
                assert(self.reviews@[j].id == rid);
            }
        }
        Ok(())
    }
}


/// Element-wise value equality of thread tables.
pub open spec fn threads_like(a: Seq<CommentThread>, b: Seq<CommentThread>) -> bool {
    a.len() == b.len() && forall|i: int| 0 <= i < a.len() ==> thread_eq(#[trigger] a[i], b[i])
}

/// Element-wise value equality of revision tables.
pub open spec fn revisions_like(a: Seq<Revision>, b: Seq<Revision>) -> bool {
    a.len() == b.len() && forall|i: int| 0 <= i < a.len() ==> revision_eq(#[trigger] a[i], b[i])
}

/// The reviews that survive deleting the reviews in `gone`.
pub open spec fn reviews_minus(s: Seq<Review>, gone: Set<u128>) -> Seq<Review>
    decreases s.len(),
{
    if s.len() == 0 {
        Seq::empty()
    } else {
        let p = reviews_minus(s.drop_last(), gone);
        if gone.contains(s.last().id) {
            p
        } else {
            p.push(s.last())
        }
    }
}

/// The threads that survive deleting the reviews in `gone`.
pub open spec fn threads_minus(s: Seq<CommentThread>, gone: Set<u128>) -> Seq<CommentThread>
    decreases s.len(),
{
    if s.len() == 0 {
        Seq::empty()
    } else {
        let p = threads_minus(s.drop_last(), gone);
        if gone.contains(s.last().review_id) {
            p
        } else {
            p.push(s.last())
        }
    }
}

/// The revisions that survive deleting the reviews in `gone`.
pub open spec fn revisions_minus(s: Seq<Revision>, gone: Set<u128>) -> Seq<Revision>
    decreases s.len(),
{
    if s.len() == 0 {
        Seq::empty()
    } else {
        let p = revisions_minus(s.drop_last(), gone);
        if gone.contains(s.last().review_id) {
            p
        } else {
            p.push(s.last())
        }
    }
}

/// Every surviving review is one of the original reviews.
pub proof fn lemma_reviews_minus_subset(s: Seq<Review>, gone: Set<u128>)
    ensures
        forall|k: int|
            0 <= k < reviews_minus(s, gone).len() ==> exists|m: int|
                0 <= m < s.len() && #[trigger] reviews_minus(s, gone)[k] == s[m],
    decreases s.len(),
{
    if s.len() > 0 {
        let dl = s.drop_last();
        lemma_reviews_minus_subset(dl, gone);
        let f = reviews_minus(s, gone);
        assert forall|k: int| 0 <= k < f.len() implies exists|m: int|
            0 <= m < s.len() && #[trigger] f[k] == s[m] by {
            if !gone.contains(s.last().id) && k == f.len() - 1 {
                assert(f[k] == s[s.len() - 1]);
            } else {
                assert(f[k] == reviews_minus(dl, gone)[k]);
                let m = choose|m: int| 0 <= m < dl.len() && reviews_minus(dl, gone)[k] == dl[m];
                assert(f[k] == s[m]);
            }
        }
    }
}

/// Every surviving thread is one of the original threads.
pub proof fn lemma_threads_minus_subset(s: Seq<CommentThread>, gone: Set<u128>)
    ensures
        forall|k: int|
            0 <= k < threads_minus(s, gone).len() ==> exists|m: int|
                0 <= m < s.len() && #[trigger] threads_minus(s, gone)[k] == s[m],
    decreases s.len(),
{
    if s.len() > 0 {
        let dl = s.drop_last();
        lemma_threads_minus_subset(dl, gone);
        let f = threads_minus(s, gone);
        assert forall|k: int| 0 <= k < f.len() implies exists|m: int|
            0 <= m < s.len() && #[trigger] f[k] == s[m] by {
            if !gone.contains(s.last().review_id) && k == f.len() - 1 {
                assert(f[k] == s[s.len() - 1]);
            } else {
                assert(f[k] == threads_minus(dl, gone)[k]);
                let m = choose|m: int| 0 <= m < dl.len() && threads_minus(dl, gone)[k] == dl[m];
                assert(f[k] == s[m]);
            }
        }
    }
}

/// Every surviving revision is one of the original revisions.
pub proof fn lemma_revisions_minus_subset(s: Seq<Revision>, gone: Set<u128>)
    ensures
        forall|k: int|
            0 <= k < revisions_minus(s, gone).len() ==> exists|m: int|
                0 <= m < s.len() && #[trigger] revisions_minus(s, gone)[k] == s[m],
    decreases s.len(),
{
    if s.len() > 0 {
        let dl = s.drop_last();
        lemma_revisions_minus_subset(dl, gone);
        let f = revisions_minus(s, gone);
        assert forall|k: int| 0 <= k < f.len() implies exists|m: int|
            0 <= m < s.len() && #[trigger] f[k] == s[m] by {
            if !gone.contains(s.last().review_id) && k == f.len() - 1 {
                assert(f[k] == s[s.len() - 1]);
            } else {
                assert(f[k] == revisions_minus(dl, gone)[k]);
                let m = choose|m: int| 0 <= m < dl.len() && revisions_minus(dl, gone)[k] == dl[m];
                assert(f[k] == s[m]);
            }
        }
    }
}

/// Deleting reviews keeps the surviving review ids unique.
pub proof fn lemma_reviews_minus_unique(s: Seq<Review>, gone: Set<u128>)
    requires
        forall|i: int, j: int|
            0 <= i < j < s.len() ==> (#[trigger] s[i]).id != (#[trigger] s[j]).id,
    ensures
        forall|i: int, j: int|
            0 <= i < j < reviews_minus(s, gone).len() ==> (#[trigger] reviews_minus(s, gone)[i]).id
                != (#[trigger] reviews_minus(s, gone)[j]).id,
    decreases s.len(),
{
    if s.len() > 0 {
        let dl = s.drop_last();
        lemma_reviews_minus_unique(dl, gone);
        lemma_reviews_minus_subset(dl, gone);
        let f = reviews_minus(s, gone);
        assert forall|i: int, j: int| 0 <= i < j < f.len() implies (#[trigger] f[i]).id != (
        #[trigger] f[j]).id by {
            if !gone.contains(s.last().id) && j == f.len() - 1 {
                assert(f[i] == reviews_minus(dl, gone)[i]);
                let m = choose|m: int| 0 <= m < dl.len() && reviews_minus(dl, gone)[i] == dl[m];
                assert(s[m].id != s[s.len() - 1].id);
            } else {
                assert(f[i] == reviews_minus(dl, gone)[i]);
                assert(f[j] == reviews_minus(dl, gone)[j]);
            }
        }
    }
}

/// Deleting reviews keeps the surviving thread ids unique.
pub proof fn lemma_threads_minus_unique(s: Seq<CommentThread>, gone: Set<u128>)
    requires
        forall|i: int, j: int|
            0 <= i < j < s.len() ==> (#[trigger] s[i]).id != (#[trigger] s[j]).id,
    ensures
        forall|i: int, j: int|
            0 <= i < j < threads_minus(s, gone).len() ==> (#[trigger] threads_minus(s, gone)[i]).id
                != (#[trigger] threads_minus(s, gone)[j]).id,
    decreases s.len(),
{
    if s.len() > 0 {
        let dl = s.drop_last();
        lemma_threads_minus_unique(dl, gone);
        lemma_threads_minus_subset(dl, gone);
        let f = threads_minus(s, gone);
        assert forall|i: int, j: int| 0 <= i < j < f.len() implies (#[trigger] f[i]).id != (
        #[trigger] f[j]).id by {
            if !gone.contains(s.last().review_id) && j == f.len() - 1 {
                assert(f[i] == threads_minus(dl, gone)[i]);
                let m = choose|m: int| 0 <= m < dl.len() && threads_minus(dl, gone)[i] == dl[m];
                assert(s[m].id != s[s.len() - 1].id);
            } else {
                assert(f[i] == threads_minus(dl, gone)[i]);
                assert(f[j] == threads_minus(dl, gone)[j]);
            }
        }
    }
}

/// Deleting reviews keeps the surviving revision ids unique.
pub proof fn lemma_revisions_minus_unique(s: Seq<Revision>, gone: Set<u128>)
    requires
        forall|i: int, j: int|
            0 <= i < j < s.len() ==> (#[trigger] s[i]).id != (#[trigger] s[j]).id,
    ensures
        forall|i: int, j: int|
            0 <= i < j < revisions_minus(s, gone).len() ==> (#[trigger] revisions_minus(
                s,
                gone,
            )[i]).id != (#[trigger] revisions_minus(s, gone)[j]).id,
    decreases s.len(),
{
    if s.len() > 0 {
        let dl = s.drop_last();
        lemma_revisions_minus_unique(dl, gone);
        lemma_revisions_minus_subset(dl, gone);
        let f = revisions_minus(s, gone);
        assert forall|i: int, j: int| 0 <= i < j < f.len() implies (#[trigger] f[i]).id != (
        #[trigger] f[j]).id by {
            if !gone.contains(s.last().review_id) && j == f.len() - 1 {
                assert(f[i] == revisions_minus(dl, gone)[i]);
                let m = choose|m: int| 0 <= m < dl.len() && revisions_minus(dl, gone)[i] == dl[m];
                assert(s[m].id != s[s.len() - 1].id);
            } else {
                assert(f[i] == revisions_minus(dl, gone)[i]);
                assert(f[j] == revisions_minus(dl, gone)[j]);
            }
        }
    }
}

/// A deleted review keeps no revisions; the others keep all of theirs.
pub proof fn lemma_revs_of_minus(s: Seq<Revision>, gone: Set<u128>, rid: u128)
    ensures
        revs_of(revisions_minus(s, gone), rid) == if gone.contains(rid) {
            Seq::<Revision>::empty()
        } else {
            revs_of(s, rid)
        },
    decreases s.len(),
{
    if s.len() > 0 {
        lemma_revs_of_minus(s.drop_last(), gone, rid);
        if !gone.contains(s.last().review_id) {
            assert(revisions_minus(s, gone).drop_last() =~= revisions_minus(s.drop_last(), gone));
        }
    }
}

/// A review id that no revision carries selects no revisions.
pub proof fn lemma_revs_of_absent(rs: Seq<Revision>, rid: u128)
    requires
        forall|j: int| 0 <= j < rs.len() ==> (#[trigger] rs[j]).review_id != rid,
    ensures
        revs_of(rs, rid) == Seq::<Revision>::empty(),
    decreases rs.len(),
{
    if rs.len() > 0 {
        assert(forall|j: int|
            0 <= j < rs.len() - 1 ==> (#[trigger] rs.drop_last()[j]).review_id != rid);
        lemma_revs_of_absent(rs.drop_last(), rid);
    }
}

/// A deleted review keeps no threads; the others keep all of theirs.
pub proof fn lemma_threads_of_minus(s: Seq<CommentThread>, gone: Set<u128>, rid: u128)
    ensures
        threads_of(threads_minus(s, gone), rid) == if gone.contains(rid) {
            Seq::<CommentThread>::empty()
        } else {
            threads_of(s, rid)
        },
    decreases s.len(),
{
    if s.len() > 0 {
        lemma_threads_of_minus(s.drop_last(), gone, rid);
        if !gone.contains(s.last().review_id) {
            assert(threads_minus(s, gone).drop_last() =~= threads_minus(s.drop_last(), gone));
        }
    }
}

/// No surviving review has a deleted id.
pub proof fn lemma_reviews_minus_gone(s: Seq<Review>, gone: Set<u128>, id: u128)
    requires
        gone.contains(id),
    ensures
        !has_review(reviews_minus(s, gone), id),
    decreases s.len(),
{
    if s.len() > 0 {
        lemma_reviews_minus_gone(s.drop_last(), gone, id);
        let f = reviews_minus(s, gone);
        if !gone.contains(s.last().id) {
            assert forall|i: int| 0 <= i < f.len() implies (#[trigger] f[i]).id != id by {
                if i < f.len() - 1 {
                    assert(f[i] == reviews_minus(s.drop_last(), gone)[i]);
                }
            }
        } else {
            assert forall|i: int| 0 <= i < f.len() implies (#[trigger] f[i]).id != id by {
                assert(f[i] == reviews_minus(s.drop_last(), gone)[i]);
            }
        }
    }
}

/// Selecting a review's revisions from element-wise equal tables gives
/// element-wise equal selections.
pub proof fn lemma_revs_of_like(a: Seq<Revision>, b: Seq<Revision>, rid: u128)
    requires
        revisions_like(a, b),
    ensures
        revisions_like(revs_of(a, rid), revs_of(b, rid)),
    decreases a.len(),
{
    if a.len() > 0 {
        assert(revisions_like(a.drop_last(), b.drop_last())) by {
            assert(forall|i: int|
                0 <= i < a.len() - 1 ==> a.drop_last()[i] == a[i] && b.drop_last()[i] == b[i]);
        }
        lemma_revs_of_like(a.drop_last(), b.drop_last(), rid);
        assert(revision_eq(a.last(), b.last()));
    }
}

/// The same for a review's threads.
pub proof fn lemma_threads_of_like(a: Seq<CommentThread>, b: Seq<CommentThread>, rid: u128)
    requires
        threads_like(a, b),
    ensures
        threads_like(threads_of(a, rid), threads_of(b, rid)),
    decreases a.len(),
{
    if a.len() > 0 {
        assert(threads_like(a.drop_last(), b.drop_last())) by {
            assert(forall|i: int|
                0 <= i < a.len() - 1 ==> a.drop_last()[i] == a[i] && b.drop_last()[i] == b[i]);
        }
        lemma_threads_of_like(a.drop_last(), b.drop_last(), rid);
        assert(thread_eq(a.last(), b.last()));
    }
}

/// A review survives the deletion exactly when it existed and its id is
/// not among the deleted ones.
pub proof fn lemma_has_review_minus(s: Seq<Review>, gone: Set<u128>, x: u128)
    ensures
        has_review(reviews_minus(s, gone), x) <==> (has_review(s, x) && !gone.contains(x)),
    decreases s.len(),
{
    if s.len() > 0 {
        let dl = s.drop_last();
        lemma_has_review_minus(dl, gone, x);
        let f = reviews_minus(s, gone);
        if !gone.contains(s.last().id) {
            assert(f.drop_last() =~= reviews_minus(dl, gone));
            if has_review(s, x) && !gone.contains(x) {
                let j = choose|j: int| 0 <= j < s.len() && (#[trigger] s[j]).id == x;
                if j == s.len() - 1 {
                    assert(f.last().id == x);
                } else {
                    assert(dl[j].id == x);
                    assert(has_review(dl, x));
                    let k = choose|k: int|
                        0 <= k < reviews_minus(dl, gone).len() && (#[trigger] reviews_minus(
                            dl,
                            gone,
                        )[k]).id == x;
                    assert(f[k].id == x);
                }
            }
            if has_review(f, x) {
                let k = choose|k: int| 0 <= k < f.len() && (#[trigger] f[k]).id == x;
                if k == f.len() - 1 {
                    assert(s.last().id == x);
                } else {
                    assert(reviews_minus(dl, gone)[k].id == x);
                    assert(has_review(reviews_minus(dl, gone), x));
                    let j = choose|j: int| 0 <= j < dl.len() && (#[trigger] dl[j]).id == x;
                    assert(s[j].id == x);
                }
            }
        } else {
            if has_review(s, x) && !gone.contains(x) {
                let j = choose|j: int| 0 <= j < s.len() && (#[trigger] s[j]).id == x;
                assert(j != s.len() - 1);
                assert(dl[j].id == x);
                assert(has_review(dl, x));
            }
            if has_review(f, x) {
                let j = choose|j: int| 0 <= j < dl.len() && (#[trigger] dl[j]).id == x;
                assert(s[j].id == x);
            }
        }
    }
}

/// Every surviving revision's review is not among the deleted ones.
pub proof fn lemma_revisions_minus_kept(s: Seq<Revision>, gone: Set<u128>)
    ensures
        forall|k: int|
            0 <= k < revisions_minus(s, gone).len() ==> !gone.contains(
                (#[trigger] revisions_minus(s, gone)[k]).review_id,
            ),
    decreases s.len(),
{
    if s.len() > 0 {
        let dl = s.drop_last();
        lemma_revisions_minus_kept(dl, gone);
        let f = revisions_minus(s, gone);
        assert forall|k: int| 0 <= k < f.len() implies !gone.contains(
            (#[trigger] f[k]).review_id,
        ) by {
            if !gone.contains(s.last().review_id) && k == f.len() - 1 {
            } else {
                assert(f[k] == revisions_minus(dl, gone)[k]);
            }
        }
    }
}

/// Deleting the reviews in `gone` preserves the store invariant.
proof fn lemma_minus_wf(o: StoreState, s: StoreState, gone: Set<u128>)
    requires
        o.wf(),
        s.reviews@ == reviews_minus(o.reviews@, gone),
        threads_like(s.threads@, threads_minus(o.threads@, gone)),
        revisions_like(s.revisions@, revisions_minus(o.revisions@, gone)),
        s.next_id == o.next_id,
    ensures
        s.wf(),
{
    lemma_reviews_minus_unique(o.reviews@, gone);
    lemma_threads_minus_unique(o.threads@, gone);
    lemma_revisions_minus_unique(o.revisions@, gone);
    lemma_reviews_minus_subset(o.reviews@, gone);
    lemma_threads_minus_subset(o.threads@, gone);
    lemma_revisions_minus_subset(o.revisions@, gone);
    let ft = threads_minus(o.threads@, gone);
    let fv = revisions_minus(o.revisions@, gone);
    assert forall|i: int, j: int| 0 <= i < j < s.threads@.len() implies (
    #[trigger] s.threads@[i]).id != (#[trigger] s.threads@[j]).id by {
        assert(thread_eq(s.threads@[i], ft[i]));
        assert(thread_eq(s.threads@[j], ft[j]));
    }
    assert forall|i: int, j: int| 0 <= i < j < s.revisions@.len() implies (
    #[trigger] s.revisions@[i]).id != (#[trigger] s.revisions@[j]).id by {
        assert(revision_eq(s.revisions@[i], fv[i]));
        assert(revision_eq(s.revisions@[j], fv[j]));
    }
    assert forall|i: int| 0 <= i < s.reviews@.len() implies (#[trigger] s.reviews@[i]).id
        < s.next_id by {
        let m = choose|m: int| 0 <= m < o.reviews@.len() && s.reviews@[i] == o.reviews@[m];
    }
    assert forall|i: int| 0 <= i < s.threads@.len() implies (#[trigger] s.threads@[i]).id
        < s.next_id && s.threads@[i].comments@.len() >= 1 && s.threads@[i].line_start
        <= s.threads@[i].line_end by {
        assert(thread_eq(s.threads@[i], ft[i]));
        let m = choose|m: int| 0 <= m < o.threads@.len() && ft[i] == o.threads@[m];
    }
    assert forall|i: int| 0 <= i < s.revisions@.len() implies (#[trigger] s.revisions@[i]).id
        < s.next_id by {
        assert(revision_eq(s.revisions@[i], fv[i]));
        let m = choose|m: int| 0 <= m < o.revisions@.len() && fv[i] == o.revisions@[m];
    }
    assert forall|rid: u128| dense(#[trigger] revs_of(s.revisions@, rid)) by {
        lemma_revs_of_like(s.revisions@, fv, rid);
        lemma_revs_of_minus(o.revisions@, gone, rid);
        if gone.contains(rid) {
            assert(revs_of(s.revisions@, rid).len() == 0);
        } else {
            assert(dense(revs_of(o.revisions@, rid)));
            assert forall|i: int| 0 <= i < revs_of(s.revisions@, rid).len() implies (
            #[trigger] revs_of(s.revisions@, rid)[i]).revision_number == i + 1 by {
                assert(revision_eq(revs_of(s.revisions@, rid)[i], revs_of(fv, rid)[i]));
            }
        }
    }
    lemma_revisions_minus_kept(o.revisions@, gone);
    assert forall|i: int| 0 <= i < s.revisions@.len() implies has_review(
        s.reviews@,
        (#[trigger] s.revisions@[i]).review_id,
    ) by {
        assert(revision_eq(s.revisions@[i], fv[i]));
        let rid = s.revisions@[i].review_id;
        assert(!gone.contains(rid));
        let m = choose|m: int| 0 <= m < o.revisions@.len() && fv[i] == o.revisions@[m];
        assert(has_review(o.reviews@, rid));
        lemma_has_review_minus(o.reviews@, gone, rid);
    }
}

/// Deleting a review leaves nothing of it behind: the review is gone and
/// it keeps no threads and no revisions.
pub proof fn lemma_deleted_review_unreachable(
    reviews: Seq<Review>,
    threads: Seq<CommentThread>,
    revisions: Seq<Revision>,
    id: u128,
)
    ensures
        !has_review(reviews_minus(reviews, Set::empty().insert(id)), id),
        threads_of(threads_minus(threads, Set::empty().insert(id)), id) == Seq::<
            CommentThread,
        >::empty(),
        revs_of(revisions_minus(revisions, Set::empty().insert(id)), id) == Seq::<
            Revision,
        >::empty(),
{
    let gone = Set::empty().insert(id);
    lemma_reviews_minus_gone(reviews, gone, id);
    lemma_threads_of_minus(threads, gone, id);
    lemma_revs_of_minus(revisions, gone, id);
}

impl StoreState {
    /// Delete a review and, with it, all its threads and revisions.
    pub fn delete_review(&mut self, id: u128) -> (r: Result<(), StoreError>)
        requires
            old(self).wf(),
        ensures
            final(self).wf(),
            match r {
                Ok(()) => {
                    &&& has_review(old(self).reviews@, id)
                    &&& final(self).reviews@ == reviews_minus(
                        old(self).reviews@,
                        Set::empty().insert(id),
                    )
                    &&& threads_like(
                        final(self).threads@,
                        threads_minus(old(self).threads@, Set::empty().insert(id)),
                    )
                    &&& revisions_like(
                        final(self).revisions@,
                        revisions_minus(old(self).revisions@, Set::empty().insert(id)),
                    )
                    &&& !has_review(final(self).reviews@, id)
                    &&& threads_of(final(self).threads@, id) == Seq::<CommentThread>::empty()
                    &&& revs_of(final(self).revisions@, id) == Seq::<Revision>::empty()
                    &&& final(self).next_id == old(self).next_id
                },
                Err(e) => {
                    &&& !has_review(old(self).reviews@, id)
                    &&& e == StoreError::ReviewNotFound(id)
                    &&& *final(self) == *old(self)
                },
            },
    {
        if self.find_review(id).is_none() {
            return Err(StoreError::ReviewNotFound(id));
        }
        let ghost gone = Set::empty().insert(id);
        let mut kept_reviews: Vec<Review> = Vec::new();
        let n = self.reviews.len();
        for j in 0..n
            invariant
                n == self.reviews@.len(),
                kept_reviews@ == reviews_minus(self.reviews@.take(j as int), gone),
                gone == Set::empty().insert(id),
        {
            proof {
                assert(self.reviews@.take(j + 1).drop_last() =~= self.reviews@.take(j as int));
                assert(self.reviews@.take(j + 1).last() == self.reviews@[j as int]);
            }
            if self.reviews[j].id != id {
                kept_reviews.push(self.reviews[j].clone());
            }
        }
        let mut kept_threads: Vec<CommentThread> = Vec::new();
        let n = self.threads.len();
        for j in 0..n
            invariant
                n == self.threads@.len(),
                threads_like(kept_threads@, threads_minus(self.threads@.take(j as int), gone)),
                gone == Set::empty().insert(id),
        {
            proof {
                assert(self.threads@.take(j + 1).drop_last() =~= self.threads@.take(j as int));
                assert(self.threads@.take(j + 1).last() == self.threads@[j as int]);
            }
            if self.threads[j].review_id != id {
                kept_threads.push(self.threads[j].clone());
            }
        }
        let mut kept_revisions: Vec<Revision> = Vec::new();
        let n = self.revisions.len();
        for j in 0..n
            invariant
                n == self.revisions@.len(),
                revisions_like(
                    kept_revisions@,
                    revisions_minus(self.revisions@.take(j as int), gone),
                ),
                gone == Set::empty().insert(id),
        {
            proof {
                assert(self.revisions@.take(j + 1).drop_last() =~= self.revisions@.take(j as int));
                assert(self.revisions@.take(j + 1).last() == self.revisions@[j as int]);
            }
            if self.revisions[j].review_id != id {
                kept_revisions.push(self.revisions[j].clone());
            }
        }
        proof {
            assert(self.reviews@.take(self.reviews@.len() as int) =~= self.reviews@);
            assert(self.threads@.take(self.threads@.len() as int) =~= self.threads@);
            assert(self.revisions@.take(self.revisions@.len() as int) =~= self.revisions@);
        }
        let ghost oldst = *self;
        self.reviews = kept_reviews;
        self.threads = kept_threads;
        self.revisions = kept_revisions;
        proof {
            lemma_minus_wf(oldst, *self, gone);
            lemma_reviews_minus_gone(oldst.reviews@, gone, id);
            lemma_threads_of_minus(oldst.threads@, gone, id);
            lemma_revs_of_minus(oldst.revisions@, gone, id);
            lemma_threads_of_like(self.threads@, threads_minus(oldst.threads@, gone), id);
            lemma_revs_of_like(self.revisions@, revisions_minus(oldst.revisions@, gone), id);
            assert(threads_of(self.threads@, id) =~= Seq::<CommentThread>::empty());
            assert(revs_of(self.revisions@, id) =~= Seq::<Revision>::empty());
        }
        Ok(())
    }
}


/// The threads a listing selects: those of the review, optionally only
/// the ones on a given file.
pub open spec fn threads_sel(ts: Seq<CommentThread>, rid: u128, f: Option<Seq<char>>) -> Seq<
    CommentThread,
>
    decreases ts.len(),
{
    if ts.len() == 0 {
        Seq::empty()
    } else {
        let p = threads_sel(ts.drop_last(), rid, f);
        let l = ts.last();
        if l.review_id == rid && (match f {
            Some(ff) => l.file_path@ == ff,
            None => true,
        }) {
            p.push(l)
        } else {
            p
        }
    }
}

/// The ids of the closed reviews.
pub open spec fn is_closed_id(reviews: Seq<Review>, x: u128) -> bool {
    exists|i: int|
        0 <= i < reviews.len() && (#[trigger] reviews[i]).id == x && reviews[i].status is Closed
}

pub open spec fn closed_review_ids(reviews: Seq<Review>) -> Set<u128> {
    Set::new(|x: u128| is_closed_id(reviews, x))
}

/// The ids of the closed reviews, in table order.
pub open spec fn closed_ids_list(reviews: Seq<Review>) -> Seq<u128>
    decreases reviews.len(),
{
    if reviews.len() == 0 {
        Seq::empty()
    } else {
        let p = closed_ids_list(reviews.drop_last());
        if reviews.last().status is Closed {
            p.push(reviews.last().id)
        } else {
            p
        }
    }
}

impl StoreState {
    /// Delete every closed review with its threads and revisions,
    /// returning the deleted ids in table order.
    pub fn delete_closed_reviews(&mut self) -> (r: Vec<u128>)
        requires
            old(self).wf(),
        ensures
            final(self).wf(),
            r@ == closed_ids_list(old(self).reviews@),
            final(self).reviews@ == reviews_minus(
                old(self).reviews@,
                closed_review_ids(old(self).reviews@),
            ),
            threads_like(
                final(self).threads@,
                threads_minus(old(self).threads@, closed_review_ids(old(self).reviews@)),
            ),
            revisions_like(
                final(self).revisions@,
                revisions_minus(old(self).revisions@, closed_review_ids(old(self).reviews@)),
            ),
            final(self).next_id == old(self).next_id,
    {
        let ghost gone = closed_review_ids(self.reviews@);
        let mut ids: Vec<u128> = Vec::new();
        let mut kept_reviews: Vec<Review> = Vec::new();
        let n = self.reviews.len();
        for j in 0..n
            invariant
                self.wf(),
                n == self.reviews@.len(),
                gone == closed_review_ids(self.reviews@),
                ids@ == closed_ids_list(self.reviews@.take(j as int)),
                kept_reviews@ == reviews_minus(self.reviews@.take(j as int), gone),
        {
            proof {
                assert(self.reviews@.take(j + 1).drop_last() =~= self.reviews@.take(j as int));
                assert(self.reviews@.take(j + 1).last() == self.reviews@[j as int]);
                let rv = self.reviews@[j as int];
                if rv.status is Closed {
                    assert(is_closed_id(self.reviews@, rv.id));
                } else {
                    if is_closed_id(self.reviews@, rv.id) {
                        let i = choose|i: int|
                            0 <= i < self.reviews@.len() && (#[trigger] self.reviews@[i]).id
                                == rv.id && self.reviews@[i].status is Closed;
                        if i < j as int {
                            assert(self.reviews@[i].id != self.reviews@[j as int].id);
                        } else if i > j as int {
                            assert(self.reviews@[j as int].id != self.reviews@[i].id);
                        }
                    }
                }
                assert(gone.contains(rv.id) == (rv.status is Closed));
            }
            let closed = match self.reviews[j].status {
                ReviewStatus::Closed => true,
                _ => false,
            };
            if closed {
                ids.push(self.reviews[j].id);
            } else {
                kept_reviews.push(self.reviews[j].clone());
            }
        }
        let mut kept_threads: Vec<CommentThread> = Vec::new();
        let n = self.threads.len();
        for j in 0..n
            invariant
                self.wf(),
                n == self.threads@.len(),
                gone == closed_review_ids(self.reviews@),
                threads_like(kept_threads@, threads_minus(self.threads@.take(j as int), gone)),
        {
            proof {
                assert(self.threads@.take(j + 1).drop_last() =~= self.threads@.take(j as int));
                assert(self.threads@.take(j + 1).last() == self.threads@[j as int]);
            }
            let trid = self.threads[j].review_id;
            let closed = match self.find_review(trid) {
                Some(i) => match self.reviews[i].status {
                    ReviewStatus::Closed => true,
                    _ => false,
                },
                None => false,
            };
            proof {
                if closed {
                    assert(is_closed_id(self.reviews@, trid));
                } else {
                    if is_closed_id(self.reviews@, trid) {
                        let i = choose|i: int|
                            0 <= i < self.reviews@.len() && (#[trigger] self.reviews@[i]).id == trid
                                && self.reviews@[i].status is Closed;
                        assert(has_review(self.reviews@, trid));
                        let k = review_at(self.reviews@, trid);
                        if i < k {
                            assert(self.reviews@[i].id != self.reviews@[k].id);
                        } else if i > k {
                            assert(self.reviews@[k].id != self.reviews@[i].id);
                        }
                    }
                }
                assert(gone.contains(trid) == closed);
            }
            if !closed {
                kept_threads.push(self.threads[j].clone());
            }
        }
        let mut kept_revisions: Vec<Revision> = Vec::new();
        let n = self.revisions.len();
        for j in 0..n
            invariant
                self.wf(),
                n == self.revisions@.len(),
                gone == closed_review_ids(self.reviews@),
                revisions_like(
                    kept_revisions@,
                    revisions_minus(self.revisions@.take(j as int), gone),
                ),
        {
            proof {
                assert(self.revisions@.take(j + 1).drop_last() =~= self.revisions@.take(j as int));
                assert(self.revisions@.take(j + 1).last() == self.revisions@[j as int]);
            }
            let rrid = self.revisions[j].review_id;
            let closed = match self.find_review(rrid) {
                Some(i) => match self.reviews[i].status {
                    ReviewStatus::Closed => true,
                    _ => false,
                },
                None => false,
            };
            proof {
                if closed {
                    assert(is_closed_id(self.reviews@, rrid));
                } else {
                    if is_closed_id(self.reviews@, rrid) {
                        let i = choose|i: int|
                            0 <= i < self.reviews@.len() && (#[trigger] self.reviews@[i]).id == rrid
                                && self.reviews@[i].status is Closed;
                        assert(has_review(self.reviews@, rrid));
                        let k = review_at(self.reviews@, rrid);
                        if i < k {
                            assert(self.reviews@[i].id != self.reviews@[k].id);
                        } else if i > k {
                            assert(self.reviews@[k].id != self.reviews@[i].id);
                        }
                    }
                }
                assert(gone.contains(rrid) == closed);
            }
            if !closed {
                kept_revisions.push(self.revisions[j].clone());
            }
        }
        proof {
            assert(self.reviews@.take(self.reviews@.len() as int) =~= self.reviews@);
            assert(self.threads@.take(self.threads@.len() as int) =~= self.threads@);
            assert(self.revisions@.take(self.revisions@.len() as int) =~= self.revisions@);
        }
        let ghost oldst = *self;
        self.reviews = kept_reviews;
        self.threads = kept_threads;
        self.revisions = kept_revisions;
        proof {
            lemma_minus_wf(oldst, *self, gone);
        }
        ids
    }

    /// Create a thread on an existing review, carrying its first comment.
    pub fn create_thread(&mut self, input: CreateThreadInput, now: i64) -> (r: Result<
        CommentThread,
        StoreError,
    >)
        requires
            old(self).wf(),
            input.line_start <= input.line_end,
        ensures
            final(self).wf(),
            match r {
                Ok(t) => {
                    &&& has_review(old(self).reviews@, input.review_id)
                    &&& final(self).threads@.len() == old(self).threads@.len() + 1
                    &&& forall|j: int|
                        0 <= j < old(self).threads@.len() ==> final(self).threads@[j] == old(
                            self,
                        ).threads@[j]
                    &&& ({
                        let nt = final(self).threads@.last();
                        &&& thread_eq(t, nt)
                        &&& nt.review_id == input.review_id
                        &&& nt.file_path == input.file_path
                        &&& nt.line_start == input.line_start
                        &&& nt.line_end == input.line_end
                        &&& nt.origin == input.origin
                        &&& nt.status is Open
                        &&& nt.created_at == now
                        &&& nt.updated_at == now
                        &&& nt.revision_number == input.revision_number
                        &&& nt.comments@.len() == 1
                        &&& nt.comments@[0].body == input.initial_comment_body
                        &&& nt.comments@[0].author_type == input.initial_comment_author
                        &&& nt.comments@[0].created_at == now
                        &&& opt_snippet_eq(nt.content_snippet, input.content_snippet)
                        &&& !has_thread(old(self).threads@, nt.id)
                    })
                    &&& final(self).reviews@ == old(self).reviews@
                    &&& final(self).revisions@ == old(self).revisions@
                    &&& final(self).next_id == old(self).next_id + 2
                },
                Err(e) => {
                    &&& (e is ReviewNotFound <==> !has_review(old(self).reviews@, input.review_id))
                    &&& (e is ReviewNotFound ==> e == StoreError::ReviewNotFound(input.review_id))
                    &&& (e is PersistenceError <==> has_review(old(self).reviews@, input.review_id)
                        && old(self).next_id >= u128::MAX - 1)
                    &&& (e is ReviewNotFound || e is PersistenceError)
                    &&& *final(self) == *old(self)
                },
            },
    {
        if self.find_review(input.review_id).is_none() {
            return Err(StoreError::ReviewNotFound(input.review_id));
        }
        if self.next_id >= u128::MAX - 1 {
            return Err(StoreError::PersistenceError(String::from_str("id space exhausted")));
        }
        let comment = Comment {
            id: self.next_id,
            author_type: input.initial_comment_author,
            body: input.initial_comment_body,
            created_at: now,
        };
        let mut comments: Vec<Comment> = Vec::new();
        comments.push(comment);
        let thread = CommentThread {
            id: self.next_id + 1,
            review_id: input.review_id,
            file_path: input.file_path,
            line_start: input.line_start,
            line_end: input.line_end,
            origin: input.origin,
            status: ThreadStatus::Open,
            comments,
            created_at: now,
            updated_at: now,
            revision_number: input.revision_number,
            content_snippet: input.content_snippet,
        };
        let out = thread.clone();
        proof {
            if has_thread(self.threads@, thread.id) {
                let i = thread_at(self.threads@, thread.id);
                assert(self.threads@[i].id < self.next_id);
            }
        }
        self.threads.push(thread);
        self.next_id = self.next_id + 2;
        Ok(out)
    }

    /// Look a thread up by id.
    pub fn get_thread(&self, id: u128) -> (r: Result<CommentThread, StoreError>)
        requires
            self.wf(),
        ensures
            match r {
                Ok(t) => has_thread(self.threads@, id) && thread_eq(t, thread_of(self.threads@, id)),
                Err(e) => !has_thread(self.threads@, id) && e == StoreError::ThreadNotFound(id),
            },
    {
        match self.find_thread(id) {
            Some(i) => Ok(self.threads[i].clone()),
            None => Err(StoreError::ThreadNotFound(id)),
        }
    }

    /// The threads of a review, optionally only those on one file.
    pub fn get_threads(&self, review_id: u128, file_path: Option<&str>) -> (r: Result<
        Vec<CommentThread>,
        StoreError,
    >)
        requires
            self.wf(),
        ensures
            ({
                let f = match file_path {
                    Some(s) => Some(s@),
                    None => None,
                };
                match r {
                    Ok(v) => has_review(self.reviews@, review_id) && threads_like(
                        v@,
                        threads_sel(self.threads@, review_id, f),
                    ),
                    Err(e) => !has_review(self.reviews@, review_id) && e
                        == StoreError::ReviewNotFound(review_id),
                }
            }),
    {
        if self.find_review(review_id).is_none() {
            return Err(StoreError::ReviewNotFound(review_id));
        }
        let ghost f = match file_path {
            Some(s) => Some(s@),
            None => None,
        };
        let fowned: Option<String> = match file_path {
            Some(s) => Some(s.to_owned()),
            None => None,
        };
        let mut v: Vec<CommentThread> = Vec::new();
        let n = self.threads.len();
        for j in 0..n
            invariant
                n == self.threads@.len(),
                (match fowned {
                    Some(ref s) => f == Some(s@),
                    None => f is None,
                }),
                threads_like(v@, threads_sel(self.threads@.take(j as int), review_id, f)),
        {
            proof {
                assert(self.threads@.take(j + 1).drop_last() =~= self.threads@.take(j as int));
                assert(self.threads@.take(j + 1).last() == self.threads@[j as int]);
            }
            let keep = self.threads[j].review_id == review_id && (match &fowned {
                Some(s) => self.threads[j].file_path == *s,
                None => true,
            });
            if keep {
                v.push(self.threads[j].clone());
            }
        }
        proof {
            assert(self.threads@.take(self.threads@.len() as int) =~= self.threads@);
        }
        Ok(v)
    }

    /// Set a thread's status; `updated_at` advances to `now` when later.
    pub fn update_thread_status(&mut self, thread_id: u128, status: ThreadStatus, now: i64) -> (r:
        Result<(), StoreError>)
        requires
            old(self).wf(),
        ensures
            final(self).wf(),
            match r {
                Ok(()) => {
                    &&& has_thread(old(self).threads@, thread_id)
                    &&& ({
                        let i = thread_at(old(self).threads@, thread_id);
                        let ot = old(self).threads@[i];
                        let nt = final(self).threads@[i];
                        &&& final(self).threads@.len() == old(self).threads@.len()
                        &&& forall|j: int|
                            0 <= j < old(self).threads@.len() && j != i ==> final(self).threads@[j]
                                == old(self).threads@[j]
                        &&& nt.id == ot.id
                        &&& nt.review_id == ot.review_id
                        &&& nt.file_path == ot.file_path
                        &&& nt.line_start == ot.line_start
                        &&& nt.line_end == ot.line_end
                        &&& nt.origin == ot.origin
                        &&& nt.status == status
                        &&& nt.comments@ == ot.comments@
                        &&& nt.created_at == ot.created_at
                        &&& nt.updated_at == (if now > ot.updated_at {
                            now
                        } else {
                            ot.updated_at
                        })
                        &&& nt.revision_number == ot.revision_number
                        &&& opt_snippet_eq(nt.content_snippet, ot.content_snippet)
                    })
                    &&& final(self).reviews@ == old(self).reviews@
                    &&& final(self).revisions@ == old(self).revisions@
                    &&& final(self).next_id == old(self).next_id
                },
                Err(e) => {
                    &&& !has_thread(old(self).threads@, thread_id)
                    &&& e == StoreError::ThreadNotFound(thread_id)
                    &&& *final(self) == *old(self)
                },
            },
    {
        let i = match self.find_thread(thread_id) {
            Some(i) => i,
            None => {
                return Err(StoreError::ThreadNotFound(thread_id));
            },
        };
        let mut t2 = self.threads[i].clone();
        t2.status = status;
        if now > t2.updated_at {
            t2.updated_at = now;
        }
        let ghost ot = self.threads@[i as int];
        self.threads.set(i, t2);
        proof {
            assert forall|a: int, b: int| 0 <= a < b < self.threads@.len() implies (
            #[trigger] self.threads@[a]).id != (#[trigger] self.threads@[b]).id by {
                assert(old(self).threads@[a].id != old(self).threads@[b].id);
            }
        }
        Ok(())
    }

    /// Append a comment to a thread; the thread's `updated_at` advances
    /// to `now` when later.
    pub fn add_comment(&mut self, input: AddCommentInput, now: i64) -> (r: Result<
        Comment,
        StoreError,
    >)
        requires
            old(self).wf(),
        ensures
            final(self).wf(),
            match r {
                Ok(c) => {
                    &&& has_thread(old(self).threads@, input.thread_id)
                    &&& ({
                        let i = thread_at(old(self).threads@, input.thread_id);
                        let ot = old(self).threads@[i];
                        let nt = final(self).threads@[i];
                        &&& c == (Comment {
                            id: old(self).next_id,
                            author_type: input.author_type,
                            body: input.body,
                            created_at: if now >= ot.created_at {
                                now
                            } else {
                                ot.created_at
                            },
                        })
                        &&& c.created_at >= ot.created_at
                        &&& final(self).threads@.len() == old(self).threads@.len()
                        &&& forall|j: int|
                            0 <= j < old(self).threads@.len() && j != i ==> final(self).threads@[j]
                                == old(self).threads@[j]
                        &&& nt.id == ot.id
                        &&& nt.review_id == ot.review_id
                        &&& nt.file_path == ot.file_path
                        &&& nt.line_start == ot.line_start
                        &&& nt.line_end == ot.line_end
                        &&& nt.origin == ot.origin
                        &&& nt.status == ot.status
                        &&& nt.comments@ == ot.comments@.push(c)
                        &&& nt.created_at == ot.created_at
                        &&& nt.updated_at == (if now > ot.updated_at {
                            now
                        } else {
                            ot.updated_at
                        })
                        &&& nt.revision_number == ot.revision_number
                        &&& opt_snippet_eq(nt.content_snippet, ot.content_snippet)
                    })
                    &&& final(self).reviews@ == old(self).reviews@
                    &&& final(self).revisions@ == old(self).revisions@
                    &&& final(self).next_id == old(self).next_id + 1
                },
                Err(e) => {
                    &&& (e is ThreadNotFound <==> !has_thread(old(self).threads@, input.thread_id))
                    &&& (e is ThreadNotFound ==> e == StoreError::ThreadNotFound(input.thread_id))
                    &&& (e is PersistenceError <==> has_thread(old(self).threads@, input.thread_id)
                        && old(self).next_id == u128::MAX)
                    &&& (e is ThreadNotFound || e is PersistenceError)
                    &&& *final(self) == *old(self)
                },
            },
    {
        let i = match self.find_thread(input.thread_id) {
            Some(i) => i,
            None => {
                return Err(StoreError::ThreadNotFound(input.thread_id));
            },
        };
        if self.next_id == u128::MAX {
            return Err(StoreError::PersistenceError(String::from_str("id space exhausted")));
        }
        let t_created = self.threads[i].created_at;
        let c = Comment {
            id: self.next_id,
            author_type: input.author_type,
            body: input.body,
            created_at: if now >= t_created {
                now
            } else {
                t_created
            },
        };
        let out = c.clone();
        let mut t2 = self.threads[i].clone();
        t2.comments.push(c);
        if now > t2.updated_at {
            t2.updated_at = now;
        }
        self.threads.set(i, t2);
        self.next_id = self.next_id + 1;
        proof {
            assert forall|a: int, b: int| 0 <= a < b < self.threads@.len() implies (
            #[trigger] self.threads@[a]).id != (#[trigger] self.threads@[b]).id by {
                assert(old(self).threads@[a].id != old(self).threads@[b].id);
            }
        }
        Ok(out)
    }

    /// The revisions of a review, cloned, in revision-number order.
    fn collect_revisions(&self, rid: u128) -> (v: Vec<Revision>)
        requires
            self.wf(),
        ensures
            revisions_like(v@, revs_of(self.revisions@, rid)),
            forall|i: int| 0 <= i < v@.len() ==> (#[trigger] v@[i]).revision_number == i + 1,
    {
        let mut v: Vec<Revision> = Vec::new();
        let n = self.revisions.len();
        for j in 0..n
            invariant
                self.wf(),
                n == self.revisions@.len(),
                revisions_like(v@, revs_of(self.revisions@.take(j as int), rid)),
        {
            proof {
                assert(self.revisions@.take(j + 1).drop_last() =~= self.revisions@.take(j as int));
                assert(self.revisions@.take(j + 1).last() == self.revisions@[j as int]);
            }
            if self.revisions[j].review_id == rid {
                v.push(self.revisions[j].clone());
            }
        }
        proof {
            assert(self.revisions@.take(self.revisions@.len() as int) =~= self.revisions@);
            assert(dense(revs_of(self.revisions@, rid)));
            assert forall|i: int| 0 <= i < v@.len() implies (#[trigger] v@[i]).revision_number == i
                + 1 by {
                assert(revision_eq(v@[i], revs_of(self.revisions@, rid)[i]));
            }
        }
        v
    }

    /// All revisions of a review, in ascending revision-number order:
    /// their numbers are exactly 1..len.
    pub fn get_revisions(&self, review_id: u128) -> (r: Result<Vec<Revision>, StoreError>)
        requires
            self.wf(),
        ensures
            match r {
                Ok(v) => {
                    &&& has_review(self.reviews@, review_id)
                    &&& revisions_like(v@, revs_of(self.revisions@, review_id))
                    &&& forall|i: int|
                        0 <= i < v@.len() ==> (#[trigger] v@[i]).revision_number == i + 1
                },
                Err(e) => !has_review(self.reviews@, review_id) && e == StoreError::ReviewNotFound(
                    review_id,
                ),
            },
    {
        if self.find_review(review_id).is_none() {
            return Err(StoreError::ReviewNotFound(review_id));
        }
        Ok(self.collect_revisions(review_id))
    }

    /// The revision of a review with the given number.
    pub fn get_revision(&self, review_id: u128, revision_number: u32) -> (r: Result<
        Revision,
        StoreError,
    >)
        requires
            self.wf(),
        ensures
            match r {
                Ok(rv) => {
                    &&& has_review(self.reviews@, review_id)
                    &&& 1 <= revision_number <= revs_of(self.revisions@, review_id).len()
                    &&& revision_eq(rv, revs_of(self.revisions@, review_id)[revision_number - 1])
                },
                Err(e) => {
                    &&& (e is ReviewNotFound <==> !has_review(self.reviews@, review_id))
                    &&& (e is RevisionNotFound <==> has_review(self.reviews@, review_id) && !(1
                        <= revision_number <= revs_of(self.revisions@, review_id).len()))
                    &&& (e is ReviewNotFound ==> e == StoreError::ReviewNotFound(review_id))
                    &&& (e is RevisionNotFound ==> e == StoreError::RevisionNotFound(review_id))
                    &&& (e is ReviewNotFound || e is RevisionNotFound)
                },
            },
    {
        if self.find_review(review_id).is_none() {
            return Err(StoreError::ReviewNotFound(review_id));
        }
        let v = self.collect_revisions(review_id);
        if revision_number >= 1 && (revision_number as usize) <= v.len() {
            let rv = v[(revision_number - 1) as usize].clone();
            proof {
                assert(revision_eq(
                    v@[revision_number - 1],
                    revs_of(self.revisions@, review_id)[revision_number - 1],
                ));
            }
            Ok(rv)
        } else {
            Err(StoreError::RevisionNotFound(review_id))
        }
    }

    /// The newest revision of a review.
    pub fn get_latest_revision(&self, review_id: u128) -> (r: Result<Revision, StoreError>)
        requires
            self.wf(),
        ensures
            match r {
                Ok(rv) => {
                    &&& has_review(self.reviews@, review_id)
                    &&& revs_of(self.revisions@, review_id).len() > 0
                    &&& revision_eq(rv, revs_of(self.revisions@, review_id).last())
                    &&& rv.revision_number == revs_of(self.revisions@, review_id).len()
                },
                Err(e) => {
                    &&& (e is ReviewNotFound <==> !has_review(self.reviews@, review_id))
                    &&& (e is RevisionNotFound <==> has_review(self.reviews@, review_id)
                        && revs_of(self.revisions@, review_id).len() == 0)
                    &&& (e is ReviewNotFound ==> e == StoreError::ReviewNotFound(review_id))
                    &&& (e is RevisionNotFound ==> e == StoreError::RevisionNotFound(review_id))
                    &&& (e is ReviewNotFound || e is RevisionNotFound)
                },
            },
    {
        if self.find_review(review_id).is_none() {
            return Err(StoreError::ReviewNotFound(review_id));
        }
        let v = self.collect_revisions(review_id);
        if v.len() > 0 {
            let rv = v[v.len() - 1].clone();
            proof {
                assert(revision_eq(
                    v@[v@.len() - 1],
                    revs_of(self.revisions@, review_id)[v@.len() - 1],
                ));
            }
            Ok(rv)
        } else {
            Err(StoreError::RevisionNotFound(review_id))
        }
    }

    /// Append a revision to a review; its number continues the review's
    /// dense 1..N numbering.
    pub fn create_revision(&mut self, input: CreateRevisionInput, now: i64) -> (r: Result<
        Revision,
        StoreError,
    >)
        requires
            old(self).wf(),
        ensures
            final(self).wf(),
            match r {
                Ok(rv) => {
                    &&& has_review(old(self).reviews@, input.review_id)
                    &&& rv.review_id == input.review_id
                    &&& rv.revision_number == revs_of(old(self).revisions@, input.review_id).len()
                        + 1
                    &&& rv.trigger == input.trigger
                    &&& rv.message == input.message
                    &&& rv.files == input.files
                    &&& rv.created_at == now
                    &&& final(self).revisions@.len() == old(self).revisions@.len() + 1
                    &&& forall|j: int|
                        0 <= j < old(self).revisions@.len() ==> final(self).revisions@[j] == old(
                            self,
                        ).revisions@[j]
                    &&& revision_eq(final(self).revisions@.last(), rv)
                    &&& final(self).reviews@ == old(self).reviews@
                    &&& final(self).threads@ == old(self).threads@
                    &&& final(self).next_id == old(self).next_id + 1
                },
                Err(e) => {
                    &&& (e is ReviewNotFound <==> !has_review(old(self).reviews@, input.review_id))
                    &&& (e is ReviewNotFound ==> e == StoreError::ReviewNotFound(input.review_id))
                    &&& (e is PersistenceError <==> has_review(old(self).reviews@, input.review_id)
                        && (old(self).next_id == u128::MAX || revs_of(
                        old(self).revisions@,
                        input.review_id,
                    ).len() >= u32::MAX))
                    &&& (e is ReviewNotFound || e is PersistenceError)
                    &&& *final(self) == *old(self)
                },
            },
    {
        if self.find_review(input.review_id).is_none() {
            return Err(StoreError::ReviewNotFound(input.review_id));
        }
        if self.next_id == u128::MAX {
            return Err(StoreError::PersistenceError(String::from_str("id space exhausted")));
        }
        // count this review's revisions: with dense numbering the count is
        // the latest number
        let mut cnt: usize = 0;
        let n = self.revisions.len();
        for j in 0..n
            invariant
                self.wf(),
                n == self.revisions@.len(),
                cnt <= j,
                cnt == revs_of(self.revisions@.take(j as int), input.review_id).len(),
        {
            proof {
                assert(self.revisions@.take(j + 1).drop_last() =~= self.revisions@.take(j as int));
                assert(self.revisions@.take(j + 1).last() == self.revisions@[j as int]);
            }
            if self.revisions[j].review_id == input.review_id {
                cnt += 1;
            }
        }
        proof {
            assert(self.revisions@.take(self.revisions@.len() as int) =~= self.revisions@);
        }
        if cnt >= (u32::MAX as usize) {
            return Err(
                StoreError::PersistenceError(String::from_str("revision number out of range")),
            );
        }
        let rv = Revision {
            id: self.next_id,
            review_id: input.review_id,
            revision_number: (cnt as u32) + 1,
            trigger: input.trigger,
            message: input.message,
            files: input.files,
            created_at: now,
        };
        let cloned = rv.clone();
        let ghost oldrevs = self.revisions@;
        self.revisions.push(cloned);
        self.next_id = self.next_id + 1;
        proof {
            assert forall|rid2: u128| dense(#[trigger] revs_of(self.revisions@, rid2)) by {
                assert(self.revisions@.drop_last() =~= oldrevs);
                assert(dense(revs_of(oldrevs, rid2)));
                if rid2 == input.review_id {
                    assert(self.revisions@.last().revision_number == cnt + 1);
                    assert(revs_of(self.revisions@, rid2) == revs_of(oldrevs, rid2).push(
                        self.revisions@.last(),
                    ));
                }
            }
            assert forall|a: int, b: int| 0 <= a < b < self.revisions@.len() implies (
            #[trigger] self.revisions@[a]).id != (#[trigger] self.revisions@[b]).id by {
                if b < self.revisions@.len() - 1 {
                    assert(old(self).revisions@[a].id != old(self).revisions@[b].id);
                } else {
                    assert(old(self).revisions@[a].id < old(self).next_id);
                }
            }
        }
        proof {
            assert(revision_eq(self.revisions@.last(), rv));
        }
        Ok(rv)
    }

    /// Summaries of all reviews with their derived counts, in table order.
    pub fn list_reviews(&self) -> (r: Vec<ReviewSummary>)
        requires
            self.wf(),
        ensures
            r@.len() == self.reviews@.len(),
            forall|i: int|
                0 <= i < r@.len() ==> r@[i] == spec_summary(
                    self.threads@,
                    self.revisions@,
                    #[trigger] self.reviews@[i],
                ),
    {
        let mut r: Vec<ReviewSummary> = Vec::new();
        let nr = self.reviews.len();
        for i in 0..nr
            invariant
                self.wf(),
                nr == self.reviews@.len(),
                r@.len() == i,
                forall|k: int|
                    0 <= k < i ==> r@[k] == spec_summary(
                        self.threads@,
                        self.revisions@,
                        #[trigger] self.reviews@[k],
                    ),
        {
            let rid = self.reviews[i].id;
            let mut tc: usize = 0;
            let mut oc: usize = 0;
            let nt = self.threads.len();
            for j in 0..nt
                invariant
                    self.wf(),
                    nt == self.threads@.len(),
                    tc <= j,
                    oc <= tc,
                    tc == threads_of(self.threads@.take(j as int), rid).len(),
                    oc == open_threads_of(self.threads@.take(j as int), rid).len(),
            {
                proof {
                    assert(self.threads@.take(j + 1).drop_last() =~= self.threads@.take(j as int));
                    assert(self.threads@.take(j + 1).last() == self.threads@[j as int]);
                }
                if self.threads[j].review_id == rid {
                    tc += 1;
                    let is_open = match self.threads[j].status {
                        ThreadStatus::Open => true,
                        _ => false,
                    };
                    let is_expl = match self.threads[j].origin {
                        ThreadOrigin::AgentExplanation => true,
                        _ => false,
                    };
                    if is_open && !is_expl {
                        oc += 1;
                    }
                }
            }
            let mut fc: usize = 0;
            let nv = self.revisions.len();
            for j in 0..nv
                invariant
                    self.wf(),
                    nv == self.revisions@.len(),
                    fc == file_count_of(self.revisions@.take(j as int), rid),
            {
                proof {
                    assert(self.revisions@.take(j + 1).drop_last() =~= self.revisions@.take(
                        j as int,
                    ));
                    assert(self.revisions@.take(j + 1).last() == self.revisions@[j as int]);
                }
                if self.revisions[j].review_id == rid {
                    fc = self.revisions[j].files.len();
                }
            }
            proof {
                assert(self.threads@.take(self.threads@.len() as int) =~= self.threads@);
                assert(self.revisions@.take(self.revisions@.len() as int) =~= self.revisions@);
            }
            let rv = &self.reviews[i];
            r.push(
                ReviewSummary {
                    id: rv.id,
                    title: crate::diff::clone_opt_string(&rv.title),
                    status: rv.status,
                    thread_count: tc,
                    open_thread_count: oc,
                    file_count: fc,
                },
            );
        }
        r
    }
}


/// When every revision's number continues its own review's count, every
/// review's numbering is dense.
proof fn lemma_dense_from_counts(rs: Seq<Revision>)
    requires
        forall|j: int|
            0 <= j < rs.len() ==> (#[trigger] rs[j]).revision_number == revs_of(
                rs.take(j),
                rs[j].review_id,
            ).len() + 1,
    ensures
        forall|rid: u128| dense(#[trigger] revs_of(rs, rid)),
    decreases rs.len(),
{
    if rs.len() > 0 {
        let dl = rs.drop_last();
        assert(dl =~= rs.take(rs.len() - 1));
        assert forall|j: int| 0 <= j < dl.len() implies (#[trigger] dl[j]).revision_number
            == revs_of(dl.take(j), dl[j].review_id).len() + 1 by {
            assert(dl[j] == rs[j]);
            assert(dl.take(j) =~= rs.take(j));
        }
        lemma_dense_from_counts(dl);
        assert forall|rid: u128| dense(#[trigger] revs_of(rs, rid)) by {
            if rs.last().review_id == rid {
                assert(rs.last().revision_number == revs_of(dl, rid).len() + 1);
                assert(revs_of(rs, rid) == revs_of(dl, rid).push(rs.last()));
                assert(dense(revs_of(dl, rid)));
                assert forall|i: int| 0 <= i < revs_of(rs, rid).len() implies (#[trigger] revs_of(
                    rs,
                    rid,
                )[i]).revision_number == i + 1 by {
                    if i < revs_of(dl, rid).len() {
                        assert(revs_of(rs, rid)[i] == revs_of(dl, rid)[i]);
                    }
                }
            } else {
                assert(revs_of(rs, rid) == revs_of(dl, rid));
            }
        }
    } else {
        assert forall|rid: u128| dense(#[trigger] revs_of(rs, rid)) by {
            assert(revs_of(rs, rid) =~= Seq::<Revision>::empty());
        }
    }
}


/// What a loaded trio of tables must satisfy to rebuild a store: the
/// invariant's conditions stated over the raw tables.
pub open spec fn tables_wf(
    reviews: Seq<Review>,
    threads: Seq<CommentThread>,
    revisions: Seq<Revision>,
) -> bool {
    &&& forall|i: int, j: int|
        0 <= i < j < reviews.len() ==> (#[trigger] reviews[i]).id != (#[trigger] reviews[j]).id
    &&& forall|i: int, j: int|
        0 <= i < j < threads.len() ==> (#[trigger] threads[i]).id != (#[trigger] threads[j]).id
    &&& forall|i: int, j: int|
        0 <= i < j < revisions.len() ==> (#[trigger] revisions[i]).id != (
        #[trigger] revisions[j]).id
    &&& forall|i: int| 0 <= i < reviews.len() ==> (#[trigger] reviews[i]).id < u128::MAX
    &&& forall|i: int| 0 <= i < threads.len() ==> (#[trigger] threads[i]).id < u128::MAX
    &&& forall|i: int| 0 <= i < revisions.len() ==> (#[trigger] revisions[i]).id < u128::MAX
    &&& forall|rid: u128| dense(#[trigger] revs_of(revisions, rid))
    &&& forall|i: int|
        0 <= i < revisions.len() ==> has_review(reviews, (#[trigger] revisions[i]).review_id)
    &&& forall|i: int| 0 <= i < threads.len() ==> (#[trigger] threads[i]).comments@.len() >= 1
    &&& forall|i: int|
        0 <= i < threads.len() ==> (#[trigger] threads[i]).line_start <= threads[i].line_end
}

/// A review's revisions in a prefix of the table are a prefix of its
/// revisions in the whole table.
proof fn lemma_revs_prefix(rs: Seq<Revision>, rid: u128, m: int)
    requires
        0 <= m <= rs.len(),
    ensures
        revs_of(rs.take(m), rid).len() <= revs_of(rs, rid).len(),
        forall|i: int|
            0 <= i < revs_of(rs.take(m), rid).len() ==> #[trigger] revs_of(rs, rid)[i] == revs_of(
                rs.take(m),
                rid,
            )[i],
    decreases rs.len() - m,
{
    if m < rs.len() {
        lemma_revs_prefix(rs, rid, m + 1);
        assert(rs.take(m + 1).drop_last() =~= rs.take(m));
        assert(rs.take(m + 1).last() == rs[m]);
    } else {
        assert(rs.take(m) =~= rs);
    }
}

/// Under dense numbering, each revision's number continues the count of
/// its review's earlier revisions.
proof fn lemma_counts_from_dense(rs: Seq<Revision>, j: int)
    requires
        forall|rid: u128| dense(#[trigger] revs_of(rs, rid)),
        0 <= j < rs.len(),
    ensures
        rs[j].revision_number == revs_of(rs.take(j), rs[j].review_id).len() + 1,
        revs_of(rs.take(j), rs[j].review_id).len() < u32::MAX,
{
    let rid = rs[j].review_id;
    let k = revs_of(rs.take(j), rid).len() as int;
    assert(rs.take(j + 1).drop_last() =~= rs.take(j));
    assert(rs.take(j + 1).last() == rs[j]);
    assert(revs_of(rs.take(j + 1), rid) == revs_of(rs.take(j), rid).push(rs[j]));
    lemma_revs_prefix(rs, rid, j + 1);
    assert(revs_of(rs, rid)[k] == revs_of(rs.take(j + 1), rid)[k]);
    assert(revs_of(rs, rid)[k] == rs[j]);
    assert(dense(revs_of(rs, rid)));
    assert(rs[j].revision_number == k + 1);
}


/// Restart safety: the tables of a well-formed store always satisfy what
/// a reload demands, so rebuilding a store from its own saved tables
/// cannot fail, and `try_from_parts` then returns a store with exactly
/// the same tables — the observable state survives a restart.
pub proof fn lemma_store_tables_reloadable(s: StoreState)
    requires
        s.wf(),
    ensures
        tables_wf(s.reviews@, s.threads@, s.revisions@),
{
}

impl StoreState {
    /// Rebuild a store from loaded tables, checking what a loaded file
    /// must satisfy: unique ids, each review's revisions numbered 1..N in
    /// order, every thread carrying a comment and an ordered line range.
    /// A table that does not is rejected as unreadable state.
    #[verifier::rlimit(100)]
    pub fn try_from_parts(
        reviews: Vec<Review>,
        threads: Vec<CommentThread>,
        revisions: Vec<Revision>,
    ) -> (r: Result<StoreState, StoreError>)
        ensures
            match r {
                Ok(s) => s.wf() && s.reviews@ == reviews@ && s.threads@ == threads@ && s.revisions@
                    == revisions@,
                Err(e) => e is PersistenceError && !tables_wf(reviews@, threads@, revisions@),
            },
    {
        // unique ids per table
        let n = reviews.len();
        for i in 0..n
            invariant
                n == reviews@.len(),
                forall|a: int, b: int|
                    0 <= a < b < i ==> (#[trigger] reviews@[a]).id != (#[trigger] reviews@[b]).id,
        {
            for j in 0..i
                invariant
                    n == reviews@.len(),
                    i < n,
                    forall|a: int, b: int|
                        0 <= a < b < i ==> (#[trigger] reviews@[a]).id != (
                        #[trigger] reviews@[b]).id,
                    forall|a: int| 0 <= a < j ==> (#[trigger] reviews@[a]).id != reviews@[i as int].id,
            {
                if reviews[j].id == reviews[i].id {
                    return Err(StoreError::PersistenceError(String::from_str("duplicate id")));
                }
            }
        }
        let n = threads.len();
        for i in 0..n
            invariant
                n == threads@.len(),
                forall|a: int, b: int|
                    0 <= a < b < reviews@.len() ==> (#[trigger] reviews@[a]).id != (
                    #[trigger] reviews@[b]).id,
                forall|a: int, b: int|
                    0 <= a < b < i ==> (#[trigger] threads@[a]).id != (#[trigger] threads@[b]).id,
                forall|a: int|
                    0 <= a < i ==> (#[trigger] threads@[a]).comments@.len() >= 1 && threads@[a]
                        .line_start <= threads@[a].line_end,
        {
            for j in 0..i
                invariant
                    n == threads@.len(),
                    i < n,
                    forall|a: int, b: int|
                        0 <= a < b < i ==> (#[trigger] threads@[a]).id != (
                        #[trigger] threads@[b]).id,
                    forall|a: int| 0 <= a < j ==> (#[trigger] threads@[a]).id != threads@[i as int].id,
            {
                if threads[j].id == threads[i].id {
                    return Err(StoreError::PersistenceError(String::from_str("duplicate id")));
                }
            }
            if threads[i].comments.len() == 0 {
                return Err(StoreError::PersistenceError(String::from_str("thread without comments")));
            }
            if threads[i].line_start > threads[i].line_end {
                return Err(StoreError::PersistenceError(String::from_str("bad line range")));
            }
        }
        let n = revisions.len();
        for i in 0..n
            invariant
                n == revisions@.len(),
                forall|a: int, b: int|
                    0 <= a < b < reviews@.len() ==> (#[trigger] reviews@[a]).id != (
                    #[trigger] reviews@[b]).id,
                forall|a: int, b: int|
                    0 <= a < b < threads@.len() ==> (#[trigger] threads@[a]).id != (
                    #[trigger] threads@[b]).id,
                forall|a: int|
                    0 <= a < threads@.len() ==> (#[trigger] threads@[a]).comments@.len() >= 1
                        && threads@[a].line_start <= threads@[a].line_end,
                forall|a: int, b: int|
                    0 <= a < b < i ==> (#[trigger] revisions@[a]).id != (
                    #[trigger] revisions@[b]).id,
                forall|j: int|
                    0 <= j < i ==> (#[trigger] revisions@[j]).revision_number == revs_of(
                        revisions@.take(j),
                        revisions@[j].review_id,
                    ).len() + 1,
                forall|j: int|
                    0 <= j < i ==> has_review(reviews@, (#[trigger] revisions@[j]).review_id),
        {
            let mut cnt: usize = 0;
            for j in 0..i
                invariant
                    n == revisions@.len(),
                    i < n,
                    cnt <= j,
                    forall|a: int, b: int|
                        0 <= a < b < i ==> (#[trigger] revisions@[a]).id != (
                        #[trigger] revisions@[b]).id,
                    forall|jj: int|
                        0 <= jj < i ==> (#[trigger] revisions@[jj]).revision_number == revs_of(
                            revisions@.take(jj),
                            revisions@[jj].review_id,
                        ).len() + 1,
                    forall|jj: int|
                        0 <= jj < i ==> has_review(reviews@, (#[trigger] revisions@[jj]).review_id),
                    forall|a: int| 0 <= a < j ==> (#[trigger] revisions@[a]).id != revisions@[
                        i as int
                    ].id,
                    cnt == revs_of(revisions@.take(j as int), revisions@[i as int].review_id).len(),
            {
                proof {
                    assert(revisions@.take(j + 1).drop_last() =~= revisions@.take(j as int));
                    assert(revisions@.take(j + 1).last() == revisions@[j as int]);
                }
                if revisions[j].id == revisions[i].id {
                    return Err(StoreError::PersistenceError(String::from_str("duplicate id")));
                }
                if revisions[j].review_id == revisions[i].review_id {
                    cnt += 1;
                }
            }
            if cnt >= (u32::MAX as usize) || revisions[i].revision_number as usize != cnt + 1 {
                proof {
                    assert(revisions@.take(revisions@.len() as int) =~= revisions@);
                    if forall|rid: u128| dense(#[trigger] revs_of(revisions@, rid)) {
                        lemma_counts_from_dense(revisions@, i as int);
                    }
                }
                return Err(
                    StoreError::PersistenceError(String::from_str("revision numbers not dense")),
                );
            }
            let mut owned = false;
            let nr = reviews.len();
            for j in 0..nr
                invariant
                    nr == reviews@.len(),
                    n == revisions@.len(),
                    i < n,
                    owned ==> has_review(reviews@, revisions@[i as int].review_id),
                    !owned ==> forall|a: int|
                        0 <= a < j ==> (#[trigger] reviews@[a]).id != revisions@[i as int].review_id,
            {
                if reviews[j].id == revisions[i].review_id {
                    owned = true;
                }
            }
            if !owned {
                proof {
                    assert(!has_review(reviews@, revisions@[i as int].review_id));
                }
                return Err(
                    StoreError::PersistenceError(String::from_str("revision without review")),
                );
            }
        }
        // the id counter continues past every loaded id
        let mut next_id: u128 = 1;
        let n = reviews.len();
        for i in 0..n
            invariant
                n == reviews@.len(),
                forall|a: int, b: int|
                    0 <= a < b < reviews@.len() ==> (#[trigger] reviews@[a]).id != (
                    #[trigger] reviews@[b]).id,
                forall|a: int, b: int|
                    0 <= a < b < threads@.len() ==> (#[trigger] threads@[a]).id != (
                    #[trigger] threads@[b]).id,
                forall|a: int|
                    0 <= a < threads@.len() ==> (#[trigger] threads@[a]).comments@.len() >= 1
                        && threads@[a].line_start <= threads@[a].line_end,
                forall|a: int, b: int|
                    0 <= a < b < revisions@.len() ==> (#[trigger] revisions@[a]).id != (
                    #[trigger] revisions@[b]).id,
                forall|j: int|
                    0 <= j < revisions@.len() ==> (#[trigger] revisions@[j]).revision_number
                        == revs_of(revisions@.take(j), revisions@[j].review_id).len() + 1,
                forall|j: int|
                    0 <= j < revisions@.len() ==> has_review(
                        reviews@,
                        (#[trigger] revisions@[j]).review_id,
                    ),
                next_id >= 1,
                forall|a: int| 0 <= a < i ==> (#[trigger] reviews@[a]).id < next_id,
        {
            if reviews[i].id == u128::MAX {
                return Err(StoreError::PersistenceError(String::from_str("id space exhausted")));
            }
            if reviews[i].id >= next_id {
                next_id = reviews[i].id + 1;
            }
        }
        let n = threads.len();
        for i in 0..n
            invariant
                n == threads@.len(),
                forall|a: int, b: int|
                    0 <= a < b < reviews@.len() ==> (#[trigger] reviews@[a]).id != (
                    #[trigger] reviews@[b]).id,
                forall|a: int, b: int|
                    0 <= a < b < threads@.len() ==> (#[trigger] threads@[a]).id != (
                    #[trigger] threads@[b]).id,
                forall|a: int|
                    0 <= a < threads@.len() ==> (#[trigger] threads@[a]).comments@.len() >= 1
                        && threads@[a].line_start <= threads@[a].line_end,
                forall|a: int, b: int|
                    0 <= a < b < revisions@.len() ==> (#[trigger] revisions@[a]).id != (
                    #[trigger] revisions@[b]).id,
                forall|j: int|
                    0 <= j < revisions@.len() ==> (#[trigger] revisions@[j]).revision_number
                        == revs_of(revisions@.take(j), revisions@[j].review_id).len() + 1,
                forall|j: int|
                    0 <= j < revisions@.len() ==> has_review(
                        reviews@,
                        (#[trigger] revisions@[j]).review_id,
                    ),
                next_id >= 1,
                forall|a: int| 0 <= a < reviews@.len() ==> (#[trigger] reviews@[a]).id < next_id,
                forall|a: int| 0 <= a < i ==> (#[trigger] threads@[a]).id < next_id,
        {
            if threads[i].id == u128::MAX {
                return Err(StoreError::PersistenceError(String::from_str("id space exhausted")));
            }
            if threads[i].id >= next_id {
                next_id = threads[i].id + 1;
            }
        }
        let n = revisions.len();
        for i in 0..n
            invariant
                n == revisions@.len(),
                forall|a: int, b: int|
                    0 <= a < b < reviews@.len() ==> (#[trigger] reviews@[a]).id != (
                    #[trigger] reviews@[b]).id,
                forall|a: int, b: int|
                    0 <= a < b < threads@.len() ==> (#[trigger] threads@[a]).id != (
                    #[trigger] threads@[b]).id,
                forall|a: int|
                    0 <= a < threads@.len() ==> (#[trigger] threads@[a]).comments@.len() >= 1
                        && threads@[a].line_start <= threads@[a].line_end,
                forall|a: int, b: int|
                    0 <= a < b < revisions@.len() ==> (#[trigger] revisions@[a]).id != (
                    #[trigger] revisions@[b]).id,
                forall|j: int|
                    0 <= j < revisions@.len() ==> (#[trigger] revisions@[j]).revision_number
                        == revs_of(revisions@.take(j), revisions@[j].review_id).len() + 1,
                forall|j: int|
                    0 <= j < revisions@.len() ==> has_review(
                        reviews@,
                        (#[trigger] revisions@[j]).review_id,
                    ),
                next_id >= 1,
                forall|a: int| 0 <= a < reviews@.len() ==> (#[trigger] reviews@[a]).id < next_id,
                forall|a: int| 0 <= a < threads@.len() ==> (#[trigger] threads@[a]).id < next_id,
                forall|a: int| 0 <= a < i ==> (#[trigger] revisions@[a]).id < next_id,
        {
            if revisions[i].id == u128::MAX {
                return Err(StoreError::PersistenceError(String::from_str("id space exhausted")));
            }
            if revisions[i].id >= next_id {
                next_id = revisions[i].id + 1;
            }
        }
        proof {
            assert(revisions@.take(revisions@.len() as int) =~= revisions@);
            lemma_dense_from_counts(revisions@);
        }
        Ok(StoreState { reviews, threads, revisions, next_id })
    }
}

} // verus!


