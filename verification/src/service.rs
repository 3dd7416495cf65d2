use vstd::prelude::*;

verus! {

use crate::events::{EventPayload, WsEvent, WsEventType};
use crate::highlight::Highlighter;
use crate::presence::{spec_connected, spec_deadline, spec_deregister, spec_fire, spec_register,
    PresenceTracker};
use crate::review::{AgentStatus, Comment, CommentThread, Review, ReviewStatus, Revision,
    ThreadStatus};
use crate::store::{has_review, has_thread, review_at, review_of, revs_of, thread_at, thread_of,
    threads_of, open_threads_of, threads_sel, StoreError, StoreState};
use crate::types::{ApiError, ReviewResponse, RevisionResponse, ThreadResponse, CommentResponse,
    AgentPresenceResponse, CreateReviewRequest, CreateThreadRequest};

/// The agent status recorded for a thread: the tag of the last entry
/// carrying the thread's id.
pub open spec fn status_of(m: Seq<(u128, AgentStatus)>, tid: u128) -> Option<AgentStatus>
    decreases m.len(),
{
    if m.len() == 0 {
        None
    } else if m.last().0 == tid {
        Some(m.last().1)
    } else {
        status_of(m.drop_last(), tid)
    }
}

/// The derived listing entry of one review.
pub open spec fn spec_review_response(
    ts: Seq<CommentThread>,
    rs: Seq<Revision>,
    rv: Review,
) -> ReviewResponse {
    ReviewResponse {
        id: rv.id,
        title: rv.title,
        status: rv.status,
        file_count: crate::store::file_count_of(rs, rv.id) as usize,
        thread_count: threads_of(ts, rv.id).len() as usize,
        open_thread_count: open_threads_of(ts, rv.id).len() as usize,
        revision_count: revs_of(rs, rv.id).len() as usize,
        created_at: rv.created_at,
        updated_at: rv.updated_at,
    }
}

/// A thread response carries the thread's fields, its comments in order,
/// and the given agent status.
pub open spec fn thread_resp_matches(
    r: ThreadResponse,
    t: CommentThread,
    st: Option<AgentStatus>,
) -> bool {
    &&& r.id == t.id
    &&& r.review_id == t.review_id
    &&& r.file_path@ == t.file_path@
    &&& r.line_start == t.line_start
    &&& r.line_end == t.line_end
    &&& r.origin == t.origin
    &&& r.status == t.status
    &&& r.agent_status == st
    &&& r.comments@.len() == t.comments@.len()
    &&& forall|i: int|
        0 <= i < r.comments@.len() ==> {
            let c = (#[trigger] r.comments@[i]);
            let o = t.comments@[i];
            c.id == o.id && c.author_type == o.author_type && c.body@ == o.body@ && c.created_at
                == o.created_at
        }
}

/// The review state machine: the store, the ephemeral agent-status map,
/// the presence tracker, and the highlighter.  Mutating operations hand
/// back the events to broadcast, already in publication order.
pub struct ReviewService {
    pub store: StoreState,
    pub agent_status: Vec<(u128, AgentStatus)>,
    pub presence: PresenceTracker,
    pub highlighter: Highlighter,
}

impl ReviewService {
    pub open spec fn wf(&self) -> bool {
        &&& self.store.wf()
        &&& self.presence.wf()
        &&& forall|i: int, j: int|
            0 <= i < j < self.agent_status@.len() ==> (#[trigger] self.agent_status@[i]).0 != (
            #[trigger] self.agent_status@[j]).0
    }

    /// A service over an empty store.
    pub fn new() -> (r: ReviewService)
        ensures
            r.wf(),
            r.store.reviews@.len() == 0,
            r.store.threads@.len() == 0,
            r.store.revisions@.len() == 0,
    {
        ReviewService {
            store: StoreState::new_empty(),
            agent_status: Vec::new(),
            presence: PresenceTracker::new(),
            highlighter: Highlighter::new(),
        }
    }

    /// A service resuming from a loaded store.
    pub fn from_store(store: StoreState) -> (r: ReviewService)
        requires
            store.wf(),
        ensures
            r.wf(),
            r.store == store,
            r.agent_status@.len() == 0,
    {
        ReviewService {
            store,
            agent_status: Vec::new(),
            presence: PresenceTracker::new(),
            highlighter: Highlighter::new(),
        }
    }

    /// The agent status recorded for a thread.
    pub fn agent_status_of(&self, tid: u128) -> (r: Option<AgentStatus>)
        requires
            self.wf(),
        ensures
            r == status_of(self.agent_status@, tid),
    {
        let n = self.agent_status.len();
        proof {
            assert(self.agent_status@.take(n as int) =~= self.agent_status@);
        }
        let mut i = n;
        while i > 0
            invariant
                n == self.agent_status@.len(),
                i <= n,
                status_of(self.agent_status@, tid) == status_of(
                    self.agent_status@.take(i as int),
                    tid,
                ),
            decreases i,
        {
            i = i - 1;
            let (k, v) = self.agent_status[i];
            proof {
                assert(self.agent_status@.take(i + 1).drop_last() =~= self.agent_status@.take(
                    i as int,
                ));
                assert(self.agent_status@.take(i + 1).last() == self.agent_status@[i as int]);
            }
            if k == tid {
                return Some(v);
            }
        }
        proof {
            assert(self.agent_status@.take(0) =~= Seq::<(u128, AgentStatus)>::empty());
        }
        None
    }

    /// Record the agent's status for a thread.
    fn set_status(&mut self, tid: u128, st: AgentStatus)
        requires
            old(self).wf(),
        ensures
            final(self).wf(),
            status_of(final(self).agent_status@, tid) == Some(st),
            forall|o: u128|
                o != tid ==> #[trigger] status_of(final(self).agent_status@, o) == status_of(
                    old(self).agent_status@,
                    o,
                ),
            final(self).store == old(self).store,
            final(self).presence == old(self).presence,
    {
        let n = self.agent_status.len();
        for i in 0..n
            invariant
                n == self.agent_status@.len(),
                self.wf(),
                *self == *old(self),
                forall|k: int| 0 <= k < i ==> (#[trigger] self.agent_status@[k]).0 != tid,
        {
            if self.agent_status[i].0 == tid {
                let ghost m0 = self.agent_status@;
                self.agent_status.set(i, (tid, st));
                proof {
                    lemma_status_update(m0, self.agent_status@, i as int, tid, st);
                }
                return ;
            }
        }
        let ghost m0 = self.agent_status@;
        self.agent_status.push((tid, st));
        proof {
            assert(self.agent_status@.drop_last() =~= m0);
            assert forall|o: u128| o != tid implies #[trigger] status_of(
                self.agent_status@,
                o,
            ) == status_of(m0, o) by {}
            assert forall|a: int, b: int| 0 <= a < b < self.agent_status@.len() implies (
            #[trigger] self.agent_status@[a]).0 != (#[trigger] self.agent_status@[b]).0 by {
                if b < self.agent_status@.len() - 1 {
                    assert(m0[a].0 != m0[b].0);
                } else {
                    assert(self.agent_status@[a] == m0[a]);
                }
            }
        }
    }

    /// Drop the agent's status for a thread.
    fn clear_status(&mut self, tid: u128)
        requires
            old(self).wf(),
        ensures
            final(self).wf(),
            status_of(final(self).agent_status@, tid) is None,
            forall|o: u128|
                o != tid ==> #[trigger] status_of(final(self).agent_status@, o) == status_of(
                    old(self).agent_status@,
                    o,
                ),
            final(self).store == old(self).store,
            final(self).presence == old(self).presence,
    {
        let n = self.agent_status.len();
        for i in 0..n
            invariant
                n == self.agent_status@.len(),
                self.wf(),
                *self == *old(self),
                forall|k: int| 0 <= k < i ==> (#[trigger] self.agent_status@[k]).0 != tid,
        {
            if self.agent_status[i].0 == tid {
                let ghost m0 = self.agent_status@;
                self.agent_status.remove(i);
                proof {
                    lemma_status_remove(m0, self.agent_status@, i as int, tid);
                }
                return ;
            }
        }
        proof {
            lemma_status_absent(self.agent_status@, tid);
        }
    }
}

/// Where no entry carries the key, the lookup is empty.
proof fn lemma_status_absent(m: Seq<(u128, AgentStatus)>, tid: u128)
    requires
        forall|k: int| 0 <= k < m.len() ==> (#[trigger] m[k]).0 != tid,
    ensures
        status_of(m, tid) is None,
    decreases m.len(),
{
    if m.len() > 0 {
        assert(forall|k: int| 0 <= k < m.len() - 1 ==> (#[trigger] m.drop_last()[k]).0 != tid);
        lemma_status_absent(m.drop_last(), tid);
    }
}

/// Replacing the entry of one key leaves every other lookup alone.
proof fn lemma_status_update(
    m: Seq<(u128, AgentStatus)>,
    m2: Seq<(u128, AgentStatus)>,
    i: int,
    tid: u128,
    st: AgentStatus,
)
    requires
        0 <= i < m.len(),
        m[i].0 == tid,
        m2 == m.update(i, (tid, st)),
        forall|a: int, b: int| 0 <= a < b < m.len() ==> (#[trigger] m[a]).0 != (#[trigger] m[b]).0,
    ensures
        status_of(m2, tid) == Some(st),
        forall|o: u128| o != tid ==> #[trigger] status_of(m2, o) == status_of(m, o),
        forall|a: int, b: int|
            0 <= a < b < m2.len() ==> (#[trigger] m2[a]).0 != (#[trigger] m2[b]).0,
    decreases m.len(),
{
    assert forall|a: int, b: int| 0 <= a < b < m2.len() implies (#[trigger] m2[a]).0 != (
    #[trigger] m2[b]).0 by {
        assert(m[a].0 != m[b].0);
    }
    if i == m.len() - 1 {
        assert(m2.drop_last() =~= m.drop_last());
        assert forall|o: u128| o != tid implies #[trigger] status_of(m2, o) == status_of(m, o) by {}
    } else {
        assert(m2.drop_last() =~= m.drop_last().update(i, (tid, st)));
        assert(forall|a: int, b: int|
            0 <= a < b < m.drop_last().len() ==> (#[trigger] m.drop_last()[a]).0 != (
            #[trigger] m.drop_last()[b]).0);
        lemma_status_update(m.drop_last(), m2.drop_last(), i, tid, st);
        assert(m2.last() == m.last());
        assert(m.last().0 != tid) by {
            assert(m[i].0 != m[m.len() - 1].0);
        }
        assert forall|o: u128| o != tid implies #[trigger] status_of(m2, o) == status_of(m, o) by {
            if m.last().0 != o {
                assert(status_of(m2.drop_last(), o) == status_of(m.drop_last(), o));
            }
        }
    }
}

/// Removing the entry of one key leaves every other lookup alone.
proof fn lemma_status_remove(
    m: Seq<(u128, AgentStatus)>,
    m2: Seq<(u128, AgentStatus)>,
    i: int,
    tid: u128,
)
    requires
        0 <= i < m.len(),
        m[i].0 == tid,
        m2 == m.remove(i),
        forall|a: int, b: int| 0 <= a < b < m.len() ==> (#[trigger] m[a]).0 != (#[trigger] m[b]).0,
    ensures
        status_of(m2, tid) is None,
        forall|o: u128| o != tid ==> #[trigger] status_of(m2, o) == status_of(m, o),
        forall|a: int, b: int|
            0 <= a < b < m2.len() ==> (#[trigger] m2[a]).0 != (#[trigger] m2[b]).0,
    decreases m.len(),
{
    assert forall|a: int, b: int| 0 <= a < b < m2.len() implies (#[trigger] m2[a]).0 != (
    #[trigger] m2[b]).0 by {
        if a < i && b < i {
            assert(m[a].0 != m[b].0);
        } else if a < i {
            assert(m[a].0 != m[b + 1].0);
        } else {
            assert(m[a + 1].0 != m[b + 1].0);
        }
    }
    assert(forall|k: int| 0 <= k < m2.len() ==> (#[trigger] m2[k]).0 != tid) by {
        assert forall|k: int| 0 <= k < m2.len() implies (#[trigger] m2[k]).0 != tid by {
            if k < i {
                assert(m2[k] == m[k]);
                assert(m[k].0 != m[i].0);
            } else {
                assert(m2[k] == m[k + 1]);
                assert(m[i].0 != m[k + 1].0);
            }
        }
    }
    lemma_status_absent(m2, tid);
    assert forall|o: u128| o != tid implies #[trigger] status_of(m2, o) == status_of(m, o) by {
        lemma_status_remove_frame(m, i, o);
    }
}

/// One removal step seen by another key.
proof fn lemma_status_remove_frame(m: Seq<(u128, AgentStatus)>, i: int, o: u128)
    requires
        0 <= i < m.len(),
        m[i].0 != o,
    ensures
        status_of(m.remove(i), o) == status_of(m, o),
    decreases m.len(),
{
    let m2 = m.remove(i);
    if i == m.len() - 1 {
        assert(m2 =~= m.drop_last());
    } else {
        assert(m2.last() == m.last());
        assert(m2.drop_last() =~= m.drop_last().remove(i));
        lemma_status_remove_frame(m.drop_last(), i, o);
    }
}


impl ReviewService {
    /// List all reviews with their derived counts, in table order.
    pub fn list_reviews(&self) -> (r: Vec<ReviewResponse>)
        requires
            self.wf(),
        ensures
            r@.len() == self.store.reviews@.len(),
            forall|i: int|
                0 <= i < r@.len() ==> r@[i] == spec_review_response(
                    self.store.threads@,
                    self.store.revisions@,
                    #[trigger] self.store.reviews@[i],
                ),
    {
        let sums = self.store.list_reviews();
        let mut r: Vec<ReviewResponse> = Vec::new();
        let n = sums.len();
        for i in 0..n
            invariant
                self.wf(),
                n == sums@.len(),
                n == self.store.reviews@.len(),
                forall|k: int|
                    0 <= k < n ==> sums@[k] == crate::store::spec_summary(
                        self.store.threads@,
                        self.store.revisions@,
                        #[trigger] self.store.reviews@[k],
                    ),
                r@.len() == i,
                forall|k: int|
                    0 <= k < i ==> r@[k] == spec_review_response(
                        self.store.threads@,
                        self.store.revisions@,
                        #[trigger] self.store.reviews@[k],
                    ),
        {
            let rid = sums[i].id;
            let mut rc: usize = 0;
            let nv = self.store.revisions.len();
            for j in 0..nv
                invariant
                    nv == self.store.revisions@.len(),
                    rc <= j,
                    rid == sums@[i as int].id,
                    rc == revs_of(self.store.revisions@.take(j as int), rid).len(),
            {
                proof {
                    assert(self.store.revisions@.take(j + 1).drop_last() =~= self.store.revisions@
                        .take(j as int));
                    assert(self.store.revisions@.take(j + 1).last() == self.store.revisions@[
                        j as int
                    ]);
                }
                if self.store.revisions[j].review_id == rid {
                    rc += 1;
                }
            }
            proof {
                assert(self.store.revisions@.take(self.store.revisions@.len() as int)
                    =~= self.store.revisions@);
            }
            let rv = &self.store.reviews[i];
            proof {
                assert(sums@[i as int].id == self.store.reviews@[i as int].id);
            }
            r.push(
                ReviewResponse {
                    id: rv.id,
                    title: crate::diff::clone_opt_string(&rv.title),
                    status: rv.status,
                    file_count: sums[i].file_count,
                    thread_count: sums[i].thread_count,
                    open_thread_count: sums[i].open_thread_count,
                    revision_count: rc,
                    created_at: rv.created_at,
                    updated_at: rv.updated_at,
                },
            );
        }
        r
    }

    /// One review with its derived counts.
    pub fn get_review(&self, id: u128) -> (r: Result<ReviewResponse, ApiError>)
        requires
            self.wf(),
        ensures
            match r {
                Ok(resp) => has_review(self.store.reviews@, id) && resp == spec_review_response(
                    self.store.threads@,
                    self.store.revisions@,
                    review_of(self.store.reviews@, id),
                ),
                Err(e) => !has_review(self.store.reviews@, id) && e is NotFound,
            },
    {
        let rv = match self.store.get_review(id) {
            Ok(rv) => rv,
            Err(e) => {
                return Err(ApiError::from_store(e));
            },
        };
        let mut tc: usize = 0;
        let mut oc: usize = 0;
        let nt = self.store.threads.len();
        for j in 0..nt
            invariant
                self.wf(),
                nt == self.store.threads@.len(),
                tc <= j,
                oc <= tc,
                tc == threads_of(self.store.threads@.take(j as int), id).len(),
                oc == open_threads_of(self.store.threads@.take(j as int), id).len(),
        {
            proof {
                assert(self.store.threads@.take(j + 1).drop_last() =~= self.store.threads@.take(
                    j as int,
                ));
                assert(self.store.threads@.take(j + 1).last() == self.store.threads@[j as int]);
            }
            if self.store.threads[j].review_id == id {
                tc += 1;
                let is_open = match self.store.threads[j].status {
                    ThreadStatus::Open => true,
                    _ => false,
                };
                let is_expl = match self.store.threads[j].origin {
                    crate::review::ThreadOrigin::AgentExplanation => true,
                    _ => false,
                };
                if is_open && !is_expl {
                    oc += 1;
                }
            }
        }
        let mut rc: usize = 0;
        let mut fc: usize = 0;
        let nv = self.store.revisions.len();
        for j in 0..nv
            invariant
                self.wf(),
                nv == self.store.revisions@.len(),
                rc <= j,
                rc == revs_of(self.store.revisions@.take(j as int), id).len(),
                fc == crate::store::file_count_of(self.store.revisions@.take(j as int), id),
        {
            proof {
                assert(self.store.revisions@.take(j + 1).drop_last() =~= self.store.revisions@.take(
                    j as int,
                ));
                assert(self.store.revisions@.take(j + 1).last() == self.store.revisions@[j as int]);
            }
            if self.store.revisions[j].review_id == id {
                rc += 1;
                fc = self.store.revisions[j].files.len();
            }
        }
        proof {
            assert(self.store.threads@.take(self.store.threads@.len() as int)
                =~= self.store.threads@);
            assert(self.store.revisions@.take(self.store.revisions@.len() as int)
                =~= self.store.revisions@);
        }
        Ok(
            ReviewResponse {
                id: rv.id,
                title: rv.title,
                status: rv.status,
                file_count: fc,
                thread_count: tc,
                open_thread_count: oc,
                revision_count: rc,
                created_at: rv.created_at,
                updated_at: rv.updated_at,
            },
        )
    }

    /// Create a review over a working tree whose parsed diff is `files`:
    /// the review and its revision 1 are created together, and one
    /// `ReviewCreated` event carries the new review.  The only failure is
    /// an internal one, exactly when the id space is exhausted.
    pub fn create_review(
        &mut self,
        req: CreateReviewRequest,
        files: Vec<crate::diff::FileDiff>,
        now: i64,
    ) -> (r: Result<(ReviewResponse, Vec<WsEvent>), ApiError>)
        requires
            old(self).wf(),
        ensures
            final(self).wf(),
            match r {
                Ok((resp, evs)) => {
                    &&& !has_review(old(self).store.reviews@, resp.id)
                    &&& has_review(final(self).store.reviews@, resp.id)
                    &&& final(self).store.reviews@ == old(self).store.reviews@.push(
                        review_of(final(self).store.reviews@, resp.id),
                    )
                    &&& ({
                        let rv = review_of(final(self).store.reviews@, resp.id);
                        &&& rv.title == req.title
                        &&& rv.status is Open
                        &&& rv.created_at == now
                        &&& rv.updated_at == now
                        &&& rv.repo_path == req.repo_path
                        &&& rv.base_ref == req.base_ref
                    })
                    &&& final(self).store.revisions@.len() == old(self).store.revisions@.len() + 1
                    &&& forall|j: int|
                        0 <= j < old(self).store.revisions@.len() ==> final(self).store.revisions@[j]
                            == old(self).store.revisions@[j]
                    &&& ({
                        let rev = final(self).store.revisions@.last();
                        &&& rev.review_id == resp.id
                        &&& rev.revision_number == 1
                        &&& rev.trigger is Manual
                        &&& rev.files@.len() == files@.len()
                        &&& forall|i: int|
                            0 <= i < files@.len() ==> crate::diff::file_eq(
                                #[trigger] rev.files@[i],
                                files@[i],
                            )
                    })
                    &&& final(self).store.threads@ == old(self).store.threads@
                    &&& final(self).agent_status@ == old(self).agent_status@
                    &&& final(self).presence == old(self).presence
                    &&& resp.status is Open
                    &&& resp.file_count == files@.len()
                    &&& resp.thread_count == 0
                    &&& resp.open_thread_count == 0
                    &&& resp.revision_count == 1
                    &&& resp.created_at == now
                    &&& resp.updated_at == now
                    &&& evs@.len() == 1
                    &&& evs@[0].event_type is ReviewCreated
                    &&& evs@[0].review_id == resp.id
                    &&& evs@[0].payload == EventPayload::Review(resp)
                    &&& evs@[0].timestamp == now
                },
                Err(e) => {
                    &&& e is Internal
                    &&& old(self).store.next_id >= u128::MAX - 1
                    &&& *final(self) == *old(self)
                },
            },
    {
        if self.store.next_id >= u128::MAX - 1 {
            return Err(ApiError::Internal(String::from_str("id space exhausted")));
        }
        proof {
            assert forall|j: int| 0 <= j < self.store.revisions@.len() implies (
            #[trigger] self.store.revisions@[j]).review_id != self.store.next_id by {
                let rid = self.store.revisions@[j].review_id;
                assert(has_review(self.store.reviews@, rid));
                let k = review_at(self.store.reviews@, rid);
                assert(self.store.reviews@[k].id < self.store.next_id);
            }
            crate::store::lemma_revs_of_absent(self.store.revisions@, self.store.next_id);
        }
        let ghost nfiles = files@.len();
        let rv = match self.store.create_review(
            crate::store::CreateReviewInput {
                title: req.title,
                repo_path: req.repo_path,
                base_ref: req.base_ref,
            },
            now,
        ) {
            Ok(rv) => rv,
            Err(e) => {
                return Err(ApiError::from_store(e));
            },
        };
        proof {
            assert(has_review(self.store.reviews@, rv.id)) by {
                assert(self.store.reviews@.last().id == rv.id);
            }
        }
        let file_count = files.len();
        let rev = match self.store.create_revision(
            crate::store::CreateRevisionInput {
                review_id: rv.id,
                trigger: crate::review::RevisionTrigger::Manual,
                message: None,
                files,
            },
            now,
        ) {
            Ok(rev) => rev,
            Err(e) => {
                return Err(ApiError::from_store(e));
            },
        };
        let resp = ReviewResponse {
            id: rv.id,
            title: crate::diff::clone_opt_string(&rv.title),
            status: rv.status,
            file_count,
            thread_count: 0,
            open_thread_count: 0,
            revision_count: 1,
            created_at: rv.created_at,
            updated_at: rv.updated_at,
        };
        let mut evs: Vec<WsEvent> = Vec::new();
        evs.push(
            WsEvent {
                event_type: WsEventType::ReviewCreated,
                review_id: resp.id,
                payload: EventPayload::Review(resp.clone()),
                timestamp: now,
            },
        );
        proof {
            assert(review_at(self.store.reviews@, resp.id) == self.store.reviews@.len() - 1) by {
                let k = review_at(self.store.reviews@, resp.id);
                assert(has_review(self.store.reviews@, resp.id)) by {
                    assert(self.store.reviews@.last().id == resp.id);
                }
                if k != self.store.reviews@.len() - 1 {
                    assert(self.store.reviews@[k].id == resp.id);
                    assert(old(self).store.reviews@[k].id < old(self).store.next_id);
                }
            }
        }
        Ok((resp, evs))
    }

    /// Set a review's status and announce the change.
    pub fn update_review_status(&mut self, id: u128, status: ReviewStatus, now: i64) -> (r: Result<
        Vec<WsEvent>,
        ApiError,
    >)
        requires
            old(self).wf(),
        ensures
            final(self).wf(),
            match r {
                Ok(evs) => {
                    &&& has_review(old(self).store.reviews@, id)
                    &&& has_review(final(self).store.reviews@, id)
                    &&& ({
                        let i = review_at(old(self).store.reviews@, id);
                        let rv = old(self).store.reviews@[i];
                        final(self).store.reviews@ == old(self).store.reviews@.update(
                            i,
                            Review {
                                status,
                                updated_at: if now > rv.updated_at {
                                    now
                                } else {
                                    rv.updated_at
                                },
                                ..rv
                            },
                        )
                    })
                    &&& review_of(final(self).store.reviews@, id).status == status
                    &&& review_of(final(self).store.reviews@, id).updated_at >= review_of(
                        old(self).store.reviews@,
                        id,
                    ).updated_at
                    &&& final(self).store.threads@ == old(self).store.threads@
                    &&& final(self).store.revisions@ == old(self).store.revisions@
                    &&& final(self).store.next_id == old(self).store.next_id
                    &&& final(self).agent_status@ == old(self).agent_status@
                    &&& final(self).presence == old(self).presence
                    &&& evs@.len() == 1
                    &&& evs@[0].event_type is ReviewStatusChanged
                    &&& evs@[0].review_id == id
                    &&& evs@[0].payload == EventPayload::ReviewStatus(status)
                    &&& evs@[0].timestamp == now
                },
                Err(e) => {
                    &&& !has_review(old(self).store.reviews@, id)
                    &&& e is NotFound
                    &&& *final(self) == *old(self)
                },
            },
    {
        let ghost oldreviews = self.store.reviews@;
        match self.store.update_review_status(id, status, now) {
            Ok(()) => {},
            Err(e) => {
                return Err(ApiError::from_store(e));
            },
        }
        proof {
            let i = review_at(oldreviews, id);
            assert(self.store.reviews@[i].id == id);
            assert(has_review(self.store.reviews@, id));
            let k = review_at(self.store.reviews@, id);
            if k != i {
                assert(self.store.reviews@[k].id == id);
                assert(oldreviews[k].id == id);
                if k < i {
                    assert(oldreviews[k].id != oldreviews[i].id);
                } else {
                    assert(oldreviews[i].id != oldreviews[k].id);
                }
            }
        }
        let mut evs: Vec<WsEvent> = Vec::new();
        evs.push(
            WsEvent {
                event_type: WsEventType::ReviewStatusChanged,
                review_id: id,
                payload: EventPayload::ReviewStatus(status),
                timestamp: now,
            },
        );
        Ok(evs)
    }

    /// Ask the agent for a new revision; only open reviews accept the
    /// request, and nothing is stored — one event is published.
    pub fn request_revision(&self, id: u128, now: i64) -> (r: Result<Vec<WsEvent>, ApiError>)
        requires
            self.wf(),
        ensures
            match r {
                Ok(evs) => {
                    &&& has_review(self.store.reviews@, id)
                    &&& review_of(self.store.reviews@, id).status is Open
                    &&& evs@.len() == 1
                    &&& evs@[0].event_type is RevisionRequested
                    &&& evs@[0].review_id == id
                    &&& evs@[0].payload is Empty
                    &&& evs@[0].timestamp == now
                },
                Err(e) => {
                    &&& (e is NotFound <==> !has_review(self.store.reviews@, id))
                    &&& (e is BadRequest <==> has_review(self.store.reviews@, id) && !(review_of(
                        self.store.reviews@,
                        id,
                    ).status is Open))
                    &&& (e is NotFound || e is BadRequest)
                },
            },
    {
        let rv = match self.store.get_review(id) {
            Ok(rv) => rv,
            Err(e) => {
                return Err(ApiError::from_store(e));
            },
        };
        let open = match rv.status {
            ReviewStatus::Open => true,
            _ => false,
        };
        if !open {
            return Err(ApiError::BadRequest(String::from_str("review is not open")));
        }
        let mut evs: Vec<WsEvent> = Vec::new();
        evs.push(
            WsEvent {
                event_type: WsEventType::RevisionRequested,
                review_id: id,
                payload: EventPayload::Empty,
                timestamp: now,
            },
        );
        Ok(evs)
    }

    /// Delete a review with its threads and revisions, announcing it.
    pub fn delete_review(&mut self, id: u128, now: i64) -> (r: Result<Vec<WsEvent>, ApiError>)
        requires
            old(self).wf(),
        ensures
            final(self).wf(),
            match r {
                Ok(evs) => {
                    &&& has_review(old(self).store.reviews@, id)
                    &&& !has_review(final(self).store.reviews@, id)
                    &&& threads_of(final(self).store.threads@, id) == Seq::<CommentThread>::empty()
                    &&& revs_of(final(self).store.revisions@, id) == Seq::<Revision>::empty()
                    &&& evs@.len() == 1
                    &&& evs@[0].event_type is ReviewDeleted
                    &&& evs@[0].review_id == id
                    &&& evs@[0].payload == (EventPayload::Deleted { review_id: id })
                    &&& evs@[0].timestamp == now
                },
                Err(e) => !has_review(old(self).store.reviews@, id) && e is NotFound,
            },
    {
        match self.store.delete_review(id) {
            Ok(()) => {},
            Err(e) => {
                return Err(ApiError::from_store(e));
            },
        }
        let mut evs: Vec<WsEvent> = Vec::new();
        evs.push(
            WsEvent {
                event_type: WsEventType::ReviewDeleted,
                review_id: id,
                payload: EventPayload::Deleted { review_id: id },
                timestamp: now,
            },
        );
        Ok(evs)
    }

    /// Delete every closed review, announcing each deletion.
    pub fn delete_closed_reviews(&mut self, now: i64) -> (r: (Vec<u128>, Vec<WsEvent>))
        requires
            old(self).wf(),
        ensures
            final(self).wf(),
            r.0@ == crate::store::closed_ids_list(old(self).store.reviews@),
            final(self).store.reviews@ == crate::store::reviews_minus(
                old(self).store.reviews@,
                crate::store::closed_review_ids(old(self).store.reviews@),
            ),
            crate::store::threads_like(
                final(self).store.threads@,
                crate::store::threads_minus(
                    old(self).store.threads@,
                    crate::store::closed_review_ids(old(self).store.reviews@),
                ),
            ),
            crate::store::revisions_like(
                final(self).store.revisions@,
                crate::store::revisions_minus(
                    old(self).store.revisions@,
                    crate::store::closed_review_ids(old(self).store.reviews@),
                ),
            ),
            final(self).store.next_id == old(self).store.next_id,
            final(self).agent_status@ == old(self).agent_status@,
            final(self).presence == old(self).presence,
            r.1@.len() == r.0@.len(),
            forall|i: int|
                0 <= i < r.1@.len() ==> {
                    let e = #[trigger] r.1@[i];
                    &&& e.event_type is ReviewDeleted
                    &&& e.review_id == r.0@[i]
                    &&& e.payload == (EventPayload::Deleted { review_id: r.0@[i] })
                    &&& e.timestamp == now
                },
    {
        let ids = self.store.delete_closed_reviews();
        let mut evs: Vec<WsEvent> = Vec::new();
        let n = ids.len();
        for i in 0..n
            invariant
                n == ids@.len(),
                evs@.len() == i,
                forall|k: int|
                    0 <= k < i ==> {
                        let e = #[trigger] evs@[k];
                        &&& e.event_type is ReviewDeleted
                        &&& e.review_id == ids@[k]
                        &&& e.payload == (EventPayload::Deleted { review_id: ids@[k] })
                        &&& e.timestamp == now
                    },
        {
            evs.push(
                WsEvent {
                    event_type: WsEventType::ReviewDeleted,
                    review_id: ids[i],
                    payload: EventPayload::Deleted { review_id: ids[i] },
                    timestamp: now,
                },
            );
        }
        (ids, evs)
    }
}


impl ReviewService {
    /// Open a thread on a review with its first comment, announcing it.
    pub fn create_thread(&mut self, review_id: u128, req: CreateThreadRequest, now: i64) -> (r:
        Result<(ThreadResponse, Vec<WsEvent>), ApiError>)
        requires
            old(self).wf(),
        ensures
            final(self).wf(),
            match r {
                Ok((resp, evs)) => {
                    &&& has_review(old(self).store.reviews@, review_id)
                    &&& req.line_start <= req.line_end
                    &&& final(self).store.threads@.len() == old(self).store.threads@.len() + 1
                    &&& ({
                        let nt = final(self).store.threads@.last();
                        &&& thread_resp_matches(resp, nt, None)
                        &&& nt.review_id == review_id
                        &&& nt.file_path@ == req.file_path@
                        &&& nt.line_start == req.line_start
                        &&& nt.line_end == req.line_end
                        &&& nt.origin == req.origin
                        &&& nt.status is Open
                        &&& nt.created_at == now
                        &&& nt.updated_at == now
                        &&& nt.comments@.len() == 1
                        &&& nt.comments@[0].body@ == req.body@
                        &&& nt.comments@[0].author_type == req.author_type
                    })
                    &&& final(self).store.reviews@ == old(self).store.reviews@
                    &&& final(self).store.revisions@ == old(self).store.revisions@
                    &&& final(self).agent_status@ == old(self).agent_status@
                    &&& final(self).presence == old(self).presence
                    &&& evs@.len() == 1
                    &&& evs@[0].event_type is ThreadCreated
                    &&& evs@[0].review_id == review_id
                    &&& (match evs@[0].payload {
                        EventPayload::Thread(t) => crate::types::thread_response_eq(t, resp),
                        _ => false,
                    })
                    &&& evs@[0].timestamp == now
                },
                Err(e) => {
                    &&& (e is BadRequest <==> req.line_start > req.line_end)
                    &&& (e is NotFound <==> req.line_start <= req.line_end && !has_review(
                        old(self).store.reviews@,
                        review_id,
                    ))
                    &&& (e is Internal <==> req.line_start <= req.line_end && has_review(
                        old(self).store.reviews@,
                        review_id,
                    ) && old(self).store.next_id >= u128::MAX - 1)
                    &&& (e is BadRequest || e is NotFound || e is Internal)
                    &&& *final(self) == *old(self)
                },
            },
    {
        if req.line_start > req.line_end {
            return Err(ApiError::BadRequest(String::from_str("invalid line range")));
        }
        if !self.store.review_exists(review_id) {
            return Err(ApiError::NotFound(String::from_str("review not found")));
        }
        if self.store.next_id >= u128::MAX - 1 {
            return Err(ApiError::Internal(String::from_str("id space exhausted")));
        }
        let t = match self.store.create_thread(
            crate::store::CreateThreadInput {
                review_id,
                file_path: req.file_path,
                line_start: req.line_start,
                line_end: req.line_end,
                origin: req.origin,
                initial_comment_body: req.body,
                initial_comment_author: req.author_type,
                revision_number: None,
                content_snippet: None,
            },
            now,
        ) {
            Ok(t) => t,
            Err(e) => {
                return Err(ApiError::from_store(e));
            },
        };
        let resp = self.thread_to_response(&t, None);
        let mut evs: Vec<WsEvent> = Vec::new();
        evs.push(
            WsEvent {
                event_type: WsEventType::ThreadCreated,
                review_id,
                payload: EventPayload::Thread(resp.clone()),
                timestamp: now,
            },
        );
        Ok((resp, evs))
    }

    /// Build a thread's listing entry.
    fn thread_to_response(&self, t: &CommentThread, st: Option<AgentStatus>) -> (r: ThreadResponse)
        ensures
            thread_resp_matches(r, *t, st),
    {
        let mut comments: Vec<CommentResponse> = Vec::new();
        let n = t.comments.len();
        for i in 0..n
            invariant
                n == t.comments@.len(),
                comments@.len() == i,
                forall|k: int|
                    0 <= k < i ==> {
                        let c = (#[trigger] comments@[k]);
                        let o = t.comments@[k];
                        c.id == o.id && c.author_type == o.author_type && c.body@ == o.body@
                            && c.created_at == o.created_at
                    },
        {
            let c = &t.comments[i];
            comments.push(
                CommentResponse {
                    id: c.id,
                    author_type: c.author_type,
                    body: c.body.clone(),
                    created_at: c.created_at,
                },
            );
        }
        ThreadResponse {
            id: t.id,
            review_id: t.review_id,
            file_path: t.file_path.clone(),
            line_start: t.line_start,
            line_end: t.line_end,
            origin: t.origin,
            status: t.status,
            agent_status: st,
            comments,
            created_at: t.created_at,
            updated_at: t.updated_at,
        }
    }

    /// The threads of a review, each joined with the agent-status map;
    /// optionally only those on one file.
    pub fn list_threads(&self, review_id: u128, file: Option<&str>) -> (r: Result<
        Vec<ThreadResponse>,
        ApiError,
    >)
        requires
            self.wf(),
        ensures
            ({
                let f = match file {
                    Some(s) => Some(s@),
                    None => None,
                };
                match r {
                    Ok(v) => {
                        &&& has_review(self.store.reviews@, review_id)
                        &&& v@.len() == threads_sel(self.store.threads@, review_id, f).len()
                        &&& forall|i: int|
                            0 <= i < v@.len() ==> thread_resp_matches(
                                #[trigger] v@[i],
                                threads_sel(self.store.threads@, review_id, f)[i],
                                status_of(
                                    self.agent_status@,
                                    threads_sel(self.store.threads@, review_id, f)[i].id,
                                ),
                            )
                    },
                    Err(e) => !has_review(self.store.reviews@, review_id) && e is NotFound,
                }
            }),
    {
        let ts = match self.store.get_threads(review_id, file) {
            Ok(ts) => ts,
            Err(e) => {
                return Err(ApiError::from_store(e));
            },
        };
        let ghost f = match file {
            Some(s) => Some(s@),
            None => None,
        };
        let ghost sel = threads_sel(self.store.threads@, review_id, f);
        let mut v: Vec<ThreadResponse> = Vec::new();
        let n = ts.len();
        for i in 0..n
            invariant
                self.wf(),
                n == ts@.len(),
                n == sel.len(),
                forall|k: int|
                    0 <= k < n ==> crate::review::thread_eq(#[trigger] ts@[k], sel[k]),
                v@.len() == i,
                forall|k: int|
                    0 <= k < i ==> thread_resp_matches(
                        #[trigger] v@[k],
                        sel[k],
                        status_of(self.agent_status@, sel[k].id),
                    ),
        {
            let st = self.agent_status_of(ts[i].id);
            let resp = self.thread_to_response(&ts[i], st);
            proof {
                assert(crate::review::thread_eq(ts@[i as int], sel[i as int]));
                assert(thread_resp_matches(resp, sel[i as int], st));
            }
            v.push(resp);
        }
        Ok(v)
    }

    /// Set a thread's status and announce the change on its review.
    pub fn update_thread_status(&mut self, thread_id: u128, status: ThreadStatus, now: i64) -> (r:
        Result<Vec<WsEvent>, ApiError>)
        requires
            old(self).wf(),
        ensures
            final(self).wf(),
            match r {
                Ok(evs) => {
                    &&& has_thread(old(self).store.threads@, thread_id)
                    &&& has_thread(final(self).store.threads@, thread_id)
                    &&& thread_of(final(self).store.threads@, thread_id).status == status
                    &&& evs@.len() == 1
                    &&& evs@[0].event_type is ThreadStatusChanged
                    &&& evs@[0].review_id == thread_of(old(self).store.threads@, thread_id)
                        .review_id
                    &&& evs@[0].payload == (EventPayload::ThreadStatus { thread_id, status })
                    &&& evs@[0].timestamp == now
                },
                Err(e) => !has_thread(old(self).store.threads@, thread_id) && e is NotFound,
            },
    {
        let t = match self.store.get_thread(thread_id) {
            Ok(t) => t,
            Err(e) => {
                return Err(ApiError::from_store(e));
            },
        };
        let ghost oldthreads = self.store.threads@;
        match self.store.update_thread_status(thread_id, status, now) {
            Ok(()) => {},
            Err(e) => {
                return Err(ApiError::from_store(e));
            },
        }
        proof {
            lemma_thread_at_stable(oldthreads, self.store.threads@, thread_id);
        }
        let mut evs: Vec<WsEvent> = Vec::new();
        evs.push(
            WsEvent {
                event_type: WsEventType::ThreadStatusChanged,
                review_id: t.review_id,
                payload: EventPayload::ThreadStatus { thread_id, status },
                timestamp: now,
            },
        );
        Ok(evs)
    }

    /// Record the agent's status for a thread and announce it.
    pub fn set_agent_status(&mut self, thread_id: u128, status: AgentStatus, now: i64) -> (r:
        Result<Vec<WsEvent>, ApiError>)
        requires
            old(self).wf(),
        ensures
            final(self).wf(),
            match r {
                Ok(evs) => {
                    &&& has_thread(old(self).store.threads@, thread_id)
                    &&& status_of(final(self).agent_status@, thread_id) == Some(status)
                    &&& final(self).store == old(self).store
                    &&& evs@.len() == 1
                    &&& evs@[0].event_type is ThreadAcknowledged
                    &&& evs@[0].review_id == thread_of(old(self).store.threads@, thread_id)
                        .review_id
                    &&& evs@[0].payload == (EventPayload::AgentAck { thread_id, status })
                    &&& evs@[0].timestamp == now
                },
                Err(e) => !has_thread(old(self).store.threads@, thread_id) && e is NotFound,
            },
    {
        let t = match self.store.get_thread(thread_id) {
            Ok(t) => t,
            Err(e) => {
                return Err(ApiError::from_store(e));
            },
        };
        self.set_status(thread_id, status);
        let mut evs: Vec<WsEvent> = Vec::new();
        evs.push(
            WsEvent {
                event_type: WsEventType::ThreadAcknowledged,
                review_id: t.review_id,
                payload: EventPayload::AgentAck { thread_id, status },
                timestamp: now,
            },
        );
        Ok(evs)
    }

    /// Append a comment to a thread.  Any new comment clears the thread's
    /// agent status — a human comment invalidates a prior acknowledgment,
    /// an agent comment means the agent has finished — and the comment is
    /// announced on the thread's review.
    pub fn add_comment(
        &mut self,
        thread_id: u128,
        author_type: crate::review::AuthorType,
        body: String,
        now: i64,
    ) -> (r: Result<(CommentResponse, Vec<WsEvent>), ApiError>)
        requires
            old(self).wf(),
        ensures
            final(self).wf(),
            match r {
                Ok((resp, evs)) => {
                    &&& has_thread(old(self).store.threads@, thread_id)
                    &&& has_thread(final(self).store.threads@, thread_id)
                    &&& ({
                        let ot = thread_of(old(self).store.threads@, thread_id);
                        let c = Comment {
                            id: old(self).store.next_id,
                            author_type,
                            body,
                            created_at: if now >= ot.created_at {
                                now
                            } else {
                                ot.created_at
                            },
                        };
                        &&& thread_of(final(self).store.threads@, thread_id).comments@
                            == ot.comments@.push(c)
                        &&& c.created_at >= ot.created_at
                        &&& resp.id == c.id
                        &&& resp.author_type == author_type
                        &&& resp.body@ == body@
                        &&& resp.created_at == c.created_at
                    })
                    &&& final(self).store.reviews@ == old(self).store.reviews@
                    &&& final(self).store.revisions@ == old(self).store.revisions@
                    &&& status_of(final(self).agent_status@, thread_id) is None
                    &&& forall|o: u128|
                        o != thread_id ==> #[trigger] status_of(final(self).agent_status@, o)
                            == status_of(old(self).agent_status@, o)
                    &&& evs@.len() == 1
                    &&& evs@[0].event_type is CommentAdded
                    &&& evs@[0].review_id == thread_of(old(self).store.threads@, thread_id)
                        .review_id
                    &&& (match evs@[0].payload {
                        EventPayload::Comment { thread_id: tid2, comment: c2 } => tid2 == thread_id
                            && c2 == resp,
                        _ => false,
                    })
                    &&& evs@[0].timestamp == now
                },
                Err(e) => {
                    &&& (e is NotFound <==> !has_thread(old(self).store.threads@, thread_id))
                    &&& (e is Internal <==> has_thread(old(self).store.threads@, thread_id) && old(
                        self,
                    ).store.next_id == u128::MAX)
                    &&& (e is NotFound || e is Internal)
                    &&& *final(self) == *old(self)
                },
            },
    {
        let t = match self.store.get_thread(thread_id) {
            Ok(t) => t,
            Err(e) => {
                return Err(ApiError::from_store(e));
            },
        };
        if self.store.next_id == u128::MAX {
            return Err(ApiError::Internal(String::from_str("id space exhausted")));
        }
        let ghost oldthreads = self.store.threads@;
        let c = match self.store.add_comment(
            crate::store::AddCommentInput { thread_id, author_type, body },
            now,
        ) {
            Ok(c) => c,
            Err(e) => {
                return Err(ApiError::from_store(e));
            },
        };
        self.clear_status(thread_id);
        proof {
            lemma_thread_at_stable(oldthreads, self.store.threads@, thread_id);
        }
        let resp = CommentResponse {
            id: c.id,
            author_type: c.author_type,
            body: c.body,
            created_at: c.created_at,
        };
        let mut evs: Vec<WsEvent> = Vec::new();
        evs.push(
            WsEvent {
                event_type: WsEventType::CommentAdded,
                review_id: t.review_id,
                payload: EventPayload::Comment { thread_id, comment: resp.clone() },
                timestamp: now,
            },
        );
        Ok((resp, evs))
    }

    /// Whether the agent is currently attached to a review.
    pub fn get_agent_presence(&self, review_id: u128) -> (r: Result<AgentPresenceResponse, ApiError>)
        requires
            self.wf(),
        ensures
            match r {
                Ok(resp) => has_review(self.store.reviews@, review_id) && resp.connected
                    == spec_connected(self.presence.entries@, review_id),
                Err(e) => !has_review(self.store.reviews@, review_id) && e is NotFound,
            },
    {
        match self.store.get_review(review_id) {
            Ok(_) => {},
            Err(e) => {
                return Err(ApiError::from_store(e));
            },
        }
        Ok(AgentPresenceResponse { connected: self.presence.is_connected(review_id) })
    }

    /// Record the agent's presence.  A connect fires the presence event
    /// only when the agent was not already connected; a disconnect only
    /// schedules the grace-period expiry, whose deadline is returned for
    /// the caller to time.
    pub fn update_agent_presence(&mut self, review_id: u128, connected: bool, now: i64) -> (r:
        Result<(Vec<WsEvent>, Option<i64>), ApiError>)
        requires
            old(self).wf(),
        ensures
            final(self).wf(),
            final(self).store == old(self).store,
            match r {
                Ok((evs, deadline)) => {
                    &&& has_review(old(self).store.reviews@, review_id)
                    &&& (connected ==> {
                        &&& final(self).presence.entries@ == spec_register(
                            old(self).presence.entries@,
                            review_id,
                        ).0
                        &&& deadline is None
                        &&& (spec_register(old(self).presence.entries@, review_id).1 ==> evs@.len()
                            == 1 && evs@[0].event_type is AgentPresenceChanged && evs@[0].review_id
                            == review_id && evs@[0].payload == (EventPayload::Presence {
                            connected: true,
                        }) && evs@[0].timestamp == now)
                        &&& (!spec_register(old(self).presence.entries@, review_id).1 ==> evs@.len()
                            == 0)
                    })
                    &&& (!connected ==> {
                        &&& final(self).presence.entries@ == spec_deregister(
                            old(self).presence.entries@,
                            review_id,
                            now,
                        )
                        &&& evs@.len() == 0
                        &&& deadline == (if crate::presence::has_entry(
                            old(self).presence.entries@,
                            review_id,
                        ) {
                            Some(spec_deadline(now))
                        } else {
                            Option::<i64>::None
                        })
                    })
                },
                Err(e) => !has_review(old(self).store.reviews@, review_id) && e is NotFound,
            },
    {
        match self.store.get_review(review_id) {
            Ok(_) => {},
            Err(e) => {
                return Err(ApiError::from_store(e));
            },
        }
        let mut evs: Vec<WsEvent> = Vec::new();
        if connected {
            let emitted = self.presence.register(review_id);
            if emitted {
                evs.push(
                    WsEvent {
                        event_type: WsEventType::AgentPresenceChanged,
                        review_id,
                        payload: EventPayload::Presence { connected: true },
                        timestamp: now,
                    },
                );
            }
            Ok((evs, None))
        } else {
            let deadline = self.presence.deregister(review_id, now);
            Ok((evs, deadline))
        }
    }

    /// Let a scheduled disconnect expire: the disconnect event fires only
    /// when that deadline is still pending and the agent still counts as
    /// connected.
    pub fn fire_presence(&mut self, review_id: u128, deadline: i64, now: i64) -> (evs: Vec<WsEvent>)
        requires
            old(self).wf(),
        ensures
            final(self).wf(),
            final(self).store == old(self).store,
            final(self).presence.entries@ == spec_fire(
                old(self).presence.entries@,
                review_id,
                deadline,
            ).0,
            spec_fire(old(self).presence.entries@, review_id, deadline).1 ==> evs@.len() == 1
                && evs@[0].event_type is AgentPresenceChanged && evs@[0].review_id == review_id
                && evs@[0].payload == (EventPayload::Presence { connected: false })
                && evs@[0].timestamp == now,
            !spec_fire(old(self).presence.entries@, review_id, deadline).1 ==> evs@.len() == 0,
    {
        let mut evs: Vec<WsEvent> = Vec::new();
        let emitted = self.presence.fire(review_id, deadline);
        if emitted {
            evs.push(
                WsEvent {
                    event_type: WsEventType::AgentPresenceChanged,
                    review_id,
                    payload: EventPayload::Presence { connected: false },
                    timestamp: now,
                },
            );
        }
        evs
    }
}

/// An update that keeps a thread's id keeps its slot under `thread_at`.
proof fn lemma_thread_at_stable(o: Seq<CommentThread>, s: Seq<CommentThread>, tid: u128)
    requires
        forall|a: int, b: int|
            0 <= a < b < o.len() ==> (#[trigger] o[a]).id != (#[trigger] o[b]).id,
        has_thread(o, tid),
        s.len() == o.len(),
        forall|j: int| 0 <= j < o.len() && j != thread_at(o, tid) ==> s[j] == o[j],
        s[thread_at(o, tid)].id == tid,
    ensures
        has_thread(s, tid),
        thread_at(s, tid) == thread_at(o, tid),
{
    let i = thread_at(o, tid);
    assert(s[i].id == tid);
    assert(has_thread(s, tid));
    let k = thread_at(s, tid);
    if k != i {
        assert(s[k].id == tid);
        assert(o[k].id == tid);
        if k < i {
            assert(o[k].id != o[i].id);
        } else {
            assert(o[i].id != o[k].id);
        }
    }
}


/// A revision's listing entry carries its fields and its file count.
pub open spec fn rev_resp_matches(r: RevisionResponse, rev: Revision) -> bool {
    &&& r.id == rev.id
    &&& r.review_id == rev.review_id
    &&& r.revision_number == rev.revision_number
    &&& r.trigger == rev.trigger
    &&& (match (r.message, rev.message) {
        (Some(a), Some(b)) => a@ == b@,
        (None, None) => true,
        _ => false,
    })
    &&& r.file_count == rev.files@.len()
    &&& r.created_at == rev.created_at
}

/// First index in `files` whose effective path is `p`, from `pos` on;
/// `files.len()` when there is none.
pub open spec fn find_file_from(files: Seq<crate::diff::FileDiff>, p: Seq<char>, pos: int) -> int
    decreases files.len() - pos,
{
    if pos < 0 || pos >= files.len() {
        files.len() as int
    } else if files[pos].spec_effective_path() == Some(p) {
        pos
    } else {
        find_file_from(files, p, pos + 1)
    }
}

/// The highlighted row a numbered line picks from one side's markup.
pub open spec fn pick_hl(hl: Option<Seq<Seq<char>>>, n: Option<u32>) -> Option<Seq<char>> {
    match (hl, n) {
        (Some(rows), Some(num)) => if num >= 1 && num - 1 < rows.len() {
            Some(rows[num - 1])
        } else {
            None
        },
        _ => None,
    }
}

/// A decorated line keeps the parsed line and carries the markup of its
/// side: the old side's row for a removal, the new side's otherwise.
pub open spec fn line_decorated(
    orig: crate::diff::DiffLine,
    d: crate::diff::DiffLine,
    oh: Option<Seq<Seq<char>>>,
    nh: Option<Seq<Seq<char>>>,
) -> bool {
    &&& d.kind == orig.kind
    &&& d.content@ == orig.content@
    &&& d.old_line_no == orig.old_line_no
    &&& d.new_line_no == orig.new_line_no
    &&& crate::parser::view_opt_str(d.highlighted) == (if orig.kind is Removed {
        pick_hl(oh, orig.old_line_no)
    } else {
        pick_hl(nh, orig.new_line_no)
    })
}

/// A decorated hunk keeps its coordinates and decorates every line.
pub open spec fn hunk_decorated(
    orig: crate::diff::Hunk,
    d: crate::diff::Hunk,
    oh: Option<Seq<Seq<char>>>,
    nh: Option<Seq<Seq<char>>>,
) -> bool {
    &&& d.old_start == orig.old_start
    &&& d.old_count == orig.old_count
    &&& d.new_start == orig.new_start
    &&& d.new_count == orig.new_count
    &&& crate::parser::view_opt_str(d.context) == crate::parser::view_opt_str(orig.context)
    &&& d.lines@.len() == orig.lines@.len()
    &&& forall|i: int|
        0 <= i < d.lines@.len() ==> line_decorated(orig.lines@[i], #[trigger] d.lines@[i], oh, nh)
}

impl ReviewService {
    /// The revisions of a review, numbered 1..N in order.
    pub fn list_revisions(&self, review_id: u128) -> (r: Result<Vec<RevisionResponse>, ApiError>)
        requires
            self.wf(),
        ensures
            match r {
                Ok(v) => {
                    &&& has_review(self.store.reviews@, review_id)
                    &&& v@.len() == revs_of(self.store.revisions@, review_id).len()
                    &&& forall|i: int|
                        0 <= i < v@.len() ==> rev_resp_matches(
                            #[trigger] v@[i],
                            revs_of(self.store.revisions@, review_id)[i],
                        )
                    &&& forall|i: int|
                        0 <= i < v@.len() ==> (#[trigger] v@[i]).revision_number == i + 1
                },
                Err(e) => !has_review(self.store.reviews@, review_id) && e is NotFound,
            },
    {
        let revs = match self.store.get_revisions(review_id) {
            Ok(v) => v,
            Err(e) => {
                return Err(ApiError::from_store(e));
            },
        };
        let ghost sel = revs_of(self.store.revisions@, review_id);
        let mut v: Vec<RevisionResponse> = Vec::new();
        let n = revs.len();
        for i in 0..n
            invariant
                n == revs@.len(),
                n == sel.len(),
                forall|k: int|
                    0 <= k < n ==> crate::review::revision_eq(#[trigger] revs@[k], sel[k]),
                forall|k: int| 0 <= k < n ==> (#[trigger] revs@[k]).revision_number == k + 1,
                v@.len() == i,
                forall|k: int|
                    0 <= k < i ==> rev_resp_matches(#[trigger] v@[k], sel[k]) && v@[k]
                        .revision_number == k + 1,
        {
            let rev = &revs[i];
            proof {
                assert(crate::review::revision_eq(revs@[i as int], sel[i as int]));
            }
            v.push(
                RevisionResponse {
                    id: rev.id,
                    review_id: rev.review_id,
                    revision_number: rev.revision_number,
                    trigger: rev.trigger,
                    message: crate::diff::clone_opt_string(&rev.message),
                    file_count: rev.files.len(),
                    created_at: rev.created_at,
                },
            );
        }
        Ok(v)
    }

    /// Submit a new revision over the freshly parsed `files`.  When the
    /// review's latest revision is structurally identical to `files` —
    /// the same files, hunk coordinates, line kinds and contents — the
    /// submission is rejected: no changes were detected since the last
    /// revision.  Otherwise the revision is appended and announced.
    pub fn create_revision(
        &mut self,
        review_id: u128,
        trigger: crate::review::RevisionTrigger,
        message: Option<String>,
        files: Vec<crate::diff::FileDiff>,
        now: i64,
    ) -> (r: Result<(RevisionResponse, Vec<WsEvent>), ApiError>)
        requires
            old(self).wf(),
        ensures
            final(self).wf(),
            match r {
                Ok((resp, evs)) => {
                    &&& has_review(old(self).store.reviews@, review_id)
                    &&& !(revs_of(old(self).store.revisions@, review_id).len() > 0
                        && crate::diff::spec_structurally_identical(
                        files@,
                        revs_of(old(self).store.revisions@, review_id).last().files@,
                    ))
                    &&& final(self).store.revisions@.len() == old(self).store.revisions@.len() + 1
                    &&& ({
                        let rev = final(self).store.revisions@.last();
                        &&& rev.review_id == review_id
                        &&& rev.revision_number == revs_of(
                            old(self).store.revisions@,
                            review_id,
                        ).len() + 1
                        &&& rev.trigger == trigger
                        &&& rev.files@.len() == files@.len()
                        &&& forall|i: int|
                            0 <= i < files@.len() ==> crate::diff::file_eq(
                                #[trigger] rev.files@[i],
                                files@[i],
                            )
                        &&& rev.message == message
                        &&& rev_resp_matches(resp, rev)
                    })
                    &&& forall|j: int|
                        0 <= j < old(self).store.revisions@.len() ==> final(self).store.revisions@[j]
                            == old(self).store.revisions@[j]
                    &&& final(self).store.reviews@ == old(self).store.reviews@
                    &&& final(self).store.threads@ == old(self).store.threads@
                    &&& final(self).agent_status@ == old(self).agent_status@
                    &&& final(self).presence == old(self).presence
                    &&& evs@.len() == 1
                    &&& evs@[0].event_type is RevisionCreated
                    &&& evs@[0].review_id == review_id
                    &&& evs@[0].payload == EventPayload::Revision(resp)
                    &&& evs@[0].timestamp == now
                },
                Err(e) => {
                    &&& (e is NotFound <==> !has_review(old(self).store.reviews@, review_id))
                    &&& (e is BadRequest <==> has_review(old(self).store.reviews@, review_id)
                        && revs_of(old(self).store.revisions@, review_id).len() > 0
                        && crate::diff::spec_structurally_identical(
                        files@,
                        revs_of(old(self).store.revisions@, review_id).last().files@,
                    ))
                    &&& (e is Internal <==> has_review(old(self).store.reviews@, review_id) && !(
                    revs_of(old(self).store.revisions@, review_id).len() > 0
                        && crate::diff::spec_structurally_identical(
                        files@,
                        revs_of(old(self).store.revisions@, review_id).last().files@,
                    )) && (old(self).store.next_id == u128::MAX || revs_of(
                        old(self).store.revisions@,
                        review_id,
                    ).len() >= u32::MAX))
                    &&& (e is NotFound || e is BadRequest || e is Internal)
                    &&& *final(self) == *old(self)
                },
            },
    {
        match self.store.get_latest_revision(review_id) {
            Ok(latest) => {
                let same = crate::diff::structurally_identical(&files, &latest.files);
                proof {
                    crate::diff::lemma_struct_identical_congr(
                        files@,
                        latest.files@,
                        revs_of(self.store.revisions@, review_id).last().files@,
                    );
                }
                if same {
                    return Err(
                        ApiError::BadRequest(
                            String::from_str("no changes detected since last revision"),
                        ),
                    );
                }
            },
            Err(e) => {
                match e {
                    StoreError::ReviewNotFound(_) => {
                        return Err(ApiError::NotFound(String::from_str("review not found")));
                    },
                    _ => {},
                }
            },
        }
        if self.store.next_id == u128::MAX {
            return Err(ApiError::Internal(String::from_str("id space exhausted")));
        }
        let mut cnt: usize = 0;
        let n = self.store.revisions.len();
        for j in 0..n
            invariant
                self.wf(),
                *self == *old(self),
                n == self.store.revisions@.len(),
                cnt <= j,
                cnt == revs_of(self.store.revisions@.take(j as int), review_id).len(),
        {
            proof {
                assert(self.store.revisions@.take(j + 1).drop_last() =~= self.store.revisions@.take(
                    j as int,
                ));
                assert(self.store.revisions@.take(j + 1).last() == self.store.revisions@[j as int]);
            }
            if self.store.revisions[j].review_id == review_id {
                cnt += 1;
            }
        }
        proof {
            assert(self.store.revisions@.take(self.store.revisions@.len() as int)
                =~= self.store.revisions@);
        }
        if cnt >= (u32::MAX as usize) {
            return Err(
                ApiError::Internal(String::from_str("revision number out of range")),
            );
        }
        let rev = match self.store.create_revision(
            crate::store::CreateRevisionInput { review_id, trigger, message, files },
            now,
        ) {
            Ok(rev) => rev,
            Err(e) => {
                return Err(ApiError::from_store(e));
            },
        };
        let resp = RevisionResponse {
            id: rev.id,
            review_id: rev.review_id,
            revision_number: rev.revision_number,
            trigger: rev.trigger,
            message: crate::diff::clone_opt_string(&rev.message),
            file_count: rev.files.len(),
            created_at: rev.created_at,
        };
        let mut evs: Vec<WsEvent> = Vec::new();
        evs.push(
            WsEvent {
                event_type: WsEventType::RevisionCreated,
                review_id,
                payload: EventPayload::Revision(resp.clone()),
                timestamp: now,
            },
        );
        Ok((resp, evs))
    }

    /// Fetch one revision of a review: the numbered one, or the latest
    /// when no number is given.
    fn select_revision(&self, review_id: u128, revision: Option<u32>) -> (r: Result<
        Revision,
        ApiError,
    >)
        requires
            self.wf(),
        ensures
            ({
                let revs = revs_of(self.store.revisions@, review_id);
                match r {
                    Ok(rev) => {
                        &&& has_review(self.store.reviews@, review_id)
                        &&& (match revision {
                            Some(n) => 1 <= n <= revs.len() && crate::review::revision_eq(
                                rev,
                                revs[n - 1],
                            ),
                            None => revs.len() > 0 && crate::review::revision_eq(rev, revs.last()),
                        })
                    },
                    Err(e) => {
                        &&& e is NotFound
                        &&& !(has_review(self.store.reviews@, review_id) && (match revision {
                            Some(n) => 1 <= n <= revs.len(),
                            None => revs.len() > 0,
                        }))
                    },
                }
            }),
    {
        let rev = match revision {
            Some(n) => self.store.get_revision(review_id, n),
            None => self.store.get_latest_revision(review_id),
        };
        match rev {
            Ok(rev) => Ok(rev),
            Err(e) => Err(ApiError::from_store(e)),
        }
    }

    /// The file list of a revision (the latest when none is named).
    pub fn list_files(&self, review_id: u128, revision: Option<u32>) -> (r: Result<
        Vec<crate::types::FileListEntry>,
        ApiError,
    >)
        requires
            self.wf(),
        ensures
            ({
                let revs = revs_of(self.store.revisions@, review_id);
                match r {
                    Ok(v) => {
                        &&& has_review(self.store.reviews@, review_id)
                        &&& (match revision {
                            Some(n) => 1 <= n <= revs.len(),
                            None => revs.len() > 0,
                        })
                        &&& ({
                            let files = (match revision {
                                Some(n) => revs[n - 1],
                                None => revs.last(),
                            }).files@;
                            &&& v@.len() == files.len()
                            &&& forall|i: int|
                                0 <= i < v@.len() ==> {
                                    let e = #[trigger] v@[i];
                                    &&& e.status == files[i].status
                                    &&& (match files[i].spec_effective_path() {
                                        Some(p) => e.path@ == p,
                                        None => e.path@ == Seq::<char>::empty(),
                                    })
                                }
                        })
                    },
                    Err(e) => {
                        &&& e is NotFound
                        &&& !(has_review(self.store.reviews@, review_id) && (match revision {
                            Some(n) => 1 <= n <= revs.len(),
                            None => revs.len() > 0,
                        }))
                    },
                }
            }),
    {
        let rev = match self.select_revision(review_id, revision) {
            Ok(rev) => rev,
            Err(e) => {
                return Err(e);
            },
        };
        let ghost files = (match revision {
            Some(n) => revs_of(self.store.revisions@, review_id)[n - 1],
            None => revs_of(self.store.revisions@, review_id).last(),
        }).files@;
        let mut v: Vec<crate::types::FileListEntry> = Vec::new();
        let n = rev.files.len();
        for i in 0..n
            invariant
                n == rev.files@.len(),
                n == files.len(),
                forall|k: int|
                    0 <= k < n ==> crate::diff::file_eq(#[trigger] rev.files@[k], files[k]),
                v@.len() == i,
                forall|k: int|
                    0 <= k < i ==> {
                        let e = #[trigger] v@[k];
                        &&& e.status == files[k].status
                        &&& (match files[k].spec_effective_path() {
                            Some(p) => e.path@ == p,
                            None => e.path@ == Seq::<char>::empty(),
                        })
                    },
        {
            proof {
                assert(crate::diff::file_eq(rev.files@[i as int], files[i as int]));
            }
            let path = match rev.files[i].effective_path() {
                Some(p) => p.clone(),
                None => String::new(),
            };
            v.push(crate::types::FileListEntry { path, status: rev.files[i].status });
        }
        Ok(v)
    }
}


/// Find the file a path addresses in a revision's (cloned) file list.
fn find_file_in(
    files_vec: &Vec<crate::diff::FileDiff>,
    Ghost(files): Ghost<Seq<crate::diff::FileDiff>>,
    path: &str,
) -> (r: Option<usize>)
    requires
        files_vec@.len() == files.len(),
        forall|k: int|
            0 <= k < files.len() ==> crate::diff::file_eq(#[trigger] files_vec@[k], files[k]),
    ensures
        match r {
            Some(i) => i < files.len() && find_file_from(files, path@, 0) == i as int && files[
                i as int
            ].spec_effective_path() == Some(path@),
            None => find_file_from(files, path@, 0) == files.len(),
        },
{
    let n = files_vec.len();
    let mut i: usize = 0;
    while i < n
        invariant
            n == files_vec@.len(),
            n == files.len(),
            forall|k: int|
                0 <= k < files.len() ==> crate::diff::file_eq(#[trigger] files_vec@[k], files[k]),
            i <= n,
            find_file_from(files, path@, 0) == find_file_from(files, path@, i as int),
        decreases n - i,
    {
        proof {
            assert(crate::diff::file_eq(files_vec@[i as int], files[i as int]));
        }
        let hit = match files_vec[i].effective_path() {
            Some(p) => crate::events::str_eq(p.as_str(), path),
            None => false,
        };
        if hit {
            proof {
                assert(files[i as int].spec_effective_path() == Some(path@));
                assert(find_file_from(files, path@, i as int) == i as int);
            }
            return Some(i);
        }
        proof {
            assert(files[i as int].spec_effective_path() != Some(path@));
        }
        i += 1;
    }
    proof {
        assert(find_file_from(files, path@, n as int) == files.len());
    }
    None
}

impl ReviewService {
    /// One file's diff in a revision (the latest when none is named),
    /// with both sides rebuilt from the hunks, highlighted, and each
    /// line decorated with its side's markup.
    pub fn get_file_diff(&self, review_id: u128, file_path: &str, revision: Option<u32>) -> (r:
        Result<crate::types::FileDiffResponse, ApiError>)
        requires
            self.wf(),
        ensures
            ({
                let revs = revs_of(self.store.revisions@, review_id);
                match r {
                    Ok(resp) => {
                        &&& has_review(self.store.reviews@, review_id)
                        &&& (match revision {
                            Some(n) => 1 <= n <= revs.len(),
                            None => revs.len() > 0,
                        })
                        &&& ({
                            let files = (match revision {
                                Some(n) => revs[n - 1],
                                None => revs.last(),
                            }).files@;
                            let fi = find_file_from(files, file_path@, 0);
                            &&& fi < files.len()
                            &&& files[fi].spec_effective_path() == Some(resp.path@)
                            &&& resp.path@ == file_path@
                            &&& crate::parser::view_opt_str(resp.old_path)
                                == crate::parser::view_opt_str(files[fi].old_path)
                            &&& resp.status == files[fi].status
                            &&& ({
                                let lines = crate::interdiff::spec_all_lines(files[fi].hunks@);
                                let oh = crate::highlight::highlight_of(
                                    crate::interdiff::spec_side_content(lines, true),
                                    resp.path@,
                                    "sy-"@,
                                );
                                let nh = crate::highlight::highlight_of(
                                    crate::interdiff::spec_side_content(lines, false),
                                    resp.path@,
                                    "sy-"@,
                                );
                                &&& resp.hunks@.len() == files[fi].hunks@.len()
                                &&& forall|k: int|
                                    0 <= k < resp.hunks@.len() ==> hunk_decorated(
                                        files[fi].hunks@[k],
                                        #[trigger] resp.hunks@[k],
                                        oh,
                                        nh,
                                    )
                            })
                        })
                    },
                    Err(e) => {
                        &&& e is NotFound
                        &&& !({
                            &&& has_review(self.store.reviews@, review_id)
                            &&& (match revision {
                                Some(n) => 1 <= n <= revs.len(),
                                None => revs.len() > 0,
                            })
                            &&& ({
                                let files = (match revision {
                                    Some(n) => revs[n - 1],
                                    None => revs.last(),
                                }).files@;
                                find_file_from(files, file_path@, 0) < files.len()
                            })
                        })
                    },
                }
            }),
    {
        let rev = match self.select_revision(review_id, revision) {
            Ok(rev) => rev,
            Err(e) => {
                return Err(e);
            },
        };
        let ghost files = (match revision {
            Some(n) => revs_of(self.store.revisions@, review_id)[n - 1],
            None => revs_of(self.store.revisions@, review_id).last(),
        }).files@;
        // find the file by its effective path
        let fi = match find_file_in(&rev.files, Ghost(files), file_path) {
            Some(i) => i,
            None => {
                return Err(ApiError::NotFound(String::from_str("file not found")));
            },
        };
        let fd = &rev.files[fi];
        let ghost forig = files[fi as int];
        proof {
            assert(crate::diff::file_eq(rev.files@[fi as int], forig));
            crate::interdiff::lemma_all_lines_like(fd.hunks@, forig.hunks@);
        }
        let path: String = match fd.effective_path() {
            Some(p) => p.clone(),
            None => String::new(),
        };
        let (old_content, new_content) = crate::interdiff::reconstruct_file_contents(
            fd.hunks.as_slice(),
        );
        let old_hl = self.highlighter.highlight_file(old_content.as_str(), path.as_str());
        let new_hl = self.highlighter.highlight_file(new_content.as_str(), path.as_str());
        let ghost lines0 = crate::interdiff::spec_all_lines(forig.hunks@);
        let ghost oh = crate::highlight::highlight_of(
            crate::interdiff::spec_side_content(lines0, true),
            path@,
            "sy-"@,
        );
        let ghost nh = crate::highlight::highlight_of(
            crate::interdiff::spec_side_content(lines0, false),
            path@,
            "sy-"@,
        );
        proof {
            match old_hl {
                Some(ref v) => {
                    assert(oh == Some(crate::types::str_views(v@)));
                },
                None => {
                    assert(oh is None);
                },
            }
            match new_hl {
                Some(ref v) => {
                    assert(nh == Some(crate::types::str_views(v@)));
                },
                None => {
                    assert(nh is None);
                },
            }
        }
        // decorate each line with the markup of its side
        let mut hunks: Vec<crate::diff::Hunk> = Vec::new();
        let m = fd.hunks.len();
        for h in 0..m
            invariant
                m == fd.hunks@.len(),
                m == forig.hunks@.len(),
                forall|k: int|
                    0 <= k < m ==> crate::diff::hunk_eq(#[trigger] fd.hunks@[k], forig.hunks@[k]),
                (match old_hl {
                    Some(ref v) => oh == Some(crate::types::str_views(v@)),
                    None => oh is None,
                }),
                (match new_hl {
                    Some(ref v) => nh == Some(crate::types::str_views(v@)),
                    None => nh is None,
                }),
                hunks@.len() == h,
                forall|k: int|
                    0 <= k < h ==> hunk_decorated(forig.hunks@[k], #[trigger] hunks@[k], oh, nh),
        {
            let src = &fd.hunks[h];
            let mut dlines: Vec<crate::diff::DiffLine> = Vec::new();
            let lm = src.lines.len();
            for li in 0..lm
                invariant
                    m == fd.hunks@.len(),
                    m == forig.hunks@.len(),
                    h < m,
                    forall|k: int|
                        0 <= k < m ==> crate::diff::hunk_eq(
                            #[trigger] fd.hunks@[k],
                            forig.hunks@[k],
                        ),
                    lm == fd.hunks@[h as int].lines@.len(),
                    *src == fd.hunks@[h as int],
                    (match old_hl {
                        Some(ref v) => oh == Some(crate::types::str_views(v@)),
                        None => oh is None,
                    }),
                    (match new_hl {
                        Some(ref v) => nh == Some(crate::types::str_views(v@)),
                        None => nh is None,
                    }),
                    dlines@.len() == li,
                    forall|k: int|
                        0 <= k < li ==> line_decorated(
                            forig.hunks@[h as int].lines@[k],
                            #[trigger] dlines@[k],
                            oh,
                            nh,
                        ),
            {
                let line = &src.lines[li];
                let is_removed = match line.kind {
                    crate::diff::LineKind::Removed => true,
                    _ => false,
                };
                let side = if is_removed {
                    &old_hl
                } else {
                    &new_hl
                };
                let no = if is_removed {
                    line.old_line_no
                } else {
                    line.new_line_no
                };
                let highlighted: Option<String> = match (side, no) {
                    (Some(rows), Some(num)) => {
                        if num >= 1 && ((num - 1) as usize) < rows.len() {
                            Some(rows[(num - 1) as usize].clone())
                        } else {
                            None
                        }
                    },
                    _ => None,
                };
                let dl = crate::diff::DiffLine {
                    kind: line.kind,
                    content: line.content.clone(),
                    old_line_no: line.old_line_no,
                    new_line_no: line.new_line_no,
                    highlighted,
                };
                proof {
                    assert(fd.hunks@[h as int].lines@[li as int]
                        == forig.hunks@[h as int].lines@[li as int]);
                    assert(line_decorated(forig.hunks@[h as int].lines@[li as int], dl, oh, nh));
                }
                dlines.push(dl);
            }
            hunks.push(
                crate::diff::Hunk {
                    old_start: src.old_start,
                    old_count: src.old_count,
                    new_start: src.new_start,
                    new_count: src.new_count,
                    context: crate::diff::clone_opt_string(&src.context),
                    lines: dlines,
                },
            );
        }
        Ok(
            crate::types::FileDiffResponse {
                path,
                old_path: crate::diff::clone_opt_string(&fd.old_path),
                status: fd.status,
                hunks,
            },
        )
    }

    /// The path whose content an old-side request must read: under a
    /// rename, the latest revision's old path for the file; otherwise
    /// the requested path itself.
    pub fn resolve_old_read_path(&self, review_id: u128, file_path: &str) -> (r: Result<
        String,
        ApiError,
    >)
        requires
            self.wf(),
        ensures
            ({
                let revs = revs_of(self.store.revisions@, review_id);
                match r {
                    Ok(p) => {
                        &&& has_review(self.store.reviews@, review_id)
                        &&& revs.len() > 0
                        &&& ({
                            let files = revs.last().files@;
                            let fi = find_file_from(files, file_path@, 0);
                            p@ == (if fi < files.len() && files[fi].old_path is Some {
                                files[fi].old_path->0@
                            } else {
                                file_path@
                            })
                        })
                    },
                    Err(e) => {
                        &&& e is NotFound
                        &&& !(has_review(self.store.reviews@, review_id) && revs.len() > 0)
                    },
                }
            }),
    {
        let rev = match self.select_revision(review_id, None) {
            Ok(rev) => rev,
            Err(e) => {
                return Err(e);
            },
        };
        let ghost files = revs_of(self.store.revisions@, review_id).last().files@;
        match find_file_in(&rev.files, Ghost(files), file_path) {
            Some(i) => {
                proof {
                    assert(crate::diff::file_eq(rev.files@[i as int], files[i as int]));
                    assert(rev.files@[i as int].old_path == files[i as int].old_path);
                }
                match &rev.files[i].old_path {
                    Some(p) => Ok(p.clone()),
                    None => Ok(file_path.to_owned()),
                }
            },
            None => Ok(file_path.to_owned()),
        }
    }

    /// Turn a file's text into its content listing: one entry per line,
    /// numbered from one, each with its markup row when the language is
    /// known, along with the language's name.
    pub fn build_content_response(&self, path: String, content: &str) -> (r:
        crate::types::FileContentResponse)
        ensures
            ({
                let ls = crate::parser::spec_lines(content@);
                let hl = crate::highlight::highlight_of(content@, path@, "sy-"@);
                &&& r.path@ == path@
                &&& (match r.language {
                    Some(l) => crate::highlight::language_of(
                        match crate::highlight::ext_of(path@) {
                            Some(e) => e,
                            None => Seq::<char>::empty(),
                        },
                    ) == Some(l@),
                    None => crate::highlight::language_of(
                        match crate::highlight::ext_of(path@) {
                            Some(e) => e,
                            None => Seq::<char>::empty(),
                        },
                    ) is None,
                })
                &&& r.lines@.len() == ls.len()
                &&& forall|i: int|
                    0 <= i < r.lines@.len() ==> {
                        let e = #[trigger] r.lines@[i];
                        &&& e.line_no == ((i + 1) as u32)
                        &&& e.content@ == ls[i]
                        &&& crate::parser::view_opt_str(e.highlighted) == (match hl {
                            Some(rows) => Some(rows[i]),
                            None => None,
                        })
                    }
            }),
    {
        let hl = self.highlighter.highlight_file(content, path.as_str());
        let ext = match crate::highlight::path_extension(path.as_str()) {
            Some(e) => e,
            None => String::new(),
        };
        proof {
            reveal_strlit("");
        }
        let language = self.highlighter.language_name(ext.as_str());
        let raw = crate::interdiff::split_lines(content);
        let ghost ls = crate::parser::spec_lines(content@);
        let ghost hls = crate::highlight::highlight_of(content@, path@, "sy-"@);
        let mut lines: Vec<crate::types::FileContentLine> = Vec::new();
        let n = raw.len();
        for i in 0..n
            invariant
                n == raw@.len(),
                n == ls.len(),
                forall|k: int| 0 <= k < n ==> (#[trigger] raw@[k])@ == ls[k],
                (match hl {
                    Some(ref v) => hls == Some(crate::types::str_views(v@)) && v@.len() == n,
                    None => hls is None,
                }),
                lines@.len() == i,
                forall|k: int|
                    0 <= k < i ==> {
                        let e = #[trigger] lines@[k];
                        &&& e.line_no == ((k + 1) as u32)
                        &&& e.content@ == ls[k]
                        &&& crate::parser::view_opt_str(e.highlighted) == (match hls {
                            Some(rows) => Some(rows[k]),
                            None => None,
                        })
                    },
        {
            let highlighted: Option<String> = match &hl {
                Some(rows) => Some(rows[i].clone()),
                None => None,
            };
            lines.push(
                crate::types::FileContentLine {
                    line_no: #[verifier::truncate] ((i + 1) as u32),
                    content: raw[i].clone(),
                    highlighted,
                },
            );
        }
        crate::types::FileContentResponse { path, language, lines }
    }
}

} // verus!




