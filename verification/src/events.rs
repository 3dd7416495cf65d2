use vstd::prelude::*;

verus! {

use crate::review::{AgentStatus, ReviewStatus, ThreadStatus};
use crate::types::{str_views, CommentResponse, ReviewResponse, RevisionResponse, ThreadResponse};

/// The closed set of event kinds the service publishes.
#[derive(Debug, Clone, Copy, PartialEq, Eq, Structural)]
pub enum WsEventType {
    ReviewCreated,
    ReviewStatusChanged,
    ReviewDeleted,
    RevisionCreated,
    ThreadCreated,
    CommentAdded,
    ThreadStatusChanged,
    ThreadAcknowledged,
    ThreadPoked,
    RevisionRequested,
    AgentPresenceChanged,
}

/// What an event carries, typed by its origin.
#[derive(Debug)]
pub enum EventPayload {
    Review(ReviewResponse),
    Revision(RevisionResponse),
    Thread(ThreadResponse),
    Comment { thread_id: u128, comment: CommentResponse },
    ReviewStatus(ReviewStatus),
    ThreadStatus { thread_id: u128, status: ThreadStatus },
    AgentAck { thread_id: u128, status: AgentStatus },
    Presence { connected: bool },
    Deleted { review_id: u128 },
    Empty,
}

/// One event of the canonical stream.
#[derive(Debug)]
pub struct WsEvent {
    pub event_type: WsEventType,
    pub review_id: u128,
    pub payload: EventPayload,
    pub timestamp: i64,
}

/// Compare two strings by their characters.
pub fn str_eq(a: &str, b: &str) -> (r: bool)
    ensures
        r == (a@ == b@),
{
    let n = a.unicode_len();
    if n != b.unicode_len() {
        return false;
    }
    for i in 0..n
        invariant
            n == a@.len(),
            n == b@.len(),
            forall|k: int| 0 <= k < i ==> a@[k] == b@[k],
    {
        if a.get_char(i) != b.get_char(i) {
            return false;
        }
    }
    proof {
        assert(a@ =~= b@);
    }
    true
}

/// The wire name a filter string must carry to match an event kind; only
/// the kinds a waiter can ask for have one.
pub open spec fn spec_type_matches(t: WsEventType, f: Seq<char>) -> bool {
    match t {
        WsEventType::ReviewCreated => f == "review_created"@,
        WsEventType::ReviewStatusChanged => f == "review_status_changed"@,
        WsEventType::RevisionCreated => f == "revision_created"@,
        WsEventType::ThreadCreated => f == "thread_created"@,
        WsEventType::CommentAdded => f == "comment_added"@,
        WsEventType::ThreadStatusChanged => f == "thread_status_changed"@,
        _ => false,
    }
}

/// Whether a waiter's type filter names this event's kind.
pub fn event_type_matches(event_type: &WsEventType, filter: &str) -> (r: bool)
    ensures
        r == spec_type_matches(*event_type, filter@),
{
    match event_type {
        WsEventType::ReviewCreated => str_eq(filter, "review_created"),
        WsEventType::ReviewStatusChanged => str_eq(filter, "review_status_changed"),
        WsEventType::RevisionCreated => str_eq(filter, "revision_created"),
        WsEventType::ThreadCreated => str_eq(filter, "thread_created"),
        WsEventType::CommentAdded => str_eq(filter, "comment_added"),
        WsEventType::ThreadStatusChanged => str_eq(filter, "thread_status_changed"),
        _ => false,
    }
}

/// Whether an event passes a waiter's filters: the review filter must
/// name its review, and when a type list is given some entry must name
/// its kind.
pub open spec fn spec_event_matches(
    t: WsEventType,
    rid: u128,
    review_filter: Option<u128>,
    type_filters: Option<Seq<Seq<char>>>,
) -> bool {
    &&& (match review_filter {
        Some(r) => r == rid,
        None => true,
    })
    &&& (match type_filters {
        Some(fs) => exists|i: int| 0 <= i < fs.len() && #[trigger] spec_type_matches(t, fs[i]),
        None => true,
    })
}

/// The views of an optional filter list.
pub open spec fn opt_str_views(o: Option<&Vec<String>>) -> Option<Seq<Seq<char>>> {
    match o {
        Some(v) => Some(str_views(v@)),
        None => None,
    }
}

/// Decide whether a waiting agent should be woken by this event.
pub fn event_matches(
    event: &WsEvent,
    review_filter: Option<u128>,
    type_filters: Option<&Vec<String>>,
) -> (r: bool)
    ensures
        r == spec_event_matches(
            event.event_type,
            event.review_id,
            review_filter,
            opt_str_views(type_filters),
        ),
{
    match review_filter {
        Some(rid) => {
            if event.review_id != rid {
                return false;
            }
        },
        None => {},
    }
    match type_filters {
        Some(fs) => {
            let ghost fv = str_views(fs@);
            let n = fs.len();
            let mut found = false;
            for i in 0..n
                invariant
                    n == fs@.len(),
                    fv == str_views(fs@),
                    (match review_filter {
                        Some(rid) => event.review_id == rid,
                        None => true,
                    }),
                    found ==> exists|k: int|
                        0 <= k < fv.len() && #[trigger] spec_type_matches(
                            event.event_type,
                            fv[k],
                        ),
                    !found ==> forall|k: int|
                        0 <= k < i ==> !spec_type_matches(event.event_type, fv[k]),
            {
                if event_type_matches(&event.event_type, fs[i].as_str()) {
                    proof {
                        assert(spec_type_matches(event.event_type, fv[i as int]));
                    }
                    found = true;
                }
            }
            proof {
                assert(opt_str_views(type_filters)->0 == str_views(fs@));
                if found {
                    let k0 = choose|k: int|
                        0 <= k < fv.len() && #[trigger] spec_type_matches(
                            event.event_type,
                            fv[k],
                        );
                    assert(spec_type_matches(
                        event.event_type,
                        (opt_str_views(type_filters)->0)[k0],
                    ));
                } else {
                    assert forall|i: int|
                        0 <= i < (opt_str_views(type_filters)->0).len() implies !spec_type_matches(
                        event.event_type,
                        #[trigger] (opt_str_views(type_filters)->0)[i],
                    ) by {
                        assert((opt_str_views(type_filters)->0)[i] == fv[i]);
                        assert(!spec_type_matches(event.event_type, fv[i]));
                    }
                }
            }
            found
        },
        None => true,
    }
}

} // verus!
