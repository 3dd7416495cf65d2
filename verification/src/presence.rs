use vstd::prelude::*;

verus! {

/// The grace period before a deregistered agent counts as disconnected,
/// in microseconds.
pub const GRACE_MICROS: i64 = 5000000;

/// Per-review presence: the current flag and, after a deregister, the
/// deadline of the pending disconnect.
#[derive(Debug, Clone, Copy, PartialEq, Eq, Structural)]
pub struct PresenceEntry {
    pub review_id: u128,
    pub connected: bool,
    pub pending: Option<i64>,
}

pub open spec fn has_entry(s: Seq<PresenceEntry>, rid: u128) -> bool {
    exists|i: int| 0 <= i < s.len() && (#[trigger] s[i]).review_id == rid
}

pub open spec fn entry_at(s: Seq<PresenceEntry>, rid: u128) -> int {
    choose|i: int| 0 <= i < s.len() && (#[trigger] s[i]).review_id == rid
}

pub open spec fn entry_of(s: Seq<PresenceEntry>, rid: u128) -> PresenceEntry {
    s[entry_at(s, rid)]
}

/// An agent counts as connected when its entry says so.
pub open spec fn spec_connected(s: Seq<PresenceEntry>, rid: u128) -> bool {
    has_entry(s, rid) && entry_of(s, rid).connected
}

/// What a register does: the pending disconnect is cancelled, the flag is
/// set, and the connect event fires exactly when the agent was not
/// already connected.
pub open spec fn spec_register(s: Seq<PresenceEntry>, rid: u128) -> (Seq<PresenceEntry>, bool) {
    if has_entry(s, rid) {
        let i = entry_at(s, rid);
        (
            s.update(i, PresenceEntry { review_id: rid, connected: true, pending: None }),
            !s[i].connected,
        )
    } else {
        (s.push(PresenceEntry { review_id: rid, connected: true, pending: None }), true)
    }
}

/// What a deregister at time `now` does: an existing entry gets a fresh
/// disconnect deadline one grace period ahead; an unknown review is left
/// alone.  No event fires.
pub open spec fn spec_deregister(s: Seq<PresenceEntry>, rid: u128, now: i64) -> Seq<PresenceEntry> {
    if has_entry(s, rid) {
        let i = entry_at(s, rid);
        s.update(
            i,
            PresenceEntry {
                review_id: rid,
                connected: s[i].connected,
                pending: Some(spec_deadline(now)),
            },
        )
    } else {
        s
    }
}

/// The disconnect deadline a deregister at `now` schedules.
pub open spec fn spec_deadline(now: i64) -> i64 {
    if now > i64::MAX - GRACE_MICROS {
        i64::MAX
    } else {
        (now + GRACE_MICROS) as i64
    }
}

/// What the expiry of the disconnect scheduled for `deadline` does: only
/// when that exact deadline is still pending and the agent still counts
/// as connected does the flag flip and the disconnect event fire; a
/// cancelled or superseded expiry does nothing.
pub open spec fn spec_fire(s: Seq<PresenceEntry>, rid: u128, deadline: i64) -> (
    Seq<PresenceEntry>,
    bool,
) {
    if has_entry(s, rid) && entry_of(s, rid).pending == Some(deadline) && entry_of(
        s,
        rid,
    ).connected {
        let i = entry_at(s, rid);
        (s.update(i, PresenceEntry { review_id: rid, connected: false, pending: None }), true)
    } else {
        (s, false)
    }
}

/// One review id names at most one entry.
pub open spec fn unique_rids(s: Seq<PresenceEntry>) -> bool {
    forall|i: int, j: int|
        0 <= i < j < s.len() ==> (#[trigger] s[i]).review_id != (#[trigger] s[j]).review_id
}

/// Debounced agent-connected state, one entry per review.
pub struct PresenceTracker {
    pub entries: Vec<PresenceEntry>,
}

impl PresenceTracker {
    /// One review id names at most one entry.
    pub open spec fn wf(&self) -> bool {
        unique_rids(self.entries@)
    }

    pub fn new() -> (r: PresenceTracker)
        ensures
            r.wf(),
            r.entries@.len() == 0,
    {
        PresenceTracker { entries: Vec::new() }
    }

    fn find(&self, rid: u128) -> (r: Option<usize>)
        requires
            self.wf(),
        ensures
            match r {
                Some(i) => i < self.entries@.len() && self.entries@[i as int].review_id == rid
                    && entry_at(self.entries@, rid) == i as int && has_entry(self.entries@, rid),
                None => !has_entry(self.entries@, rid),
            },
    {
        let n = self.entries.len();
        for i in 0..n
            invariant
                self.wf(),
                n == self.entries@.len(),
                forall|k: int| 0 <= k < i ==> (#[trigger] self.entries@[k]).review_id != rid,
        {
            if self.entries[i].review_id == rid {
                proof {
                    let j = entry_at(self.entries@, rid);
                    if j != i as int {
                        if j < i as int {
                            assert(self.entries@[j].review_id != self.entries@[i as int].review_id);
                        } else {
                            assert(self.entries@[i as int].review_id != self.entries@[j].review_id);
                        }
                    }
                }
                return Some(i);
            }
        }
        None
    }

    /// Mark the agent connected; returns whether the connect event fires.
    pub fn register(&mut self, rid: u128) -> (emitted: bool)
        requires
            old(self).wf(),
        ensures
            final(self).wf(),
            (final(self).entries@, emitted) == spec_register(old(self).entries@, rid),
            spec_connected(final(self).entries@, rid),
            emitted == !spec_connected(old(self).entries@, rid),
    {
        let e = PresenceEntry { review_id: rid, connected: true, pending: None };
        match self.find(rid) {
            Some(i) => {
                let was = self.entries[i].connected;
                self.entries.set(i, e);
                proof {
                    lemma_unique_update(old(self).entries@, self.entries@, rid);
                    assert(entry_at(self.entries@, rid) == entry_at(old(self).entries@, rid));
                }
                !was
            },
            None => {
                self.entries.push(e);
                proof {
                    lemma_unique_push(old(self).entries@, self.entries@, rid);
                }
                true
            },
        }
    }

    /// Schedule the disconnect one grace period after `now`; no event
    /// fires yet.  Returns the scheduled deadline when one was set.
    pub fn deregister(&mut self, rid: u128, now: i64) -> (r: Option<i64>)
        requires
            old(self).wf(),
        ensures
            final(self).wf(),
            final(self).entries@ == spec_deregister(old(self).entries@, rid, now),
            r == (if has_entry(old(self).entries@, rid) {
                Some(spec_deadline(now))
            } else {
                Option::<i64>::None
            }),
    {
        match self.find(rid) {
            Some(i) => {
                let deadline = if now > i64::MAX - GRACE_MICROS {
                    i64::MAX
                } else {
                    now + GRACE_MICROS
                };
                let e = PresenceEntry {
                    review_id: rid,
                    connected: self.entries[i].connected,
                    pending: Some(deadline),
                };
                self.entries.set(i, e);
                proof {
                    lemma_unique_update(old(self).entries@, self.entries@, rid);
                }
                Some(deadline)
            },
            None => None,
        }
    }

    /// Let the disconnect scheduled for `deadline` expire; returns
    /// whether the disconnect event fires.  An expiry whose deadline was
    /// cancelled or superseded does nothing.
    pub fn fire(&mut self, rid: u128, deadline: i64) -> (emitted: bool)
        requires
            old(self).wf(),
        ensures
            final(self).wf(),
            (final(self).entries@, emitted) == spec_fire(old(self).entries@, rid, deadline),
    {
        match self.find(rid) {
            Some(i) => {
                let still = match self.entries[i].pending {
                    Some(d) => d == deadline,
                    None => false,
                } && self.entries[i].connected;
                if still {
                    let e = PresenceEntry { review_id: rid, connected: false, pending: None };
                    self.entries.set(i, e);
                    proof {
                        lemma_unique_update(old(self).entries@, self.entries@, rid);
                    }
                    true
                } else {
                    false
                }
            },
            None => false,
        }
    }

    /// Whether the agent currently counts as connected.
    pub fn is_connected(&self, rid: u128) -> (r: bool)
        requires
            self.wf(),
        ensures
            r == spec_connected(self.entries@, rid),
    {
        match self.find(rid) {
            Some(i) => self.entries[i].connected,
            None => false,
        }
    }
}

/// Updating the entry of `rid` keeps review ids unique and keeps `rid`'s
/// slot where it was.
proof fn lemma_unique_update(o: Seq<PresenceEntry>, s: Seq<PresenceEntry>, rid: u128)
    requires
        forall|i: int, j: int|
            0 <= i < j < o.len() ==> (#[trigger] o[i]).review_id != (#[trigger] o[j]).review_id,
        has_entry(o, rid),
        s == o.update(entry_at(o, rid), s[entry_at(o, rid)]),
        s[entry_at(o, rid)].review_id == rid,
    ensures
        forall|i: int, j: int|
            0 <= i < j < s.len() ==> (#[trigger] s[i]).review_id != (#[trigger] s[j]).review_id,
        entry_at(s, rid) == entry_at(o, rid),
        has_entry(s, rid),
{
    let k = entry_at(o, rid);
    assert forall|i: int, j: int| 0 <= i < j < s.len() implies (#[trigger] s[i]).review_id != (
    #[trigger] s[j]).review_id by {
        assert(o[i].review_id != o[j].review_id);
    }
    assert(s[k].review_id == rid);
    let k2 = entry_at(s, rid);
    if k2 != k {
        assert(s[k2].review_id == rid);
        if k2 < k {
            assert(s[k2].review_id != s[k].review_id);
        } else {
            assert(s[k].review_id != s[k2].review_id);
        }
    }
}

/// Pushing an entry for an absent review keeps review ids unique.
proof fn lemma_unique_push(o: Seq<PresenceEntry>, s: Seq<PresenceEntry>, rid: u128)
    requires
        forall|i: int, j: int|
            0 <= i < j < o.len() ==> (#[trigger] o[i]).review_id != (#[trigger] o[j]).review_id,
        !has_entry(o, rid),
        s == o.push(s.last()),
        s.last().review_id == rid,
        s.len() == o.len() + 1,
    ensures
        forall|i: int, j: int|
            0 <= i < j < s.len() ==> (#[trigger] s[i]).review_id != (#[trigger] s[j]).review_id,
        has_entry(s, rid),
        entry_at(s, rid) == s.len() - 1,
{
    assert forall|i: int, j: int| 0 <= i < j < s.len() implies (#[trigger] s[i]).review_id != (
    #[trigger] s[j]).review_id by {
        if j < s.len() - 1 {
            assert(o[i].review_id != o[j].review_id);
        } else {
            assert(s[i] == o[i]);
        }
    }
    assert(s[s.len() - 1].review_id == rid);
    let k2 = entry_at(s, rid);
    if k2 != s.len() - 1 {
        assert(s[k2].review_id == rid);
        assert(s[k2].review_id != s[s.len() - 1].review_id);
    }
}

/// Registering while already connected fires nothing: of two registers in
/// a row only the first can fire the connect event, and after the first
/// the agent stays connected, so the second never fires.
pub proof fn lemma_register_idempotent(s: Seq<PresenceEntry>, rid: u128)
    requires
        unique_rids(s),
    ensures
        ({
            let (s1, e1) = spec_register(s, rid);
            let (s2, e2) = spec_register(s1, rid);
            &&& e1 == !spec_connected(s, rid)
            &&& e2 == false
            &&& spec_connected(s1, rid)
            &&& spec_connected(s2, rid)
        }),
{
    let (s1, e1) = spec_register(s, rid);
    lemma_register_shape(s, rid);
    lemma_register_shape(s1, rid);
}

/// A deregister inside the grace window does not change the connected
/// flag, so a register that follows it fires nothing: of the sequence
/// register, deregister, register only the first register fires, and the
/// agent ends connected with the disconnect cancelled.
pub proof fn lemma_deregister_then_register_silent(s: Seq<PresenceEntry>, rid: u128, now: i64)
    requires
        unique_rids(s),
    ensures
        ({
            let (s1, e1) = spec_register(s, rid);
            let s2 = spec_deregister(s1, rid, now);
            let (s3, e3) = spec_register(s2, rid);
            &&& e1 == !spec_connected(s, rid)
            &&& spec_connected(s2, rid)
            &&& e3 == false
            &&& spec_connected(s3, rid)
            &&& entry_of(s3, rid).pending is None
        }),
{
    let (s1, e1) = spec_register(s, rid);
    lemma_register_shape(s, rid);
    lemma_deregister_shape(s1, rid, now);
    let s2 = spec_deregister(s1, rid, now);
    lemma_register_shape(s2, rid);
}

/// An expiry that arrives after the grace window with its deadline still
/// pending disconnects and fires: the sequence register, deregister,
/// expiry, register fires connect, disconnect, connect — three events.
pub proof fn lemma_expiry_disconnects(s: Seq<PresenceEntry>, rid: u128, now: i64)
    requires
        unique_rids(s),
    ensures
        ({
            let (s1, e1) = spec_register(s, rid);
            let s2 = spec_deregister(s1, rid, now);
            let (s3, e3) = spec_fire(s2, rid, spec_deadline(now));
            let (s4, e4) = spec_register(s3, rid);
            &&& e1 == !spec_connected(s, rid)
            &&& e3 == true
            &&& !spec_connected(s3, rid)
            &&& e4 == true
            &&& spec_connected(s4, rid)
        }),
{
    let (s1, e1) = spec_register(s, rid);
    lemma_register_shape(s, rid);
    lemma_deregister_shape(s1, rid, now);
    let s2 = spec_deregister(s1, rid, now);
    let (s3, e3) = spec_fire(s2, rid, spec_deadline(now));
    lemma_fire_shape(s2, rid, spec_deadline(now));
    lemma_register_shape(s3, rid);
}

/// After a register the entry exists, is connected, and has no pending
/// disconnect; ids stay unique and other entries keep their state.
proof fn lemma_register_shape(s: Seq<PresenceEntry>, rid: u128)
    requires
        unique_rids(s),
    ensures
        ({
            let (s1, e1) = spec_register(s, rid);
            &&& unique_rids(s1)
            &&& has_entry(s1, rid)
            &&& entry_of(s1, rid) == (PresenceEntry {
                review_id: rid,
                connected: true,
                pending: None,
            })
            &&& spec_connected(s1, rid)
            &&& e1 == !spec_connected(s, rid)
        }),
{
    let (s1, e1) = spec_register(s, rid);
    if has_entry(s, rid) {
        let i = entry_at(s, rid);
        assert(s1[i].review_id == rid);
        assert(has_entry(s1, rid));
        assert(unique_rids(s1)) by {
            assert forall|a: int, b: int| 0 <= a < b < s1.len() implies (
            #[trigger] s1[a]).review_id != (#[trigger] s1[b]).review_id by {
                assert(s[a].review_id != s[b].review_id);
            }
        }
        let k = entry_at(s1, rid);
        if k != i {
            assert(s1[k].review_id == rid);
            if k < i {
                assert(s1[k].review_id != s1[i].review_id);
            } else {
                assert(s1[i].review_id != s1[k].review_id);
            }
        }
    } else {
        let i = s1.len() - 1;
        assert(s1[i].review_id == rid);
        assert(has_entry(s1, rid));
        assert(unique_rids(s1)) by {
            assert forall|a: int, b: int| 0 <= a < b < s1.len() implies (
            #[trigger] s1[a]).review_id != (#[trigger] s1[b]).review_id by {
                if b < s1.len() - 1 {
                    assert(s[a].review_id != s[b].review_id);
                } else {
                    assert(s1[a] == s[a]);
                    if s[a].review_id == rid {
                        assert(has_entry(s, rid));
                    }
                }
            }
        }
        let k = entry_at(s1, rid);
        if k != i {
            assert(s1[k].review_id == rid);
            if k < i {
                assert(s1[k].review_id != s1[i].review_id);
            } else {
                assert(s1[i].review_id != s1[k].review_id);
            }
        }
    }
}

/// After a deregister the entry's flag is unchanged and the deadline is
/// set.
proof fn lemma_deregister_shape(s: Seq<PresenceEntry>, rid: u128, now: i64)
    requires
        has_entry(s, rid),
        unique_rids(s),
    ensures
        ({
            let s2 = spec_deregister(s, rid, now);
            &&& unique_rids(s2)
            &&& has_entry(s2, rid)
            &&& entry_of(s2, rid) == (PresenceEntry {
                review_id: rid,
                connected: entry_of(s, rid).connected,
                pending: Some(spec_deadline(now)),
            })
        }),
{
    let s2 = spec_deregister(s, rid, now);
    let i = entry_at(s, rid);
    assert(s2[i].review_id == rid);
    assert(has_entry(s2, rid));
    assert(unique_rids(s2)) by {
        assert forall|a: int, b: int| 0 <= a < b < s2.len() implies (
        #[trigger] s2[a]).review_id != (#[trigger] s2[b]).review_id by {
            assert(s[a].review_id != s[b].review_id);
        }
    }
    let k = entry_at(s2, rid);
    if k != i {
        assert(s2[k].review_id == rid);
        assert(s2[k] == s[k]);
        if k < i {
            assert(s[k].review_id != s[i].review_id);
        } else {
            assert(s[i].review_id != s[k].review_id);
        }
    }
}

/// A matching expiry of a connected entry flips it to disconnected.
proof fn lemma_fire_shape(s: Seq<PresenceEntry>, rid: u128, deadline: i64)
    requires
        unique_rids(s),
    ensures
        ({
            let (s3, e3) = spec_fire(s, rid, deadline);
            &&& unique_rids(s3)
            &&& e3 == (has_entry(s, rid) && entry_of(s, rid).pending == Some(deadline) && entry_of(
                s,
                rid,
            ).connected)
            &&& (e3 ==> has_entry(s3, rid) && entry_of(s3, rid) == (PresenceEntry {
                review_id: rid,
                connected: false,
                pending: None,
            }))
        }),
{
    let (s3, e3) = spec_fire(s, rid, deadline);
    assert(unique_rids(s3)) by {
        assert forall|a: int, b: int| 0 <= a < b < s3.len() implies (
        #[trigger] s3[a]).review_id != (#[trigger] s3[b]).review_id by {
            assert(s[a].review_id != s[b].review_id);
        }
    }
    if e3 {
        let i = entry_at(s, rid);
        assert(s3[i].review_id == rid);
        assert(has_entry(s3, rid));
        let k = entry_at(s3, rid);
        if k != i {
            assert(s3[k].review_id == rid);
            assert(s3[k] == s[k]);
            if k < i {
                assert(s[k].review_id != s[i].review_id);
            } else {
                assert(s[i].review_id != s[k].review_id);
            }
        }
    }
}

} // verus!
