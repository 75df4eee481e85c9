//! The relation index and its flag tables, modelled over the ordered
//! store's key space.
//!
//! A relation edge is the persisted fact `(room, target, referrer)`,
//! keyed by the short room id and two normal position counters, unique per
//! triple and never deleted. Events are stored under `(room, position)`.
//! Two small boolean tables record the referenced and soft-failed flags.

use vstd::prelude::*;
use vstd::string::*;

use crate::pdu::PduEvent;
use crate::position::Direction;
use crate::position::PduCount;

verus! {

/// A persisted relation edge: the event at normal position `from` of room
/// `room` declares a relation to the event at normal position `target`.
#[derive(Clone, Copy, Debug, PartialEq, Eq, Structural)]
pub struct Edge {
    pub room: u64,
    pub target: u64,
    pub from: u64,
}

/// An event stored under its room and normal position counter.
pub struct StoredEvent {
    pub room: u64,
    pub pos: u64,
    pub event: PduEvent,
}

/// The index: edges, the event table they resolve through, and the two
/// flag tables.
pub struct Data {
    pub edges: Vec<Edge>,
    pub events: Vec<StoredEvent>,
    pub referenced: Vec<(u64, String)>,
    pub soft_failed: Vec<String>,
}

/// The first event stored under `(room, pos)`, scanning `s` front to back.
pub open spec fn seq_event_at(s: Seq<StoredEvent>, room: u64, pos: u64) -> Option<PduEvent>
    decreases s.len(),
{
    if s.len() == 0 {
        None
    } else if s[0].room == room && s[0].pos == pos {
        Some(s[0].event)
    } else {
        seq_event_at(s.drop_first(), room, pos)
    }
}

/// Does the referrer position `p` fall inside the open scan bound: at or
/// before `until` for a backward scan, at or after it for a forward one?
pub open spec fn in_bound(p: u64, until: PduCount, dir: Direction) -> bool {
    match dir {
        Direction::Backward => PduCount::Normal(p).spec_le(until),
        Direction::Forward => until.spec_le(PduCount::Normal(p)),
    }
}

/// Strict lexicographic order on edge keys `(room, target, from)`.
pub open spec fn edge_key_lt(a: Edge, b: Edge) -> bool {
    a.room < b.room || (a.room == b.room && (a.target < b.target || (a.target == b.target
        && a.from < b.from)))
}

impl Data {
    /// The edge list is strictly descending in key order, as an ordered
    /// store keeps it, and the event table holds each key at most once.
    pub open spec fn wf(self) -> bool {
        &&& forall|j: int, k: int|
            0 <= j < k < self.edges@.len() ==> edge_key_lt(self.edges@[k], self.edges@[j])
        &&& forall|j: int, k: int|
            0 <= j < k < self.events@.len() ==> !(self.events@[j].room == self.events@[k].room
                && self.events@[j].pos == self.events@[k].pos)
    }

    /// Is the edge `(room, target, from)` persisted?
    pub open spec fn has_edge(self, room: u64, target: u64, from: u64) -> bool {
        exists|k: int|
            0 <= k < self.edges@.len() && self.edges@[k] == (Edge { room, target, from })
    }

    /// The event stored under `(room, pos)`, if any.
    pub open spec fn stored_event_at(self, room: u64, pos: u64) -> Option<PduEvent> {
        seq_event_at(self.events@, room, pos)
    }

    /// The referrer positions of `target` that fall inside the scan bound
    /// and whose event deserializes: what one index scan yields.
    pub open spec fn direct_referrers(
        self,
        room: u64,
        until: PduCount,
        dir: Direction,
        target: u64,
    ) -> Set<u64> {
        Set::new(
            |f: u64|
                self.has_edge(room, target, f) && in_bound(f, until, dir)
                    && self.stored_event_at(room, f) is Some,
        )
    }

    pub open spec fn is_referenced(self, room: u64, event_id: Seq<char>) -> bool {
        exists|k: int|
            0 <= k < self.referenced@.len() && self.referenced@[k].0 == room
                && self.referenced@[k].1@ == event_id
    }

    pub open spec fn is_soft_failed(self, event_id: Seq<char>) -> bool {
        exists|k: int| 0 <= k < self.soft_failed@.len() && self.soft_failed@[k]@ == event_id
    }

    /// An empty index.
    pub fn new() -> (r: Self)
        ensures
            r.wf(),
            r.edges@.len() == 0,
            r.events@.len() == 0,
            r.referenced@.len() == 0,
            r.soft_failed@.len() == 0,
    {
        Data { edges: Vec::new(), events: Vec::new(), referenced: Vec::new(), soft_failed: Vec::new() }
    }

    /// Persists the edge `(room, to, from)` at its place in the key
    /// order; a second insertion of the same triple is a no-op.
    pub fn add_relation(&mut self, room: u64, from: u64, to: u64)
        requires
            old(self).wf(),
        ensures
            final(self).wf(),
            forall|r2: u64, t2: u64, f2: u64|
                final(self).has_edge(r2, t2, f2) == (old(self).has_edge(r2, t2, f2) || (r2 == room
                    && t2 == to && f2 == from)),
            final(self).events@ == old(self).events@,
            final(self).referenced@ == old(self).referenced@,
            final(self).soft_failed@ == old(self).soft_failed@,
    {
        let wanted = Edge { room, target: to, from };
        let n = self.edges.len();
        let mut i: usize = 0;
        while i < n
            invariant
                old(self).wf(),
                *self == *old(self),
                n == self.edges@.len(),
                i <= n,
                wanted == (Edge { room, target: to, from }),
                forall|k: int| 0 <= k < i ==> edge_key_lt(wanted, #[trigger] self.edges@[k]),
            ensures
                old(self).wf(),
                *self == *old(self),
                n == self.edges@.len(),
                i <= n,
                wanted == (Edge { room, target: to, from }),
                forall|k: int| 0 <= k < i ==> edge_key_lt(wanted, #[trigger] self.edges@[k]),
                i < n ==> edge_key_lt(self.edges@[i as int], wanted),
            decreases n - i,
        {
            let e = self.edges[i];
            if e.room == room && e.target == to && e.from == from {
                proof {
                    assert(old(self).edges@[i as int] == (Edge { room, target: to, from }));
                    assert(old(self).has_edge(room, to, from));
                }
                return ;
            }
            let below = e.room < room || (e.room == room && (e.target < to || (e.target == to
                && e.from < from)));
            if below {
                break ;
            }
            proof {
                assert(edge_key_lt(wanted, self.edges@[i as int]));
            }
            i = i + 1;
        }
        let ghost olde = self.edges@;
        self.edges.insert(i, wanted);
        proof {
            olde.insert_ensures(i as int, wanted);
            assert(self.edges@ == olde.insert(i as int, wanted));
            assert forall|j: int, k: int| 0 <= j < k < self.edges@.len() implies edge_key_lt(
                self.edges@[k],
                self.edges@[j],
            ) by {
                if k < i {
                    assert(self.edges@[j] == olde[j] && self.edges@[k] == olde[k]);
                } else if k == i {
                    assert(self.edges@[j] == olde[j]);
                    assert(edge_key_lt(wanted, olde[j]));
                } else if j < i {
                    assert(self.edges@[j] == olde[j] && self.edges@[k] == olde[k - 1]);
                    assert(j < k - 1);
                } else if j == i {
                    assert(self.edges@[k] == olde[k - 1]);
                    assert(edge_key_lt(olde[i as int], wanted));
                    if k - 1 > i {
                        assert(edge_key_lt(olde[k - 1], olde[i as int]));
                    }
                } else {
                    assert(self.edges@[j] == olde[j - 1] && self.edges@[k] == olde[k - 1]);
                }
            }
            assert forall|r2: u64, t2: u64, f2: u64|
                self.has_edge(r2, t2, f2) == (old(self).has_edge(r2, t2, f2) || (r2 == room && t2
                    == to && f2 == from)) by {
                let e2 = Edge { room: r2, target: t2, from: f2 };
                if old(self).has_edge(r2, t2, f2) {
                    let k = choose|k: int| 0 <= k < olde.len() && olde[k] == e2;
                    if k < i {
                        assert(self.edges@[k] == e2);
                    } else {
                        assert(self.edges@[k + 1] == e2);
                    }
                }
                if r2 == room && t2 == to && f2 == from {
                    assert(self.edges@[i as int] == e2);
                }
                if self.has_edge(r2, t2, f2) {
                    let k = choose|k: int| 0 <= k < self.edges@.len() && self.edges@[k] == e2;
                    if k < i {
                        assert(olde[k] == e2);
                    } else if k > i {
                        assert(olde[k - 1] == e2);
                    }
                }
            }
        }
    }

    /// Stores `event` under `(room, pos)`; the key space is append-only,
    /// so a position already holding an event keeps it.
    pub fn insert_event(&mut self, room: u64, pos: u64, event: PduEvent)
        requires
            old(self).wf(),
        ensures
            final(self).wf(),
            forall|r2: u64, p2: u64|
                final(self).stored_event_at(r2, p2) == if r2 == room && p2 == pos && old(
                    self,
                ).stored_event_at(room, pos) is None {
                    Some(event)
                } else {
                    old(self).stored_event_at(r2, p2)
                },
            final(self).edges@ == old(self).edges@,
            final(self).referenced@ == old(self).referenced@,
            final(self).soft_failed@ == old(self).soft_failed@,
    {
        if self.get_event(room, pos).is_some() {
            return ;
        }
        let ghost olds = self.events@;
        self.events.push(StoredEvent { room, pos, event });
        proof {
            assert(self.events@ == olds.push(StoredEvent { room, pos, event }));
            assert(self.events@.last() == (StoredEvent { room, pos, event }));
            lemma_seq_event_at_none(olds, room, pos);
            assert forall|r2: u64, p2: u64|
                self.stored_event_at(r2, p2) == if r2 == room && p2 == pos {
                    Some(event)
                } else {
                    seq_event_at(olds, r2, p2)
                } by {
                lemma_seq_event_at_push(olds, self.events@.last(), r2, p2);
            }
        }
    }

    /// The event stored under `(room, pos)`, if any.
    pub fn get_event(&self, room: u64, pos: u64) -> (r: Option<&PduEvent>)
        ensures
            match r {
                Some(e) => self.stored_event_at(room, pos) == Some(*e),
                None => self.stored_event_at(room, pos) is None,
            },
    {
        let n = self.events.len();
        let mut i: usize = 0;
        proof {
            assert(self.events@.skip(0) =~= self.events@);
        }
        while i < n
            invariant
                n == self.events@.len(),
                i <= n,
                seq_event_at(self.events@, room, pos) == seq_event_at(
                    self.events@.skip(i as int),
                    room,
                    pos,
                ),
            decreases n - i,
        {
            proof {
                assert(self.events@.skip(i as int).drop_first() =~= self.events@.skip(i as int + 1));
                assert(self.events@.skip(i as int)[0] == self.events@[i as int]);
            }
            if self.events[i].room == room && self.events[i].pos == pos {
                return Some(&self.events[i].event);
            }
            i = i + 1;
        }
        proof {
            assert(self.events@.skip(n as int) =~= Seq::<StoredEvent>::empty());
        }
        None
    }

    /// Sets the referenced flag of `(room, event_id)`; idempotent.
    pub fn set_referenced(&mut self, room: u64, event_id: &str)
        requires
            old(self).wf(),
        ensures
            final(self).wf(),
            forall|r2: u64, id: Seq<char>|
                final(self).is_referenced(r2, id) == (old(self).is_referenced(r2, id) || (r2
                    == room && id == event_id@)),
            final(self).edges@ == old(self).edges@,
            final(self).events@ == old(self).events@,
            final(self).soft_failed@ == old(self).soft_failed@,
    {
        let owned = event_id.to_owned();
        let ghost olds = self.referenced@;
        self.referenced.push((room, owned));
        proof {
            assert forall|r2: u64, id: Seq<char>|
                self.is_referenced(r2, id) == (old(self).is_referenced(r2, id) || (r2 == room && id
                    == event_id@)) by {
                if old(self).is_referenced(r2, id) {
                    let k = choose|k: int|
                        0 <= k < olds.len() && olds[k].0 == r2 && olds[k].1@ == id;
                    assert(self.referenced@[k].0 == r2 && self.referenced@[k].1@ == id);
                }
                if r2 == room && id == event_id@ {
                    assert(self.referenced@[self.referenced@.len() - 1].0 == r2);
                    assert(self.referenced@[self.referenced@.len() - 1].1@ == id);
                }
                if self.is_referenced(r2, id) {
                    let k = choose|k: int|
                        0 <= k < self.referenced@.len() && self.referenced@[k].0 == r2
                            && self.referenced@[k].1@ == id;
                    if k < olds.len() {
                        assert(olds[k].0 == r2 && olds[k].1@ == id);
                    }
                }
            }
        }
    }

    /// Reads the referenced flag of `(room, event_id)`.
    pub fn get_referenced(&self, room: u64, event_id: &str) -> (r: bool)
        ensures
            r == self.is_referenced(room, event_id@),
    {
        let wanted = event_id.to_owned();
        let n = self.referenced.len();
        let mut i: usize = 0;
        while i < n
            invariant
                n == self.referenced@.len(),
                i <= n,
                wanted@ == event_id@,
                forall|k: int|
                    0 <= k < i ==> !(self.referenced@[k].0 == room && self.referenced@[k].1@
                        == event_id@),
            decreases n - i,
        {
            if self.referenced[i].0 == room && self.referenced[i].1 == wanted {
                return true;
            }
            i = i + 1;
        }
        false
    }

    /// Sets the soft-failed flag of `event_id`; idempotent.
    pub fn set_soft_failed(&mut self, event_id: &str)
        requires
            old(self).wf(),
        ensures
            final(self).wf(),
            forall|id: Seq<char>|
                final(self).is_soft_failed(id) == (old(self).is_soft_failed(id) || id
                    == event_id@),
            final(self).edges@ == old(self).edges@,
            final(self).events@ == old(self).events@,
            final(self).referenced@ == old(self).referenced@,
    {
        let owned = event_id.to_owned();
        let ghost olds = self.soft_failed@;
        self.soft_failed.push(owned);
        proof {
            assert forall|id: Seq<char>|
                self.is_soft_failed(id) == (old(self).is_soft_failed(id) || id == event_id@) by {
                if old(self).is_soft_failed(id) {
                    let k = choose|k: int| 0 <= k < olds.len() && olds[k]@ == id;
                    assert(self.soft_failed@[k]@ == id);
                }
                if id == event_id@ {
                    assert(self.soft_failed@[self.soft_failed@.len() - 1]@ == id);
                }
                if self.is_soft_failed(id) {
                    let k = choose|k: int|
                        0 <= k < self.soft_failed@.len() && self.soft_failed@[k]@ == id;
                    if k < olds.len() {
                        assert(olds[k]@ == id);
                    }
                }
            }
        }
    }


    /// One index scan: every persisted referrer of `target` inside the
    /// scan bound whose event deserializes, paired with its event, in
    /// strictly descending referrer-position order as stored. A referrer
    /// whose event is missing or unreadable is skipped, not an error.
    pub fn relations_until(&self, room: u64, target: u64, until: PduCount, dir: Direction) -> (r:
        Vec<(PduCount, PduEvent)>)
        requires
            self.wf(),
        ensures
            forall|i: int|
                0 <= i < r@.len() ==> (#[trigger] r@[i]).0 is Normal && self.direct_referrers(
                    room,
                    until,
                    dir,
                    target,
                ).contains(r@[i].0.value()) && Some(r@[i].1) == self.stored_event_at(
                    room,
                    r@[i].0.value(),
                ),
            forall|f: u64|
                #[trigger] self.direct_referrers(room, until, dir, target).contains(f)
                    ==> exists|i: int| 0 <= i < r@.len() && r@[i].0 == PduCount::Normal(f),
            forall|i: int, j: int| 0 <= i < j < r@.len() ==> r@[i].0.value() > r@[j].0.value(),
    {
        let ghost direct = self.direct_referrers(room, until, dir, target);
        let mut out: Vec<(PduCount, PduEvent)> = Vec::new();
        let n = self.edges.len();
        let mut idx: usize = 0;
        while idx < n
            invariant
                self.wf(),
                direct == self.direct_referrers(room, until, dir, target),
                n == self.edges@.len(),
                idx <= n,
                forall|k: int|
                    0 <= k < out@.len() ==> (#[trigger] out@[k]).0 is Normal && direct.contains(
                        out@[k].0.value(),
                    ) && Some(out@[k].1) == self.stored_event_at(room, out@[k].0.value()),
                forall|k: int|
                    0 <= k < out@.len() ==> exists|j: int|
                        0 <= j < idx && (#[trigger] self.edges@[j]).room == room
                            && self.edges@[j].target == target && self.edges@[j].from == (
                        #[trigger] out@[k]).0.value(),
                forall|j: int|
                    0 <= j < idx && (#[trigger] self.edges@[j]).room == room
                        && self.edges@[j].target == target && in_bound(
                        self.edges@[j].from,
                        until,
                        dir,
                    ) && self.stored_event_at(room, self.edges@[j].from) is Some ==> exists|k: int|
                        0 <= k < out@.len() && (#[trigger] out@[k]).0 == PduCount::Normal(
                            self.edges@[j].from,
                        ),
                forall|a: int, b: int| 0 <= a < b < out@.len() ==> out@[a].0.value()
                    > out@[b].0.value(),
            decreases n - idx,
        {
            let e = self.edges[idx];
            if e.room == room && e.target == target {
                let inb = match dir {
                    Direction::Backward => PduCount::Normal(e.from).le(&until),
                    Direction::Forward => until.le(&PduCount::Normal(e.from)),
                };
                if inb {
                    match self.get_event(room, e.from) {
                        Some(ev) => {
                            proof {
                                assert(self.edges@[idx as int] == (Edge {
                                    room,
                                    target,
                                    from: e.from,
                                }));
                                assert(direct.contains(e.from));
                                assert forall|k: int| 0 <= k < out@.len() implies (
                                #[trigger] out@[k]).0.value() > e.from by {
                                    let j = choose|j: int|
                                        0 <= j < idx && (#[trigger] self.edges@[j]).room == room
                                            && self.edges@[j].target == target
                                            && self.edges@[j].from == out@[k].0.value();
                                    assert(edge_key_lt(self.edges@[idx as int], self.edges@[j]));
                                }
                            }
                            let ghost out_before = out@;
                            out.push((PduCount::Normal(e.from), ev.duplicate()));
                            proof {
                                assert(out@ == out_before.push(
                                    (PduCount::Normal(e.from), out@.last().1),
                                ));
                                assert(out@.last().0 == PduCount::Normal(e.from));
                                assert forall|j: int|
                                    0 <= j < idx + 1 && (#[trigger] self.edges@[j]).room == room
                                        && self.edges@[j].target == target && in_bound(
                                        self.edges@[j].from,
                                        until,
                                        dir,
                                    ) && self.stored_event_at(room, self.edges@[j].from)
                                    is Some implies exists|k: int|
                                    0 <= k < out@.len() && (#[trigger] out@[k]).0
                                        == PduCount::Normal(self.edges@[j].from) by {
                                    if j < idx {
                                        let k = choose|k: int|
                                            0 <= k < out_before.len() && (#[trigger] out_before[k]).0
                                                == PduCount::Normal(self.edges@[j].from);
                                        assert(out@[k].0 == PduCount::Normal(self.edges@[j].from));
                                    } else {
                                        assert(out@[out@.len() - 1].0 == PduCount::Normal(
                                            self.edges@[j].from,
                                        ));
                                    }
                                }
                                assert forall|k: int| 0 <= k < out@.len() implies exists|j: int|
                                    0 <= j < idx + 1 && (#[trigger] self.edges@[j]).room == room
                                        && self.edges@[j].target == target && self.edges@[j].from
                                        == (#[trigger] out@[k]).0.value() by {
                                    if k < out@.len() - 1 {
                                        let j = choose|j: int|
                                            0 <= j < idx && (#[trigger] self.edges@[j]).room == room
                                                && self.edges@[j].target == target
                                                && self.edges@[j].from == out_before[k].0.value();
                                        assert(self.edges@[j].from == out@[k].0.value());
                                    } else {
                                        assert(self.edges@[idx as int].from == out@[k].0.value());
                                    }
                                }
                            }
                        },
                        None => {
                        },
                    }
                }
            }
            idx = idx + 1;
        }
        proof {
            assert forall|f: u64| direct.contains(f) implies exists|i2: int|
                0 <= i2 < out@.len() && (#[trigger] out@[i2]).0 == PduCount::Normal(f) by {
                let j = choose|j: int|
                    0 <= j < self.edges@.len() && self.edges@[j] == (Edge { room, target, from: f });
                assert(self.edges@[j].room == room && self.edges@[j].target == target
                    && self.edges@[j].from == f);
                assert(in_bound(f, until, dir));
                assert(self.stored_event_at(room, f) is Some);
            }
        }
        out
    }

    /// Reads the soft-failed flag of `event_id`.
    pub fn get_soft_failed(&self, event_id: &str) -> (r: bool)
        ensures
            r == self.is_soft_failed(event_id@),
    {
        let wanted = event_id.to_owned();
        let n = self.soft_failed.len();
        let mut i: usize = 0;
        while i < n
            invariant
                n == self.soft_failed@.len(),
                i <= n,
                wanted@ == event_id@,
                forall|k: int| 0 <= k < i ==> self.soft_failed@[k]@ != event_id@,
            decreases n - i,
        {
            if self.soft_failed[i] == wanted {
                return true;
            }
            i = i + 1;
        }
        false
    }
}


/// A scan finds nothing exactly when no entry carries the key.
proof fn lemma_seq_event_at_none(s: Seq<StoredEvent>, room: u64, pos: u64)
    ensures
        (seq_event_at(s, room, pos) is None) == (forall|k: int|
            0 <= k < s.len() ==> !(s[k].room == room && s[k].pos == pos)),
    decreases s.len(),
{
    if s.len() > 0 {
        lemma_seq_event_at_none(s.drop_first(), room, pos);
        if seq_event_at(s, room, pos) is None {
            assert forall|k: int| 0 <= k < s.len() implies !(s[k].room == room && s[k].pos
                == pos) by {
                if k > 0 {
                    assert(s.drop_first()[k - 1] == s[k]);
                }
            }
        } else {
            if !(s[0].room == room && s[0].pos == pos) {
                let k = choose|k: int|
                    0 <= k < s.drop_first().len() && s.drop_first()[k].room == room
                        && s.drop_first()[k].pos == pos;
                assert(s[k + 1] == s.drop_first()[k]);
            }
        }
    }
}

proof fn lemma_seq_event_at_push(s: Seq<StoredEvent>, e: StoredEvent, room: u64, pos: u64)
    ensures
        seq_event_at(s.push(e), room, pos) == if seq_event_at(s, room, pos) is Some {
            seq_event_at(s, room, pos)
        } else if e.room == room && e.pos == pos {
            Some(e.event)
        } else {
            None::<PduEvent>
        },
    decreases s.len(),
{
    if s.len() == 0 {
        assert(s.push(e)[0] == e);
        assert(s.push(e).drop_first() =~= Seq::<StoredEvent>::empty());
        assert(seq_event_at(Seq::<StoredEvent>::empty(), room, pos) is None);
        assert(seq_event_at(s, room, pos) is None);
        assert(seq_event_at(s.push(e), room, pos) == if e.room == room && e.pos == pos {
            Some(e.event)
        } else {
            seq_event_at(Seq::<StoredEvent>::empty(), room, pos)
        });
    } else {
        assert(s.push(e)[0] == s[0]);
        assert(s.push(e).drop_first() =~= s.drop_first().push(e));
        lemma_seq_event_at_push(s.drop_first(), e, room, pos);
        assert(seq_event_at(s.push(e), room, pos) == if s[0].room == room && s[0].pos == pos {
            Some(s[0].event)
        } else {
            seq_event_at(s.drop_first().push(e), room, pos)
        });
        assert(seq_event_at(s, room, pos) == if s[0].room == room && s[0].pos == pos {
            Some(s[0].event)
        } else {
            seq_event_at(s.drop_first(), room, pos)
        });
    }
}

} // verus!
