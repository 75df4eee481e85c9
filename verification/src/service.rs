//! The relation service: the index together with its collaborators — the
//! room and position resolver and the visibility oracle — behind the
//! public relation, flag and pagination operations.

use vstd::prelude::*;
use vstd::string::*;

use crate::data::Data;
use crate::pdu::PduEvent;
use crate::position::PduCount;

verus! {

/// A failure of the underlying store. The in-memory substrate cannot
/// fail, so every operation returning this succeeds.
#[derive(Clone, Copy, Debug, PartialEq, Eq, Structural)]
pub struct StoreError;

/// The service: the relation index, the resolver mapping room ids to
/// short ids and event ids to positions, and the visibility grants the
/// permission oracle answers from.
pub struct Service {
    pub rooms: Vec<String>,
    pub positions: Vec<(String, PduCount)>,
    pub visibility: Vec<(String, String)>,
    pub db: Data,
}

impl Service {
    /// Room names and event ids resolve uniquely, and the index is well
    /// formed.
    pub open spec fn wf(self) -> bool {
        &&& forall|j: int, k: int|
            0 <= j < k < self.rooms@.len() ==> self.rooms@[j]@ != self.rooms@[k]@
        &&& forall|j: int, k: int|
            0 <= j < k < self.positions@.len() ==> self.positions@[j].0@ != self.positions@[k].0@
        &&& self.db.wf()
    }

    /// Is the room known to the resolver?
    pub open spec fn room_known(self, id: Seq<char>) -> bool {
        exists|k: int| 0 <= k < self.rooms@.len() && self.rooms@[k]@ == id
    }

    /// The short id of a known room: its slot in the resolver.
    pub open spec fn room_short(self, id: Seq<char>) -> u64 {
        (choose|k: int| 0 <= k < self.rooms@.len() && self.rooms@[k]@ == id) as u64
    }

    /// Does the resolver know a position for the event id?
    pub open spec fn event_known(self, id: Seq<char>) -> bool {
        exists|k: int| 0 <= k < self.positions@.len() && self.positions@[k].0@ == id
    }

    /// The position of a known event id.
    pub open spec fn event_pos(self, id: Seq<char>) -> PduCount {
        self.positions@[choose|k: int|
            0 <= k < self.positions@.len() && self.positions@[k].0@ == id].1
    }

    /// May `user` see the event `id`? Only an explicit grant answers yes:
    /// anything else, the oracle failing included, reads as not visible.
    pub open spec fn can_see(self, user: Seq<char>, id: Seq<char>) -> bool {
        exists|k: int|
            0 <= k < self.visibility@.len() && self.visibility@[k].0@ == user
                && self.visibility@[k].1@ == id
    }

    /// A service over an empty store.
    pub fn new() -> (r: Self)
        ensures
            r.wf(),
            r.rooms@.len() == 0,
            r.positions@.len() == 0,
            r.visibility@.len() == 0,
            r.db.edges@.len() == 0,
            r.db.events@.len() == 0,
            r.db.referenced@.len() == 0,
            r.db.soft_failed@.len() == 0,
    {
        Service { rooms: Vec::new(), positions: Vec::new(), visibility: Vec::new(), db: Data::new() }
    }

    /// The short id of `room_id`, if the resolver knows the room.
    pub fn find_room(&self, room_id: &str) -> (r: Option<u64>)
        requires
            self.wf(),
        ensures
            match r {
                Some(s) => self.room_known(room_id@) && s == self.room_short(room_id@),
                None => !self.room_known(room_id@),
            },
    {
        let wanted = room_id.to_owned();
        let n = self.rooms.len();
        let mut i: usize = 0;
        while i < n
            invariant
                self.wf(),
                n == self.rooms@.len(),
                i <= n,
                wanted@ == room_id@,
                forall|k: int| 0 <= k < i ==> self.rooms@[k]@ != room_id@,
            decreases n - i,
        {
            if self.rooms[i] == wanted {
                proof {
                    assert(self.rooms@[i as int]@ == room_id@);
                    let k = choose|k: int|
                        0 <= k < self.rooms@.len() && self.rooms@[k]@ == room_id@;
                    assert(k == i as int);
                }
                return Some(i as u64);
            }
            i = i + 1;
        }
        None
    }

    /// The short id of `room_id`, creating the room's slot when it is
    /// new; existing assignments never move.
    pub fn get_or_create_room(&mut self, room_id: &str) -> (s: u64)
        requires
            old(self).wf(),
        ensures
            final(self).wf(),
            final(self).room_known(room_id@),
            s == final(self).room_short(room_id@),
            forall|id: Seq<char>|
                final(self).room_known(id) == (old(self).room_known(id) || id == room_id@),
            forall|id: Seq<char>|
                old(self).room_known(id) ==> final(self).room_short(id) == old(self).room_short(
                    id,
                ),
            final(self).positions@ == old(self).positions@,
            final(self).visibility@ == old(self).visibility@,
            final(self).db == old(self).db,
    {
        match self.find_room(room_id) {
            Some(s) => s,
            None => {
                let k = self.rooms.len();
                let ghost oldr = self.rooms@;
                let owned = room_id.to_owned();
                self.rooms.push(owned);
                proof {
                    assert(self.rooms@.len() == oldr.len() + 1);
                    assert(self.rooms@[k as int]@ == room_id@);
                    assert(forall|j: int| 0 <= j < k ==> #[trigger] self.rooms@[j]@ == oldr[j]@);
                    assert forall|id: Seq<char>|
                        self.room_known(id) == (old(self).room_known(id) || id == room_id@) by {
                        if old(self).room_known(id) {
                            let j = choose|j: int| 0 <= j < oldr.len() && oldr[j]@ == id;
                            assert(self.rooms@[j]@ == id);
                        }
                        if self.room_known(id) {
                            let j = choose|j: int|
                                0 <= j < self.rooms@.len() && self.rooms@[j]@ == id;
                            if j < k {
                                assert(oldr[j]@ == id);
                            }
                        }
                    }
                    assert forall|id: Seq<char>| old(self).room_known(id) implies self.room_short(
                        id,
                    ) == old(self).room_short(id) by {
                        let j = choose|j: int| 0 <= j < oldr.len() && oldr[j]@ == id;
                        assert(self.rooms@[j]@ == id);
                        let j1 = choose|j1: int|
                            0 <= j1 < self.rooms@.len() && self.rooms@[j1]@ == id;
                        let j2 = choose|j2: int| 0 <= j2 < oldr.len() && oldr[j2]@ == id;
                        assert(self.rooms@[j2]@ == id);
                        assert(j1 == j2);
                    }
                    let kk = choose|kk: int|
                        0 <= kk < self.rooms@.len() && self.rooms@[kk]@ == room_id@;
                    assert(kk == k as int);
                }
                k as u64
            },
        }
    }

    /// The position the resolver knows for `event_id`, if any.
    pub fn get_pdu_count(&self, event_id: &str) -> (r: Option<PduCount>)
        requires
            self.wf(),
        ensures
            match r {
                Some(p) => self.event_known(event_id@) && p == self.event_pos(event_id@),
                None => !self.event_known(event_id@),
            },
    {
        let wanted = event_id.to_owned();
        let n = self.positions.len();
        let mut i: usize = 0;
        while i < n
            invariant
                self.wf(),
                n == self.positions@.len(),
                i <= n,
                wanted@ == event_id@,
                forall|k: int| 0 <= k < i ==> self.positions@[k].0@ != event_id@,
            decreases n - i,
        {
            if self.positions[i].0 == wanted {
                proof {
                    let k = choose|k: int|
                        0 <= k < self.positions@.len() && self.positions@[k].0@ == event_id@;
                    assert(k == i as int);
                }
                return Some(self.positions[i].1);
            }
            i = i + 1;
        }
        None
    }

    /// Stores an event of a room at its position, teaching the resolver
    /// its id. An id the resolver already knows is left untouched:
    /// events are immutable.
    pub fn insert_event(&mut self, room_id: &str, count: PduCount, event: PduEvent)
        requires
            old(self).wf(),
        ensures
            final(self).wf(),
            old(self).event_known(event.event_id@) ==> *final(self) == *old(self),
            !old(self).event_known(event.event_id@) ==> {
                &&& forall|id: Seq<char>|
                    final(self).event_known(id) == (old(self).event_known(id) || id
                        == event.event_id@)
                &&& final(self).event_known(event.event_id@)
                &&& final(self).event_pos(event.event_id@) == count
                &&& forall|id: Seq<char>|
                    old(self).event_known(id) ==> final(self).event_pos(id) == old(
                        self,
                    ).event_pos(id)
                &&& forall|id: Seq<char>|
                    final(self).room_known(id) == (old(self).room_known(id) || id == room_id@)
                &&& forall|id: Seq<char>|
                    old(self).room_known(id) ==> final(self).room_short(id) == old(
                        self,
                    ).room_short(id)
                &&& final(self).visibility@ == old(self).visibility@
                &&& final(self).db.edges@ == old(self).db.edges@
                &&& final(self).db.referenced@ == old(self).db.referenced@
                &&& final(self).db.soft_failed@ == old(self).db.soft_failed@
                &&& (match count {
                    PduCount::Normal(p) => forall|r2: u64, p2: u64|
                        final(self).db.stored_event_at(r2, p2) == if r2 == final(self).room_short(
                            room_id@,
                        ) && p2 == p && old(self).db.stored_event_at(
                            final(self).room_short(room_id@),
                            p,
                        ) is None {
                            Some(event)
                        } else {
                            old(self).db.stored_event_at(r2, p2)
                        },
                    PduCount::Backfilled(_) => final(self).db.events@ == old(self).db.events@,
                })
            },
    {
        if self.get_pdu_count(event.event_id.as_str()).is_some() {
            return ;
        }
        let short = self.get_or_create_room(room_id);
        let id = event.event_id.clone();
        let ghost oldp = self.positions@;
        self.positions.push((id, count));
        proof {
            assert(self.positions@[oldp.len() as int].0@ == event.event_id@);
            assert(forall|j: int|
                0 <= j < oldp.len() ==> #[trigger] self.positions@[j] == oldp[j]);
            assert forall|id2: Seq<char>|
                self.event_known(id2) == (old(self).event_known(id2) || id2
                    == event.event_id@) by {
                if old(self).event_known(id2) {
                    let j = choose|j: int| 0 <= j < oldp.len() && oldp[j].0@ == id2;
                    assert(self.positions@[j].0@ == id2);
                }
                if self.event_known(id2) {
                    let j = choose|j: int|
                        0 <= j < self.positions@.len() && self.positions@[j].0@ == id2;
                    if j < oldp.len() {
                        assert(oldp[j].0@ == id2);
                    }
                }
            }
            assert forall|id2: Seq<char>| old(self).event_known(id2) implies self.event_pos(id2)
                == old(self).event_pos(id2) by {
                let j = choose|j: int| 0 <= j < oldp.len() && oldp[j].0@ == id2;
                assert(self.positions@[j].0@ == id2);
                let j1 = choose|j1: int|
                    0 <= j1 < self.positions@.len() && self.positions@[j1].0@ == id2;
                let j2 = choose|j2: int| 0 <= j2 < oldp.len() && oldp[j2].0@ == id2;
                assert(self.positions@[j2].0@ == id2);
                assert(j1 == j2);
            }
            let kk = choose|kk: int|
                0 <= kk < self.positions@.len() && self.positions@[kk].0@ == event.event_id@;
            assert(kk == oldp.len() as int);
        }
        match count {
            PduCount::Normal(p) => {
                self.db.insert_event(short, p, event);
            },
            PduCount::Backfilled(_) => {},
        }
    }

    /// Grants `user_id` visibility of the event `event_id`.
    pub fn allow_visibility(&mut self, user_id: &str, event_id: &str)
        requires
            old(self).wf(),
        ensures
            final(self).wf(),
            forall|u: Seq<char>, id: Seq<char>|
                final(self).can_see(u, id) == (old(self).can_see(u, id) || (u == user_id@ && id
                    == event_id@)),
            final(self).rooms@ == old(self).rooms@,
            final(self).positions@ == old(self).positions@,
            final(self).db == old(self).db,
    {
        let ghost oldv = self.visibility@;
        self.visibility.push((user_id.to_owned(), event_id.to_owned()));
        proof {
            assert(self.visibility@[oldv.len() as int].0@ == user_id@);
            assert(self.visibility@[oldv.len() as int].1@ == event_id@);
            assert(forall|j: int|
                0 <= j < oldv.len() ==> #[trigger] self.visibility@[j] == oldv[j]);
            assert forall|u: Seq<char>, id: Seq<char>|
                self.can_see(u, id) == (old(self).can_see(u, id) || (u == user_id@ && id
                    == event_id@)) by {
                if old(self).can_see(u, id) {
                    let j = choose|j: int|
                        0 <= j < oldv.len() && oldv[j].0@ == u && oldv[j].1@ == id;
                    assert(self.visibility@[j].0@ == u && self.visibility@[j].1@ == id);
                }
                if self.can_see(u, id) {
                    let j = choose|j: int|
                        0 <= j < self.visibility@.len() && self.visibility@[j].0@ == u
                            && self.visibility@[j].1@ == id;
                    if j < oldv.len() {
                        assert(oldv[j].0@ == u && oldv[j].1@ == id);
                    }
                }
            }
        }
    }

    /// Asks the oracle whether `user_id` may see `event_id`.
    pub fn user_can_see_event(&self, user_id: &str, event_id: &str) -> (r: bool)
        ensures
            r == self.can_see(user_id@, event_id@),
    {
        let wu = user_id.to_owned();
        let we = event_id.to_owned();
        let n = self.visibility.len();
        let mut i: usize = 0;
        while i < n
            invariant
                n == self.visibility@.len(),
                i <= n,
                wu@ == user_id@,
                we@ == event_id@,
                forall|k: int|
                    0 <= k < i ==> !(self.visibility@[k].0@ == user_id@ && self.visibility@[k].1@
                        == event_id@),
            decreases n - i,
        {
            if self.visibility[i].0 == wu && self.visibility[i].1 == we {
                return true;
            }
            i = i + 1;
        }
        false
    }

    /// Records that the event at `from` relates to the event at `to` in
    /// `room_id`. With a backfilled endpoint this is a no-op that still
    /// returns success: backfilled relations are not indexed.
    pub fn add_relation(&mut self, room_id: &str, from: PduCount, to: PduCount) -> (r: Result<
        (),
        StoreError,
    >)
        requires
            old(self).wf(),
        ensures
            final(self).wf(),
            r is Ok,
            !(from is Normal && to is Normal) ==> *final(self) == *old(self),
            (from is Normal && to is Normal) ==> {
                &&& forall|id: Seq<char>|
                    final(self).room_known(id) == (old(self).room_known(id) || id == room_id@)
                &&& forall|id: Seq<char>|
                    old(self).room_known(id) ==> final(self).room_short(id) == old(
                        self,
                    ).room_short(id)
                &&& forall|r2: u64, t2: u64, f2: u64|
                    final(self).db.has_edge(r2, t2, f2) == (old(self).db.has_edge(r2, t2, f2) || (
                    r2 == final(self).room_short(room_id@) && t2 == to.value() && f2
                        == from.value()))
                &&& final(self).positions@ == old(self).positions@
                &&& final(self).visibility@ == old(self).visibility@
                &&& final(self).db.events@ == old(self).db.events@
                &&& final(self).db.referenced@ == old(self).db.referenced@
                &&& final(self).db.soft_failed@ == old(self).db.soft_failed@
            },
    {
        match (from, to) {
            (PduCount::Normal(f), PduCount::Normal(t)) => {
                let short = self.get_or_create_room(room_id);
                let ghost mid = *self;
                self.db.add_relation(short, f, t);
                proof {
                    assert(self.rooms@ == mid.rooms@);
                    assert(self.room_known(room_id@) == mid.room_known(room_id@));
                    assert(self.room_short(room_id@) == mid.room_short(room_id@));
                    assert(short == self.room_short(room_id@));
                    assert(mid.db == old(self).db);
                    assert forall|r2: u64, t2: u64, f2: u64|
                        self.db.has_edge(r2, t2, f2) == (old(self).db.has_edge(r2, t2, f2) || (r2
                            == self.room_short(room_id@) && t2 == to.value() && f2
                            == from.value())) by {
                        assert(self.db.has_edge(r2, t2, f2) == (mid.db.has_edge(r2, t2, f2) || (r2
                            == short && t2 == t && f2 == f)));
                    }
                    assert forall|id: Seq<char>|
                        self.room_known(id) == (old(self).room_known(id) || id == room_id@) by {
                        assert(self.room_known(id) == mid.room_known(id));
                    }
                    assert forall|id: Seq<char>| old(self).room_known(id) implies self.room_short(
                        id,
                    ) == old(self).room_short(id) by {
                        assert(self.room_short(id) == mid.room_short(id));
                    }
                }
                Ok(())
            },
            _ => {
                // backfilled relations are not indexed yet: a documented
                // gap, not an error
                Ok(())
            },
        }
    }

    /// Sets the referenced flag of each listed event of the room.
    pub fn mark_as_referenced(&mut self, room_id: &str, event_ids: &[String]) -> (r: Result<
        (),
        StoreError,
    >)
        requires
            old(self).wf(),
        ensures
            final(self).wf(),
            r is Ok,
            forall|id: Seq<char>|
                final(self).room_known(id) == (old(self).room_known(id) || id == room_id@),
            forall|id: Seq<char>|
                old(self).room_known(id) ==> final(self).room_short(id) == old(self).room_short(
                    id,
                ),
            forall|r2: u64, id: Seq<char>|
                final(self).db.is_referenced(r2, id) == (old(self).db.is_referenced(r2, id) || (r2
                    == final(self).room_short(room_id@) && exists|k: int|
                    0 <= k < event_ids@.len() && event_ids@[k]@ == id)),
            final(self).positions@ == old(self).positions@,
            final(self).visibility@ == old(self).visibility@,
            final(self).db.edges@ == old(self).db.edges@,
            final(self).db.events@ == old(self).db.events@,
            final(self).db.soft_failed@ == old(self).db.soft_failed@,
    {
        let short = self.get_or_create_room(room_id);
        let n = event_ids.len();
        let mut i: usize = 0;
        while i < n
            invariant
                self.wf(),
                n == event_ids@.len(),
                i <= n,
                short == self.room_short(room_id@),
                self.room_known(room_id@),
                forall|id: Seq<char>|
                    self.room_known(id) == (old(self).room_known(id) || id == room_id@),
                forall|id: Seq<char>|
                    old(self).room_known(id) ==> self.room_short(id) == old(self).room_short(id),
                forall|r2: u64, id: Seq<char>|
                    self.db.is_referenced(r2, id) == (old(self).db.is_referenced(r2, id) || (r2
                        == short && exists|k: int| 0 <= k < i && event_ids@[k]@ == id)),
                self.positions@ == old(self).positions@,
                self.visibility@ == old(self).visibility@,
                self.db.edges@ == old(self).db.edges@,
                self.db.events@ == old(self).db.events@,
                self.db.soft_failed@ == old(self).db.soft_failed@,
            decreases n - i,
        {
            let ghost before = *self;
            self.db.set_referenced(short, event_ids[i].as_str());
            proof {
                assert forall|r2: u64, id: Seq<char>|
                    self.db.is_referenced(r2, id) == (old(self).db.is_referenced(r2, id) || (r2
                        == short && exists|k: int| 0 <= k < i + 1 && event_ids@[k]@ == id)) by {
                    if self.db.is_referenced(r2, id) {
                        if !before.db.is_referenced(r2, id) {
                            assert(r2 == short && id == event_ids@[i as int]@);
                        }
                    }
                    if r2 == short && exists|k: int| 0 <= k < i + 1 && event_ids@[k]@ == id {
                        let k = choose|k: int| 0 <= k < i + 1 && event_ids@[k]@ == id;
                        if k < i {
                            assert(before.db.is_referenced(r2, id));
                        }
                    }
                }
            }
            i = i + 1;
        }
        Ok(())
    }

    /// Reads the referenced flag of `(room_id, event_id)`; a room the
    /// resolver does not know holds no flags.
    pub fn is_event_referenced(&self, room_id: &str, event_id: &str) -> (r: Result<
        bool,
        StoreError,
    >)
        requires
            self.wf(),
        ensures
            r == Ok::<bool, StoreError>(
                self.room_known(room_id@) && self.db.is_referenced(
                    self.room_short(room_id@),
                    event_id@,
                ),
            ),
    {
        match self.find_room(room_id) {
            Some(short) => Ok(self.db.get_referenced(short, event_id)),
            None => Ok(false),
        }
    }

    /// Sets the soft-failed flag of `event_id`.
    pub fn mark_event_soft_failed(&mut self, event_id: &str) -> (r: Result<(), StoreError>)
        requires
            old(self).wf(),
        ensures
            final(self).wf(),
            r is Ok,
            forall|id: Seq<char>|
                final(self).db.is_soft_failed(id) == (old(self).db.is_soft_failed(id) || id
                    == event_id@),
            final(self).rooms@ == old(self).rooms@,
            final(self).positions@ == old(self).positions@,
            final(self).visibility@ == old(self).visibility@,
            final(self).db.edges@ == old(self).db.edges@,
            final(self).db.events@ == old(self).db.events@,
            final(self).db.referenced@ == old(self).db.referenced@,
    {
        self.db.set_soft_failed(event_id);
        Ok(())
    }

    /// Reads the soft-failed flag of `event_id`: true after a mark, false
    /// for an event never marked.
    pub fn is_event_soft_failed(&self, event_id: &str) -> (r: Result<bool, StoreError>)
        ensures
            r == Ok::<bool, StoreError>(self.db.is_soft_failed(event_id@)),
    {
        Ok(self.db.get_soft_failed(event_id))
    }
}

} // verus!
