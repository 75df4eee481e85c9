//! The graph traversal engine: expands the relation index transitively
//! from a root event, bounded by depth, and returns every reached
//! `(position, event)` pair sorted by position ascending.

use vstd::prelude::*;

use crate::data::Data;
use crate::pdu::PduEvent;
use crate::position::Direction;
use crate::position::PduCount;
use crate::service::Service;
use crate::service::StoreError;

verus! {

broadcast use vstd::set::group_set_axioms;

/// The positions one hop away from any member of `s`: referrers of a
/// member, inside the scan bound, whose event deserializes.
pub open spec fn next_level(
    d: Data,
    room: u64,
    until: PduCount,
    dir: Direction,
    s: Set<u64>,
) -> Set<u64> {
    Set::new(
        |x: u64|
            exists|f: u64| s.contains(f) && d.direct_referrers(room, until, dir, f).contains(x),
    )
}

/// The positions reachable from the seed set `s` in at most `fuel - 1`
/// further hops; empty when `fuel` is zero. Level one of a traversal is
/// the seed itself: the direct referrers of the root.
pub open spec fn reach(
    d: Data,
    room: u64,
    until: PduCount,
    dir: Direction,
    s: Set<u64>,
    fuel: nat,
) -> Set<u64>
    decreases fuel,
{
    if fuel == 0 {
        Set::empty()
    } else {
        s.union(reach(d, room, until, dir, next_level(d, room, until, dir, s), (fuel - 1) as nat))
    }
}

/// A traversal bounded to one level returns exactly its seed: the direct
/// referrers of the root, however many indirect referrers exist.
pub proof fn lemma_reach_depth_one(d: Data, room: u64, until: PduCount, dir: Direction, s: Set<
    u64,
>)
    ensures
        reach(d, room, until, dir, s, 1) == s,
{
    assert(reach(d, room, until, dir, next_level(d, room, until, dir, s), 0) =~= Set::empty());
    assert(s.union(Set::empty()) =~= s);
}

/// The set of values a sequence holds.
pub open spec fn pos_set(s: Seq<u64>) -> Set<u64> {
    Set::new(|x: u64| s.contains(x))
}

/// Inserts `x` into a strictly ascending vector, keeping it strictly
/// ascending; present values are left alone.
fn insert_sorted(v: &mut Vec<u64>, x: u64)
    requires
        forall|i: int, j: int| 0 <= i < j < old(v)@.len() ==> old(v)@[i] < old(v)@[j],
    ensures
        forall|i: int, j: int| 0 <= i < j < final(v)@.len() ==> final(v)@[i] < final(v)@[j],
        forall|y: u64| final(v)@.contains(y) == (old(v)@.contains(y) || y == x),
{
    let n = v.len();
    let mut i: usize = 0;
    while i < n
        invariant
            *v == *old(v),
            forall|i2: int, j2: int| 0 <= i2 < j2 < v@.len() ==> v@[i2] < v@[j2],
            n == v@.len(),
            i <= n,
            forall|k: int| 0 <= k < i ==> v@[k] < x,
        ensures
            *v == *old(v),
            i <= n,
            forall|k: int| 0 <= k < i ==> v@[k] < x,
            i < n ==> v@[i as int] > x,
        decreases n - i,
    {
        let e = v[i];
        if e == x {
            proof {
                assert(old(v)@[i as int] == x);
                assert(old(v)@.contains(x));
            }
            return ;
        }
        if e > x {
            break ;
        }
        i = i + 1;
    }
    let ghost oldv = v@;
    v.insert(i, x);
    proof {
        oldv.insert_ensures(i as int, x);
        assert forall|i2: int, j2: int| 0 <= i2 < j2 < v@.len() implies v@[i2] < v@[j2] by {
            if j2 < i {
            } else if j2 == i {
                assert(v@[i2] == oldv[i2]);
            } else if i2 < i {
                assert(v@[i2] == oldv[i2] && v@[j2] == oldv[j2 - 1]);
                assert(i2 <= j2 - 1);
                if i2 == j2 - 1 {
                    assert(v@[j2] == oldv[i2]);
                    assert(oldv[i as int] > x);
                    assert(false);
                }
            } else if i2 == i {
                assert(v@[j2] == oldv[j2 - 1]);
                assert(j2 - 1 >= i);
                assert(oldv[i as int] > x);
                if j2 - 1 > i {
                    assert(oldv[i as int] < oldv[j2 - 1]);
                }
            } else {
                assert(v@[i2] == oldv[i2 - 1] && v@[j2] == oldv[j2 - 1]);
            }
        }
        assert forall|y: u64| v@.contains(y) == (oldv.contains(y) || y == x) by {
            if v@.contains(y) {
                let k = choose|k: int| 0 <= k < v@.len() && v@[k] == y;
                if k < i {
                    assert(oldv[k] == y);
                } else if k > i {
                    assert(oldv[k - 1] == y);
                }
            }
            if oldv.contains(y) {
                let k = choose|k: int| 0 <= k < oldv.len() && oldv[k] == y;
                if k < i {
                    assert(v@[k] == y);
                } else {
                    assert(v@[k + 1] == y);
                }
            }
            if y == x {
                assert(v@[i as int] == y);
            }
        }
    }
}

impl Service {
    /// The position the traversal starts from for a root event id: its
    /// normal position counter if the resolver knows one, else zero — an
    /// unresolved or backfilled root degrades to an empty result.
    pub open spec fn resolved_target(self, id: Seq<char>) -> u64 {
        if self.event_known(id) && self.event_pos(id) is Normal {
            self.event_pos(id).value()
        } else {
            0
        }
    }

    /// Expands the relation index transitively from `target`, visiting
    /// the direct referrers at depth one and following referrers while
    /// the depth stays within `max_depth`; every reached pair is
    /// returned, deduplicated and sorted by position ascending.
    pub fn relations_until(
        &self,
        user_id: &str,
        room_id: &str,
        target: &str,
        until: PduCount,
        max_depth: u8,
        dir: Direction,
    ) -> (r: Result<Vec<(PduCount, PduEvent)>, StoreError>)
        requires
            self.wf(),
            max_depth >= 1,
        ensures
            r is Ok,
            !self.room_known(room_id@) ==> r->Ok_0@.len() == 0,
            self.room_known(room_id@) ==> {
                let room = self.room_short(room_id@);
                let total = reach(
                    self.db,
                    room,
                    until,
                    dir,
                    self.db.direct_referrers(room, until, dir, self.resolved_target(target@)),
                    max_depth as nat,
                );
                let v = r->Ok_0;
                &&& forall|i: int|
                    0 <= i < v@.len() ==> (#[trigger] v@[i]).0 is Normal && total.contains(
                        v@[i].0.value(),
                    ) && Some(v@[i].1) == self.db.stored_event_at(room, v@[i].0.value())
                &&& forall|f: u64|
                    #[trigger] total.contains(f) ==> exists|i: int|
                        0 <= i < v@.len() && v@[i].0 == PduCount::Normal(f)
                &&& forall|i: int, j: int| 0 <= i < j < v@.len() ==> v@[i].0.value()
                    < v@[j].0.value()
            },
    {
        let room = match self.find_room(room_id) {
            Some(r) => r,
            None => {
                return Ok(Vec::new());
            },
        };
        let tgt: u64 = match self.get_pdu_count(target) {
            Some(PduCount::Normal(c)) => c,
            _ => 0,
        };
        proof {
            assert(tgt == self.resolved_target(target@));
        }
        let ghost seed = self.db.direct_referrers(room, until, dir, tgt);
        let ghost total = reach(self.db, room, until, dir, seed, max_depth as nat);

        let direct = self.db.relations_until(room, tgt, until, dir);
        let mut found: Vec<u64> = Vec::new();
        let mut frontier: Vec<u64> = Vec::new();
        let dn = direct.len();
        let mut di: usize = 0;
        proof {
            assert(total == seed.union(
                reach(
                    self.db,
                    room,
                    until,
                    dir,
                    next_level(self.db, room, until, dir, seed),
                    (max_depth - 1) as nat,
                ),
            ));
        }
        while di < dn
            invariant
                dn == direct@.len(),
                di <= dn,
                found@ == frontier@,
                forall|i: int|
                    0 <= i < direct@.len() ==> (#[trigger] direct@[i]).0 is Normal
                        && seed.contains(direct@[i].0.value()),
                forall|f: u64|
                    #[trigger] seed.contains(f) ==> exists|i: int|
                        0 <= i < direct@.len() && direct@[i].0 == PduCount::Normal(f),
                forall|a: int|
                    0 <= a < found@.len() ==> seed.contains(#[trigger] found@[a]),
                forall|j: int|
                    0 <= j < di ==> found@.contains((#[trigger] direct@[j]).0.value()),
            decreases dn - di,
        {
            let c = match &direct[di].0 {
                PduCount::Normal(v) => *v,
                PduCount::Backfilled(v) => *v,
            };
            proof {
                assert(c == direct@[di as int].0.value());
            }
            let ghost foundb = found@;
            found.push(c);
            frontier.push(c);
            proof {
                assert(found@ == foundb.push(c));
                assert(found@[found@.len() - 1] == c);
                assert(found@.contains(direct@[di as int].0.value()));
                assert forall|x: u64| #[trigger] foundb.contains(x) implies found@.contains(x) by {
                    let k = choose|k: int| 0 <= k < foundb.len() && foundb[k] == x;
                    assert(found@[k] == x);
                }
                assert forall|j: int| 0 <= j < di + 1 implies found@.contains(
                    (#[trigger] direct@[j]).0.value(),
                ) by {
                    if j < di {
                        assert(foundb.contains(direct@[j].0.value()));
                    }
                }
            }
            di = di + 1;
        }
        proof {
            assert forall|f: u64| seed.contains(f) implies found@.contains(f) by {
                let i = choose|i: int|
                    0 <= i < direct@.len() && direct@[i].0 == PduCount::Normal(f);
                assert(found@.contains(direct@[i].0.value()));
            }
        }
        proof {
            assert forall|x: u64| pos_set(frontier@).contains(x) implies seed.contains(x) by {
                let a = choose|a: int| 0 <= a < frontier@.len() && frontier@[a] == x;
                assert(seed.contains(found@[a]));
            }
            assert forall|x: u64| seed.contains(x) implies pos_set(frontier@).contains(x) by {
                assert(found@.contains(x));
            }
            assert(pos_set(frontier@) =~= seed);
            assert(reach(
                self.db,
                room,
                until,
                dir,
                pos_set(frontier@),
                max_depth as nat,
            ).subset_of(total));
            assert forall|x: u64| total.contains(x) implies pos_set(found@).union(
                reach(
                    self.db,
                    room,
                    until,
                    dir,
                    next_level(self.db, room, until, dir, pos_set(frontier@)),
                    (max_depth - 1) as nat,
                ),
            ).contains(x) by {
                if !pos_set(found@).contains(x) {
                    assert(!seed.contains(x));
                }
            }
            assert forall|a: int| 0 <= a < found@.len() implies total.contains(
                #[trigger] found@[a],
            ) by {
                assert(seed.contains(found@[a]));
            }
        }
        let mut depth: u8 = 1;
        while depth < max_depth
            invariant
                self.wf(),
                1 <= depth <= max_depth,
                seed == self.db.direct_referrers(room, until, dir, tgt),
                total == reach(self.db, room, until, dir, seed, max_depth as nat),
                forall|a: int|
                    0 <= a < found@.len() ==> total.contains(#[trigger] found@[a]),
                forall|a: int|
                    0 <= a < frontier@.len() ==> found@.contains(#[trigger] frontier@[a]),
                // all the frontier can still contribute lies inside the total
                reach(
                    self.db,
                    room,
                    until,
                    dir,
                    pos_set(frontier@),
                    (max_depth - depth + 1) as nat,
                ).subset_of(total),
                // what remains of the total is at most the frontier's onward reach
                total.subset_of(
                    pos_set(found@).union(
                        reach(
                            self.db,
                            room,
                            until,
                            dir,
                            next_level(self.db, room, until, dir, pos_set(frontier@)),
                            (max_depth - depth) as nat,
                        ),
                    ),
                ),
            decreases max_depth - depth,
        {
            let ghost fset = pos_set(frontier@);
            let ghost fuel: nat = (max_depth - depth) as nat;
            let mut next: Vec<u64> = Vec::new();
            let fn_ = frontier.len();
            let mut b: usize = 0;
            while b < fn_
                invariant
                    self.wf(),
                    fn_ == frontier@.len(),
                    b <= fn_,
                    fset == pos_set(frontier@),
                    fuel >= 1,
                    seed == self.db.direct_referrers(room, until, dir, tgt),
                    total == reach(self.db, room, until, dir, seed, max_depth as nat),
                    reach(self.db, room, until, dir, fset, (fuel + 1) as nat).subset_of(total),
                    forall|a: int|
                        0 <= a < found@.len() ==> total.contains(#[trigger] found@[a]),
                    forall|a: int|
                        0 <= a < frontier@.len() ==> found@.contains(#[trigger] frontier@[a]),
                    total.subset_of(
                        pos_set(found@).union(
                            reach(
                                self.db,
                                room,
                                until,
                                dir,
                                next_level(self.db, room, until, dir, fset),
                                fuel,
                            ),
                        ),
                    ),
                    // the next frontier so far holds the referrers of the
                    // processed prefix, and all of it is already recorded
                    forall|x: u64|
                        #[trigger] next@.contains(x) ==> exists|b2: int|
                            0 <= b2 < b && self.db.direct_referrers(
                                room,
                                until,
                                dir,
                                frontier@[b2],
                            ).contains(x),
                    forall|b2: int, x: u64|
                        0 <= b2 < b && #[trigger] self.db.direct_referrers(
                            room,
                            until,
                            dir,
                            frontier@[b2],
                        ).contains(x) ==> next@.contains(x) && found@.contains(x),
                decreases fn_ - b,
            {
                let fi = frontier[b];
                let children = self.db.relations_until(room, fi, until, dir);
                let ghost childset = self.db.direct_referrers(room, until, dir, fi);
                proof {
                    // every child is within the total: one hop from the
                    // frontier, whose onward reach lies inside it
                    assert(frontier@[b as int] == fi);
                    assert(frontier@.contains(fi));
                    assert(fset.contains(fi));
                    assert(reach(self.db, room, until, dir, fset, (fuel + 1) as nat)
                        == fset.union(
                        reach(
                            self.db,
                            room,
                            until,
                            dir,
                            next_level(self.db, room, until, dir, fset),
                            fuel,
                        ),
                    ));
                    assert(reach(
                        self.db,
                        room,
                        until,
                        dir,
                        next_level(self.db, room, until, dir, fset),
                        fuel,
                    ) == next_level(self.db, room, until, dir, fset).union(
                        reach(
                            self.db,
                            room,
                            until,
                            dir,
                            next_level(
                                self.db,
                                room,
                                until,
                                dir,
                                next_level(self.db, room, until, dir, fset),
                            ),
                            (fuel - 1) as nat,
                        ),
                    ));
                    assert forall|x: u64| childset.contains(x) implies total.contains(x) by {
                        assert(next_level(self.db, room, until, dir, fset).contains(x));
                    }
                }
                let cn = children.len();
                let mut ci: usize = 0;
                while ci < cn
                    invariant
                        cn == children@.len(),
                        ci <= cn,
                        childset == self.db.direct_referrers(room, until, dir, frontier@[b as int]),
                        b < frontier@.len(),
                        forall|i: int|
                            0 <= i < children@.len() ==> (#[trigger] children@[i]).0 is Normal
                                && childset.contains(children@[i].0.value()),
                        forall|f: u64|
                            #[trigger] childset.contains(f) ==> exists|i: int|
                                0 <= i < children@.len() && children@[i].0 == PduCount::Normal(f),
                        forall|x: u64| childset.contains(x) ==> total.contains(x),
                        forall|a: int|
                            0 <= a < found@.len() ==> total.contains(#[trigger] found@[a]),
                        forall|a: int|
                            0 <= a < frontier@.len() ==> found@.contains(#[trigger] frontier@[a]),
                        total.subset_of(
                            pos_set(found@).union(
                                reach(
                                    self.db,
                                    room,
                                    until,
                                    dir,
                                    next_level(self.db, room, until, dir, fset),
                                    fuel,
                                ),
                            ),
                        ),
                        forall|x: u64|
                            #[trigger] next@.contains(x) ==> (exists|b2: int|
                                0 <= b2 < b && self.db.direct_referrers(
                                    room,
                                    until,
                                    dir,
                                    frontier@[b2],
                                ).contains(x)) || childset.contains(x),
                        forall|b2: int, x: u64|
                            0 <= b2 < b && #[trigger] self.db.direct_referrers(
                                room,
                                until,
                                dir,
                                frontier@[b2],
                            ).contains(x) ==> next@.contains(x) && found@.contains(x),
                        forall|j: int|
                            0 <= j < ci ==> next@.contains((#[trigger] children@[j]).0.value())
                                && found@.contains(children@[j].0.value()),
                    decreases cn - ci,
                {
                    let c = match &children[ci].0 {
                        PduCount::Normal(v) => *v,
                        PduCount::Backfilled(v) => *v,
                    };
                    proof {
                        assert(c == children@[ci as int].0.value());
                        assert(childset.contains(c));
                    }
                    let ghost nextb = next@;
                    let ghost foundb = found@;
                    next.push(c);
                    found.push(c);
                    proof {
                        assert(next@ == nextb.push(c));
                        assert(found@ == foundb.push(c));
                        assert(next@[next@.len() - 1] == c);
                        assert(found@[found@.len() - 1] == c);
                        assert(next@.contains(c));
                        assert(found@.contains(c));
                        assert forall|x: u64| #[trigger] nextb.contains(x) implies next@.contains(
                            x,
                        ) by {
                            let k = choose|k: int| 0 <= k < nextb.len() && nextb[k] == x;
                            assert(next@[k] == x);
                        }
                        assert forall|x: u64| #[trigger] foundb.contains(
                            x,
                        ) implies found@.contains(x) by {
                            let k = choose|k: int| 0 <= k < foundb.len() && foundb[k] == x;
                            assert(found@[k] == x);
                        }
                        assert forall|x: u64| #[trigger] next@.contains(x) implies nextb.contains(
                            x,
                        ) || x == c by {
                            let k = choose|k: int| 0 <= k < next@.len() && next@[k] == x;
                            if k < next@.len() - 1 {
                                assert(nextb[k] == x);
                            }
                        }
                        assert forall|x: u64| #[trigger] found@.contains(
                            x,
                        ) implies foundb.contains(x) || x == c by {
                            let k = choose|k: int| 0 <= k < found@.len() && found@[k] == x;
                            if k < found@.len() - 1 {
                                assert(foundb[k] == x);
                            }
                        }
                        assert forall|x: u64| total.contains(x) implies pos_set(found@).union(
                            reach(
                                self.db,
                                room,
                                until,
                                dir,
                                next_level(self.db, room, until, dir, fset),
                                fuel,
                            ),
                        ).contains(x) by {
                            if pos_set(foundb).contains(x) {
                                assert(found@.contains(x));
                                assert(pos_set(found@).contains(x));
                            }
                        }
                    }
                    ci = ci + 1;
                }
                proof {
                    assert forall|x: u64| childset.contains(x) implies next@.contains(x)
                        && found@.contains(x) by {
                        let i = choose|i: int|
                            0 <= i < children@.len() && children@[i].0 == PduCount::Normal(x);
                        assert(next@.contains(children@[i].0.value()));
                        assert(found@.contains(children@[i].0.value()));
                    }
                }
                b = b + 1;
            }
            proof {
                // the next frontier now holds exactly one hop from the old
                let nl = next_level(self.db, room, until, dir, fset);
                assert forall|x: u64| pos_set(next@).contains(x) implies nl.contains(x) by {
                    let b2 = choose|b2: int|
                        0 <= b2 < frontier@.len() && self.db.direct_referrers(
                            room,
                            until,
                            dir,
                            frontier@[b2],
                        ).contains(x);
                    assert(fset.contains(frontier@[b2]));
                }
                assert forall|x: u64| nl.contains(x) implies pos_set(next@).contains(x) by {
                    let f = choose|f: u64|
                        fset.contains(f) && self.db.direct_referrers(
                            room,
                            until,
                            dir,
                            f,
                        ).contains(x);
                    let b2 = choose|b2: int| 0 <= b2 < frontier@.len() && frontier@[b2] == f;
                    assert(self.db.direct_referrers(room, until, dir, frontier@[b2]).contains(x));
                }
                assert(pos_set(next@) =~= nl);
                assert forall|x: u64| nl.contains(x) implies found@.contains(x) by {
                    let f = choose|f: u64|
                        fset.contains(f) && self.db.direct_referrers(
                            room,
                            until,
                            dir,
                            f,
                        ).contains(x);
                    let b2 = choose|b2: int| 0 <= b2 < frontier@.len() && frontier@[b2] == f;
                    assert(self.db.direct_referrers(room, until, dir, frontier@[b2]).contains(x));
                }
                // shift the containments one level down for the next turn
                assert(reach(self.db, room, until, dir, nl, fuel).subset_of(total));
                assert forall|x: u64| total.contains(x) implies pos_set(found@).union(
                    reach(
                        self.db,
                        room,
                        until,
                        dir,
                        next_level(self.db, room, until, dir, nl),
                        (fuel - 1) as nat,
                    ),
                ).contains(x) by {
                    if !pos_set(found@).contains(x) {
                        assert(reach(self.db, room, until, dir, nl, fuel).contains(x));
                        assert(reach(self.db, room, until, dir, nl, fuel) == nl.union(
                            reach(
                                self.db,
                                room,
                                until,
                                dir,
                                next_level(self.db, room, until, dir, nl),
                                (fuel - 1) as nat,
                            ),
                        ));
                        assert(!nl.contains(x));
                    }
                }
            }
            proof {
                let nl2 = next_level(self.db, room, until, dir, fset);
                assert forall|a: int| 0 <= a < next@.len() implies found@.contains(
                    #[trigger] next@[a],
                ) by {
                    assert(next@.contains(next@[a]));
                    assert(pos_set(next@).contains(next@[a]));
                    assert(nl2.contains(next@[a]));
                }
            }
            frontier = next;
            depth = depth + 1;
        }
        proof {
            assert((max_depth - depth) as nat == 0);
            assert(reach(
                self.db,
                room,
                until,
                dir,
                next_level(self.db, room, until, dir, pos_set(frontier@)),
                0,
            ) =~= Set::empty());
            assert forall|f: u64| total.contains(f) implies found@.contains(f) by {
                assert(pos_set(found@).union(Set::empty()).contains(f));
            }
        }
        // deduplicate and order ascending
        let mut acc: Vec<u64> = Vec::new();
        let fnd = found.len();
        let mut i: usize = 0;
        while i < fnd
            invariant
                fnd == found@.len(),
                i <= fnd,
                forall|i2: int, j2: int| 0 <= i2 < j2 < acc@.len() ==> acc@[i2] < acc@[j2],
                forall|y: u64| acc@.contains(y) == exists|k: int| 0 <= k < i && found@[k] == y,
            decreases fnd - i,

        {
            let ghost accb = acc@;
            insert_sorted(&mut acc, found[i]);
            proof {
                assert forall|y: u64| acc@.contains(y) == exists|k: int|
                    0 <= k < i + 1 && found@[k] == y by {
                    if acc@.contains(y) {
                        if accb.contains(y) {
                            let k = choose|k: int| 0 <= k < i && found@[k] == y;
                        } else {
                            assert(y == found@[i as int]);
                        }
                    }
                    if exists|k: int| 0 <= k < i + 1 && found@[k] == y {
                        let k = choose|k: int| 0 <= k < i + 1 && found@[k] == y;
                        if k < i {
                            assert(accb.contains(y));
                        }
                    }
                }
            }
            i = i + 1;
        }
        proof {
            assert forall|y: u64| acc@.contains(y) implies total.contains(y) by {
                let k = choose|k: int| 0 <= k < found@.len() && found@[k] == y;
            }
            assert forall|y: u64| total.contains(y) implies acc@.contains(y) by {
                let k = choose|k: int| 0 <= k < found@.len() && found@[k] == y;
            }
        }
        // resolve each position back to its event
        let mut out: Vec<(PduCount, PduEvent)> = Vec::new();
        let an = acc.len();
        let mut ai: usize = 0;
        while ai < an
            invariant
                self.wf(),
                an == acc@.len(),
                ai <= an,
                out@.len() == ai,
                seed == self.db.direct_referrers(room, until, dir, tgt),
                total == reach(self.db, room, until, dir, seed, max_depth as nat),
                forall|i2: int, j2: int| 0 <= i2 < j2 < acc@.len() ==> acc@[i2] < acc@[j2],
                forall|y: u64| acc@.contains(y) == total.contains(y),
                forall|k: int|
                    0 <= k < ai ==> (#[trigger] out@[k]).0 == PduCount::Normal(acc@[k]) && Some(
                        out@[k].1,
                    ) == self.db.stored_event_at(room, acc@[k]),
            decreases an - ai,
        {
            let f = acc[ai];
            match self.db.get_event(room, f) {
                Some(e) => {
                    out.push((PduCount::Normal(f), e.duplicate()));
                },
                None => {
                    proof {
                        assert(acc@.contains(f));
                        assert(total.contains(f));
                        assert forall|x: u64| seed.contains(x) implies self.db.stored_event_at(
                            room,
                            x,
                        ) is Some by {}
                        lemma_reach_members_stored(
                            self.db,
                            room,
                            until,
                            dir,
                            seed,
                            max_depth as nat,
                            f,
                        );
                        assert(false);
                    }
                },
            }
            ai = ai + 1;
        }
        proof {
            assert forall|f: u64| #[trigger] total.contains(f) implies exists|i2: int|
                0 <= i2 < out@.len() && out@[i2].0 == PduCount::Normal(f) by {
                let k = choose|k: int| 0 <= k < acc@.len() && acc@[k] == f;
                assert(out@[k].0 == PduCount::Normal(f));
            }
            assert forall|i2: int| 0 <= i2 < out@.len() implies (#[trigger] out@[i2]).0 is Normal
                && total.contains(out@[i2].0.value()) && Some(out@[i2].1)
                == self.db.stored_event_at(room, out@[i2].0.value()) by {
                assert(out@[i2].0 == PduCount::Normal(acc@[i2]));
                assert(acc@.contains(acc@[i2]));
            }
        }
        Ok(out)
    }
}

/// Every member of a bounded reach set is a referrer inside the bound
/// whose event is stored.
proof fn lemma_reach_members_stored(
    d: Data,
    room: u64,
    until: PduCount,
    dir: Direction,
    s: Set<u64>,
    fuel: nat,
    f: u64,
)
    requires
        reach(d, room, until, dir, s, fuel).contains(f),
        forall|x: u64| s.contains(x) ==> d.stored_event_at(room, x) is Some,
    ensures
        d.stored_event_at(room, f) is Some,
    decreases fuel,
{
    if fuel > 0 {
        if !s.contains(f) {
            assert(reach(
                d,
                room,
                until,
                dir,
                next_level(d, room, until, dir, s),
                (fuel - 1) as nat,
            ).contains(f));
            assert forall|x: u64| next_level(d, room, until, dir, s).contains(x) implies
                d.stored_event_at(room, x) is Some by {
                let g = choose|g: u64|
                    s.contains(g) && d.direct_referrers(room, until, dir, g).contains(x);
            }
            lemma_reach_members_stored(
                d,
                room,
                until,
                dir,
                next_level(d, room, until, dir, s),
                (fuel - 1) as nat,
                f,
            );
        }
    }
}

} // verus!
