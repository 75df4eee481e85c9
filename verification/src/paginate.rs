//! The pagination and filter engine: resolves opaque cursors into
//! traversal bounds, applies the event-type, relation-type and visibility
//! filters in their fixed order, enforces the result-size limit, cuts the
//! scan at the exclusive `to` bound, orders the chunk by direction, and
//! emits the next and previous cursors.

use vstd::prelude::*;
use vstd::string::*;

use crate::pdu::declared_rel_type;
use crate::pdu::declares_rel_type;
use crate::pdu::PduEvent;
use crate::position::parse;
use crate::position::token_chars;
use crate::position::token_valid;
use crate::position::token_value;
use crate::position::Direction;
use crate::position::ParseError;
use crate::position::PduCount;
use crate::service::Service;
use crate::traverse::reach;

verus! {

/// The response of one paginated relation query: the filtered chunk in
/// direction order, the cursor to resume from, the cursor of this page,
/// and the traversal depth when recursion was requested.
pub struct Response {
    pub chunk: Vec<PduEvent>,
    pub next_batch: Option<String>,
    pub prev_batch: Option<String>,
    pub recursion_depth: Option<u64>,
}

/// Is the `from` cursor, when present, a well-formed token?
pub open spec fn from_valid(from: Option<String>) -> bool {
    match from {
        Some(f) => token_valid(f@),
        None => true,
    }
}

/// The position the scan starts from: the parsed cursor, or the domain
/// sentinel the direction calls for.
pub open spec fn resolved_from(from: Option<String>, dir: Direction) -> PduCount {
    match from {
        Some(f) => token_value(f@),
        None => match dir {
            Direction::Forward => PduCount::spec_min(),
            Direction::Backward => PduCount::spec_max(),
        },
    }
}

/// The stop bound: the parsed `to` cursor; a malformed one is dropped
/// rather than rejected.
pub open spec fn resolved_to(to: Option<String>) -> Option<PduCount> {
    match to {
        Some(t) => if token_valid(t@) {
            Some(token_value(t@))
        } else {
            None
        },
        None => None,
    }
}

/// The effective result-size limit: the default of ten when absent,
/// capped at one hundred.
pub open spec fn eff_limit(limit: Option<u64>) -> nat {
    let l: nat = match limit {
        Some(v) => v as nat,
        None => 10,
    };
    if l > 100 {
        100
    } else {
        l
    }
}

/// Does the pair pass the event-type filter and the relation-type
/// filter? An unset filter passes everything; a set relation-type filter
/// requires the content to declare a relation of exactly that type.
pub open spec fn passes(p: (PduCount, PduEvent), ft: Option<String>, fr: Option<String>) -> bool {
    &&& match ft {
        Some(t) => p.1.kind@ == t@,
        None => true,
    }
    &&& match fr {
        Some(r) => declared_rel_type(p.1.content@) == Some(r@),
        None => true,
    }
}

/// The surviving pairs of a sorted traversal sequence, in order: the
/// filters consume the limit budget, the visibility oracle then hides
/// pairs without refunding it, and the scan stops just before the first
/// visible pair at the exclusive `to` bound.
pub open spec fn page_sel(
    svc: Service,
    user: Seq<char>,
    s: Seq<(PduCount, PduEvent)>,
    ft: Option<String>,
    fr: Option<String>,
    to: Option<PduCount>,
    remaining: nat,
) -> Seq<(PduCount, PduEvent)>
    decreases s.len(),
{
    if s.len() == 0 || remaining == 0 {
        Seq::empty()
    } else if !passes(s[0], ft, fr) {
        page_sel(svc, user, s.drop_first(), ft, fr, to, remaining)
    } else if !svc.can_see(user, s[0].1.event_id@) {
        page_sel(svc, user, s.drop_first(), ft, fr, to, (remaining - 1) as nat)
    } else if to == Some(s[0].0) {
        Seq::empty()
    } else {
        seq![s[0]] + page_sel(svc, user, s.drop_first(), ft, fr, to, (remaining - 1) as nat)
    }
}

/// What the pagination engine guarantees of its selection: it never
/// exceeds the limit budget, holds only pairs of the traversal that pass
/// both filters and are visible to the viewer, never holds a pair at the
/// exclusive `to` bound, and keeps the ascending position order.
pub proof fn lemma_page_sel_props(
    svc: Service,
    user: Seq<char>,
    s: Seq<(PduCount, PduEvent)>,
    ft: Option<String>,
    fr: Option<String>,
    to: Option<PduCount>,
    rem: nat,
)
    requires
        forall|i: int, j: int| 0 <= i < j < s.len() ==> s[i].0.value() < s[j].0.value(),
    ensures
        page_sel(svc, user, s, ft, fr, to, rem).len() <= rem,
        forall|k: int|
            0 <= k < page_sel(svc, user, s, ft, fr, to, rem).len() ==> {
                let e = #[trigger] page_sel(svc, user, s, ft, fr, to, rem)[k];
                &&& exists|i: int| 0 <= i < s.len() && s[i] == e
                &&& passes(e, ft, fr)
                &&& svc.can_see(user, e.1.event_id@)
                &&& Some(e.0) != to
            },
        forall|a: int, b: int|
            0 <= a < b < page_sel(svc, user, s, ft, fr, to, rem).len() ==> page_sel(
                svc,
                user,
                s,
                ft,
                fr,
                to,
                rem,
            )[a].0.value() < page_sel(svc, user, s, ft, fr, to, rem)[b].0.value(),
    decreases s.len(),
{
    let sel = page_sel(svc, user, s, ft, fr, to, rem);
    if s.len() == 0 || rem == 0 {
    } else {
        let rest = s.drop_first();
        assert forall|i: int, j: int| 0 <= i < j < rest.len() implies rest[i].0.value()
            < rest[j].0.value() by {
            assert(rest[i] == s[i + 1] && rest[j] == s[j + 1]);
        }
        if !passes(s[0], ft, fr) {
            lemma_page_sel_props(svc, user, rest, ft, fr, to, rem);
            assert forall|k: int| 0 <= k < sel.len() implies {
                let e = #[trigger] sel[k];
                &&& exists|i: int| 0 <= i < s.len() && s[i] == e
                &&& passes(e, ft, fr)
                &&& svc.can_see(user, e.1.event_id@)
                &&& Some(e.0) != to
            } by {
                let i = choose|i: int| 0 <= i < rest.len() && rest[i] == sel[k];
                assert(s[i + 1] == sel[k]);
            }
        } else if !svc.can_see(user, s[0].1.event_id@) {
            lemma_page_sel_props(svc, user, rest, ft, fr, to, (rem - 1) as nat);
            assert forall|k: int| 0 <= k < sel.len() implies {
                let e = #[trigger] sel[k];
                &&& exists|i: int| 0 <= i < s.len() && s[i] == e
                &&& passes(e, ft, fr)
                &&& svc.can_see(user, e.1.event_id@)
                &&& Some(e.0) != to
            } by {
                let i = choose|i: int| 0 <= i < rest.len() && rest[i] == sel[k];
                assert(s[i + 1] == sel[k]);
            }
        } else if to == Some(s[0].0) {
        } else {
            lemma_page_sel_props(svc, user, rest, ft, fr, to, (rem - 1) as nat);
            let subsel = page_sel(svc, user, rest, ft, fr, to, (rem - 1) as nat);
            assert(sel == seq![s[0]] + subsel);
            assert(sel[0] == s[0]);
            assert forall|k: int| 0 <= k < sel.len() implies {
                let e = #[trigger] sel[k];
                &&& exists|i: int| 0 <= i < s.len() && s[i] == e
                &&& passes(e, ft, fr)
                &&& svc.can_see(user, e.1.event_id@)
                &&& Some(e.0) != to
            } by {
                if k == 0 {
                    assert(s[0] == sel[0]);
                } else {
                    assert(sel[k] == subsel[k - 1]);
                    let i = choose|i: int| 0 <= i < rest.len() && rest[i] == subsel[k - 1];
                    assert(s[i + 1] == sel[k]);
                }
            }
            assert forall|a: int, b: int| 0 <= a < b < sel.len() implies sel[a].0.value()
                < sel[b].0.value() by {
                if a == 0 {
                    assert(sel[b] == subsel[b - 1]);
                    let i = choose|i: int| 0 <= i < rest.len() && rest[i] == subsel[b - 1];
                    assert(rest[i] == s[i + 1]);
                    assert(s[0].0.value() < s[i + 1].0.value());
                } else {
                    assert(sel[a] == subsel[a - 1] && sel[b] == subsel[b - 1]);
                }
            }
        }
    }
}

/// The traversal sequence a pagination ran over: ordered ascending and
/// covering exactly the bounded reach of the root, or empty for a room
/// the resolver does not know.
pub open spec fn traversal_ok(
    svc: Service,
    room_id: Seq<char>,
    target: Seq<char>,
    until: PduCount,
    depth: nat,
    dir: Direction,
    tr: Seq<(PduCount, PduEvent)>,
) -> bool {
    if svc.room_known(room_id) {
        let room = svc.room_short(room_id);
        let total = reach(
            svc.db,
            room,
            until,
            dir,
            svc.db.direct_referrers(room, until, dir, svc.resolved_target(target)),
            depth,
        );
        &&& forall|i: int|
            0 <= i < tr.len() ==> (#[trigger] tr[i]).0 is Normal && total.contains(
                tr[i].0.value(),
            ) && Some(tr[i].1) == svc.db.stored_event_at(room, tr[i].0.value())
        &&& forall|f: u64|
            #[trigger] total.contains(f) ==> exists|i: int|
                0 <= i < tr.len() && tr[i].0 == PduCount::Normal(f)
        &&& forall|i: int, j: int| 0 <= i < j < tr.len() ==> tr[i].0.value() < tr[j].0.value()
    } else {
        tr.len() == 0
    }
}

/// The exact shape of one successful response, witnessed by the
/// traversal sequence it paginated: the chunk is the selection in
/// ascending order, reversed for a backward query; the next cursor is
/// emitted only when the limit truncated the page, and then names the
/// last selected position.
pub open spec fn response_matches(
    svc: Service,
    user: Seq<char>,
    room_id: Seq<char>,
    target: Seq<char>,
    ft: Option<String>,
    fr: Option<String>,
    from: Option<String>,
    to: Option<String>,
    limit: Option<u64>,
    recurse: bool,
    dir: Direction,
    resp: Response,
    tr: Seq<(PduCount, PduEvent)>,
) -> bool {
    let until = resolved_from(from, dir);
    let depth: nat = if recurse {
        3
    } else {
        1
    };
    let sel = page_sel(svc, user, tr, ft, fr, resolved_to(to), eff_limit(limit));
    &&& traversal_ok(svc, room_id, target, until, depth, dir, tr)
    &&& resp.chunk@.len() == sel.len()
    &&& forall|i: int|
        0 <= i < sel.len() ==> resp.chunk@[i] == (match dir {
            Direction::Forward => sel[i].1,
            Direction::Backward => sel[sel.len() - 1 - i].1,
        })
    &&& match resp.next_batch {
        Some(s) => sel.len() == eff_limit(limit) && sel.len() > 0 && s@ == token_chars(
            sel.last().0,
        ),
        None => !(sel.len() == eff_limit(limit) && sel.len() > 0),
    }
}

impl Service {
    /// Answers one paginated relation query: resolves the cursors,
    /// traverses to depth three when recursion is requested and one
    /// otherwise, filters, truncates to the effective limit, consults
    /// the visibility oracle fail-closed, stops before the exclusive
    /// `to` position, and orders the chunk by direction. A malformed
    /// `from` cursor rejects the request; a malformed `to` is ignored.
    #[verifier::rlimit(100)]
    pub fn paginate_relations_with_filter(
        &self,
        sender_user: &str,
        room_id: &str,
        target: &str,
        filter_event_type: &Option<String>,
        filter_rel_type: &Option<String>,
        from: &Option<String>,
        to: &Option<String>,
        limit: &Option<u64>,
        recurse: bool,
        dir: Direction,
    ) -> (r: Result<Response, ParseError>)
        requires
            self.wf(),
        ensures
            (r is Ok) == from_valid(*from),
            r is Ok ==> {
                let resp = r->Ok_0;
                &&& match resp.prev_batch {
                    Some(s) => s@ == token_chars(resolved_from(*from, dir)),
                    None => false,
                }
                &&& resp.recursion_depth == (if recurse {
                    Some(3u64)
                } else {
                    None::<u64>
                })
                &&& resp.chunk@.len() <= eff_limit(*limit)
                &&& eff_limit(*limit) <= 100
                &&& forall|i: int|
                    0 <= i < resp.chunk@.len() ==> (match *filter_event_type {
                        Some(t) => (#[trigger] resp.chunk@[i]).kind@ == t@,
                        None => true,
                    })
                &&& forall|i: int|
                    0 <= i < resp.chunk@.len() ==> (match *filter_rel_type {
                        Some(rt) => declared_rel_type(
                            (#[trigger] resp.chunk@[i]).content@,
                        ) == Some(rt@),
                        None => true,
                    })
                &&& forall|i: int|
                    0 <= i < resp.chunk@.len() ==> self.can_see(
                        sender_user@,
                        (#[trigger] resp.chunk@[i]).event_id@,
                    )
                &&& exists|tr: Seq<(PduCount, PduEvent)>|
                    #[trigger] response_matches(
                        *self,
                        sender_user@,
                        room_id@,
                        target@,
                        *filter_event_type,
                        *filter_rel_type,
                        *from,
                        *to,
                        *limit,
                        recurse,
                        dir,
                        resp,
                        tr,
                    )
            },
    {
        let from_pos: PduCount = match from {
            Some(f) => match parse(f.as_str()) {
                Ok(p) => p,
                Err(e) => {
                    return Err(e);
                },
            },
            None => match dir {
                Direction::Forward => PduCount::min(),
                Direction::Backward => PduCount::max(),
            },
        };
        proof {
            assert(from_pos == resolved_from(*from, dir));
        }
        let to_pos: Option<PduCount> = match to {
            Some(t) => match parse(t.as_str()) {
                Ok(p) => Some(p),
                Err(_) => None,
            },
            None => None,
        };
        proof {
            assert(to_pos == resolved_to(*to));
        }
        let l0: u64 = match limit {
            Some(v) => *v,
            None => 10,
        };
        let l1: u64 = if l0 > 100 {
            100
        } else {
            l0
        };
        let limit_eff: usize = l1 as usize;
        proof {
            assert(limit_eff as nat == eff_limit(*limit));
        }
        let depth: u8 = if recurse {
            3
        } else {
            1
        };
        let tr = match self.relations_until(sender_user, room_id, target, from_pos, depth, dir) {
            Ok(v) => v,
            Err(_) => {
                proof {
                    assert(false);
                }
                return Err(ParseError);
            },
        };
        let ghost goal = page_sel(
            *self,
            sender_user@,
            tr@,
            *filter_event_type,
            *filter_rel_type,
            to_pos,
            limit_eff as nat,
        );
        let mut sel: Vec<(PduCount, PduEvent)> = Vec::new();
        let mut kept: usize = 0;
        let n = tr.len();
        let mut i: usize = 0;
        proof {
            assert(tr@.skip(0) =~= tr@);
            assert(Seq::<(PduCount, PduEvent)>::empty() + goal =~= goal);
        }
        while i < n
            invariant
                self.wf(),
                n == tr@.len(),
                i <= n,
                kept <= limit_eff,
                goal == page_sel(
                    *self,
                    sender_user@,
                    tr@,
                    *filter_event_type,
                    *filter_rel_type,
                    to_pos,
                    limit_eff as nat,
                ),
                goal =~= sel@ + page_sel(
                    *self,
                    sender_user@,
                    tr@.skip(i as int),
                    *filter_event_type,
                    *filter_rel_type,
                    to_pos,
                    (limit_eff - kept) as nat,
                ),
            ensures
                goal =~= sel@,
            decreases n - i,
        {
            if kept == limit_eff {
                proof {
                    assert(page_sel(
                        *self,
                        sender_user@,
                        tr@.skip(i as int),
                        *filter_event_type,
                        *filter_rel_type,
                        to_pos,
                        0,
                    ) =~= Seq::empty());
                    assert(goal =~= sel@);
                }
                break ;
            }
            proof {
                assert(tr@.skip(i as int).drop_first() =~= tr@.skip(i as int + 1));
                assert(tr@.skip(i as int)[0] == tr@[i as int]);
            }
            let p = &tr[i];
            let type_ok = match filter_event_type {
                Some(t) => p.1.kind == *t,
                None => true,
            };
            let pass = if type_ok {
                match filter_rel_type {
                    Some(rt) => declares_rel_type(p.1.content.as_str(), rt.as_str()),
                    None => true,
                }
            } else {
                false
            };
            proof {
                assert(pass == passes(tr@[i as int], *filter_event_type, *filter_rel_type));
            }
            if pass {
                kept = kept + 1;
                if self.user_can_see_event(sender_user, p.1.event_id.as_str()) {
                    let stop = match &to_pos {
                        Some(t) => *t == p.0,
                        None => false,
                    };
                    if stop {
                        proof {
                            assert(to_pos == Some(tr@[i as int].0));
                            assert(goal =~= sel@);
                        }
                        break ;
                    }
                    let ghost selb = sel@;
                    let pair = (p.0, p.1.duplicate());
                    proof {
                        assert(pair == tr@[i as int]);
                    }
                    sel.push(pair);
                    proof {
                        assert(sel@ =~= selb.push(tr@[i as int]));
                        assert(goal =~= sel@ + page_sel(
                            *self,
                            sender_user@,
                            tr@.skip(i as int + 1),
                            *filter_event_type,
                            *filter_rel_type,
                            to_pos,
                            (limit_eff - kept) as nat,
                        ));
                    }
                } else {
                }
            } else {
            }
            i = i + 1;
        }
        proof {
            assert(goal == sel@);
        }
        let next_batch: Option<String> = if sel.len() == limit_eff && sel.len() > 0 {
            Some(sel[sel.len() - 1].0.stringify())
        } else {
            None
        };
        let prev_batch: Option<String> = Some(from_pos.stringify());
        let recursion_depth: Option<u64> = if recurse {
            Some(depth as u64)
        } else {
            None
        };
        let mut chunk: Vec<PduEvent> = Vec::new();
        let sn = sel.len();
        let mut ci: usize = 0;
        match dir {
            Direction::Forward => {
                while ci < sn
                    invariant
                        sn == sel@.len(),
                        ci <= sn,
                        chunk@.len() == ci,
                        forall|k: int| 0 <= k < ci ==> chunk@[k] == sel@[k].1,
                    decreases sn - ci,
                {
                    chunk.push(sel[ci].1.duplicate());
                    ci = ci + 1;
                }
            },
            Direction::Backward => {
                while ci < sn
                    invariant
                        sn == sel@.len(),
                        ci <= sn,
                        chunk@.len() == ci,
                        forall|k: int| 0 <= k < ci ==> chunk@[k] == sel@[sn - 1 - k].1,
                    decreases sn - ci,
                {
                    chunk.push(sel[sn - 1 - ci].1.duplicate());
                    ci = ci + 1;
                }
            },
        }
        let resp = Response { chunk, next_batch, prev_batch, recursion_depth };
        proof {
            lemma_page_sel_props(
                *self,
                sender_user@,
                tr@,
                *filter_event_type,
                *filter_rel_type,
                to_pos,
                limit_eff as nat,
            );
            assert(response_matches(
                *self,
                sender_user@,
                room_id@,
                target@,
                *filter_event_type,
                *filter_rel_type,
                *from,
                *to,
                *limit,
                recurse,
                dir,
                resp,
                tr@,
            ));
        }
        Ok(resp)
    }
}

} // verus!
