use pdu_metadata::parse;
use pdu_metadata::Direction;
use pdu_metadata::PduCount;
use pdu_metadata::PduEvent;
use pdu_metadata::Service;

fn ev(id: &str, kind: &str, content: &str) -> PduEvent {
    PduEvent::new(id.to_string(), kind.to_string(), content.to_string())
}

fn reference_content(target: &str) -> String {
    format!(
        "{{\"body\":\"x\",\"m.relates_to\":{{\"rel_type\":\"m.reference\",\"event_id\":\"{}\"}}}}",
        target
    )
}

/// A room with a chain of events: 1 (root) <- 2 <- 3 <- 4 <- 5, each
/// relating to its predecessor by m.reference, all visible to "@alice".
fn chain_service(len: u64) -> Service {
    let mut svc = Service::new();
    svc.insert_event("!room", PduCount::Normal(1), ev("$e1", "m.room.message", "{}"));
    svc.allow_visibility("@alice", "$e1");
    for i in 2..=len {
        let id = format!("$e{}", i);
        let prev = format!("$e{}", i - 1);
        svc.insert_event(
            "!room",
            PduCount::Normal(i),
            ev(&id, "m.room.message", &reference_content(&prev)),
        );
        svc.allow_visibility("@alice", &id);
        svc.add_relation("!room", PduCount::Normal(i), PduCount::Normal(i - 1))
            .unwrap();
    }
    svc
}

fn chunk_ids(svc: &Service, recurse: bool, dir: Direction) -> Vec<String> {
    let resp = svc
        .paginate_relations_with_filter(
            "@alice", "!room", "$e1", &None, &None, &None, &None, &None, recurse, dir,
        )
        .unwrap();
    resp.chunk.iter().map(|e| e.event_id.clone()).collect()
}

#[test]
fn token_round_trip() {
    for p in [
        PduCount::Normal(0),
        PduCount::Normal(1),
        PduCount::Normal(12345),
        PduCount::Normal(u64::MAX),
        PduCount::Backfilled(0),
        PduCount::Backfilled(7),
        PduCount::Backfilled(u64::MAX),
        PduCount::min(),
        PduCount::max(),
    ] {
        assert_eq!(parse(&p.stringify()), Ok(p));
    }
}

#[test]
fn token_serialization_is_canonical() {
    assert_eq!(PduCount::Normal(123).stringify(), "123");
    assert_eq!(PduCount::Normal(0).stringify(), "0");
    assert_eq!(PduCount::Backfilled(7).stringify(), "-7");
    assert_eq!(parse("007"), Ok(PduCount::Normal(7)));
    assert_eq!(parse("-5"), Ok(PduCount::Backfilled(5)));
    assert_eq!(parse("18446744073709551615"), Ok(PduCount::Normal(u64::MAX)));
}

#[test]
fn malformed_tokens_are_rejected() {
    assert!(parse("").is_err());
    assert!(parse("-").is_err());
    assert!(parse("12a").is_err());
    assert!(parse("--1").is_err());
    assert!(parse(" 1").is_err());
    // one digit past the largest counter
    assert!(parse("18446744073709551616").is_err());
    assert!(parse("-18446744073709551616").is_err());
}

#[test]
fn backfilled_sorts_before_normal() {
    let b = PduCount::Backfilled(u64::MAX);
    let n = PduCount::Normal(0);
    assert!(b.le(&n));
    assert!(!n.le(&b));
    assert_ne!(b, n);
    assert!(PduCount::min().le(&b));
    assert!(n.le(&PduCount::max()));
    assert!(PduCount::Backfilled(1).le(&PduCount::Backfilled(2)));
    assert!(PduCount::Normal(1).le(&PduCount::Normal(2)));
}

#[test]
fn add_relation_backfilled_is_noop_success() {
    let mut svc = chain_service(3);
    // both orders of mixing a backfilled endpoint succeed without effect
    assert!(svc
        .add_relation("!room", PduCount::Backfilled(9), PduCount::Normal(1))
        .is_ok());
    assert!(svc
        .add_relation("!room", PduCount::Normal(9), PduCount::Backfilled(1))
        .is_ok());
    let ids = chunk_ids(&svc, true, Direction::Forward);
    assert_eq!(ids, vec!["$e2", "$e3"]);
}

#[test]
fn depth_one_returns_only_direct_referrers() {
    let svc = chain_service(5);
    let got = svc
        .relations_until("@alice", "!room", "$e1", PduCount::min(), 1, Direction::Forward)
        .unwrap();
    let ids: Vec<&str> = got.iter().map(|(_, e)| e.event_id.as_str()).collect();
    assert_eq!(ids, vec!["$e2"]);
}

#[test]
fn depth_three_stops_three_hops_out() {
    // chain root -> A -> B -> C -> D: A, B and C are reached, D is not
    let svc = chain_service(5);
    let got = svc
        .relations_until("@alice", "!room", "$e1", PduCount::min(), 3, Direction::Forward)
        .unwrap();
    let ids: Vec<&str> = got.iter().map(|(_, e)| e.event_id.as_str()).collect();
    assert_eq!(ids, vec!["$e2", "$e3", "$e4"]);
}

#[test]
fn traversal_is_sorted_ascending() {
    let svc = chain_service(5);
    let got = svc
        .relations_until("@alice", "!room", "$e1", PduCount::min(), 3, Direction::Forward)
        .unwrap();
    for w in got.windows(2) {
        assert!(w[0].0.le(&w[1].0) && w[0].0 != w[1].0);
    }
}

#[test]
fn unknown_root_degrades_to_empty() {
    let svc = chain_service(3);
    let got = svc
        .relations_until("@alice", "!room", "$nosuch", PduCount::min(), 3, Direction::Forward)
        .unwrap();
    assert!(got.is_empty());
    let got = svc
        .relations_until("@alice", "!other", "$e1", PduCount::min(), 3, Direction::Forward)
        .unwrap();
    assert!(got.is_empty());
}

#[test]
fn corrupt_record_is_skipped_not_fatal() {
    // an edge whose referrer event is missing from the store: the scan
    // skips it and the rest of the traversal survives
    let mut svc = chain_service(3);
    svc.add_relation("!room", PduCount::Normal(99), PduCount::Normal(1))
        .unwrap();
    let got = svc
        .relations_until("@alice", "!room", "$e1", PduCount::min(), 3, Direction::Forward)
        .unwrap();
    let ids: Vec<&str> = got.iter().map(|(_, e)| e.event_id.as_str()).collect();
    assert_eq!(ids, vec!["$e2", "$e3"]);
}

#[test]
fn default_limit_is_ten() {
    let mut svc = Service::new();
    svc.insert_event("!room", PduCount::Normal(1), ev("$e1", "m.room.message", "{}"));
    svc.allow_visibility("@alice", "$e1");
    for i in 2..=15u64 {
        let id = format!("$e{}", i);
        svc.insert_event(
            "!room",
            PduCount::Normal(i),
            ev(&id, "m.room.message", &reference_content("$e1")),
        );
        svc.allow_visibility("@alice", &id);
        svc.add_relation("!room", PduCount::Normal(i), PduCount::Normal(1))
            .unwrap();
    }
    let resp = svc
        .paginate_relations_with_filter(
            "@alice", "!room", "$e1", &None, &None, &None, &None, &None, false,
            Direction::Forward,
        )
        .unwrap();
    assert_eq!(resp.chunk.len(), 10);
    // truncated by the limit: a resume token is emitted for the last event
    assert_eq!(resp.next_batch, Some(PduCount::Normal(11).stringify()));
}

#[test]
fn oversized_limit_clamps_to_one_hundred() {
    let mut svc = Service::new();
    svc.insert_event("!room", PduCount::Normal(1), ev("$e1", "m.room.message", "{}"));
    svc.allow_visibility("@alice", "$e1");
    for i in 2..=140u64 {
        let id = format!("$e{}", i);
        svc.insert_event(
            "!room",
            PduCount::Normal(i),
            ev(&id, "m.room.message", &reference_content("$e1")),
        );
        svc.allow_visibility("@alice", &id);
        svc.add_relation("!room", PduCount::Normal(i), PduCount::Normal(1))
            .unwrap();
    }
    let resp = svc
        .paginate_relations_with_filter(
            "@alice",
            "!room",
            "$e1",
            &None,
            &None,
            &None,
            &None,
            &Some(1000),
            false,
            Direction::Forward,
        )
        .unwrap();
    assert_eq!(resp.chunk.len(), 100);
    assert!(resp.next_batch.is_some());
}

#[test]
fn forward_ascends_backward_descends() {
    let svc = chain_service(4);
    let fwd = chunk_ids(&svc, true, Direction::Forward);
    assert_eq!(fwd, vec!["$e2", "$e3", "$e4"]);
    let bwd = chunk_ids(&svc, true, Direction::Backward);
    assert_eq!(bwd, vec!["$e4", "$e3", "$e2"]);
}

#[test]
fn to_bound_is_exclusive() {
    let svc = chain_service(4);
    let to = PduCount::Normal(3).stringify();
    let resp = svc
        .paginate_relations_with_filter(
            "@alice",
            "!room",
            "$e1",
            &None,
            &None,
            &None,
            &Some(to),
            &None,
            true,
            Direction::Forward,
        )
        .unwrap();
    let ids: Vec<&str> = resp.chunk.iter().map(|e| e.event_id.as_str()).collect();
    // the event at the parsed `to` position is never included
    assert_eq!(ids, vec!["$e2"]);
}

#[test]
fn relation_type_filter_excludes_undeclared() {
    let mut svc = chain_service(2);
    // an event referring to the root without any declared relation type
    svc.insert_event(
        "!room",
        PduCount::Normal(9),
        ev("$plain", "m.room.message", "{\"body\":\"no declaration\"}"),
    );
    svc.allow_visibility("@alice", "$plain");
    svc.add_relation("!room", PduCount::Normal(9), PduCount::Normal(1))
        .unwrap();
    // no filter: both pass
    assert_eq!(chunk_ids(&svc, true, Direction::Forward), vec!["$e2", "$plain"]);
    // filter on m.reference: the undeclared one is excluded
    let resp = svc
        .paginate_relations_with_filter(
            "@alice",
            "!room",
            "$e1",
            &None,
            &Some("m.reference".to_string()),
            &None,
            &None,
            &None,
            true,
            Direction::Forward,
        )
        .unwrap();
    let ids: Vec<&str> = resp.chunk.iter().map(|e| e.event_id.as_str()).collect();
    assert_eq!(ids, vec!["$e2"]);
}

#[test]
fn event_type_filter_applies() {
    let mut svc = chain_service(3);
    svc.insert_event(
        "!room",
        PduCount::Normal(7),
        ev("$note", "m.sticker", &reference_content("$e1")),
    );
    svc.allow_visibility("@alice", "$note");
    svc.add_relation("!room", PduCount::Normal(7), PduCount::Normal(1))
        .unwrap();
    let resp = svc
        .paginate_relations_with_filter(
            "@alice",
            "!room",
            "$e1",
            &Some("m.sticker".to_string()),
            &None,
            &None,
            &None,
            &None,
            false,
            Direction::Forward,
        )
        .unwrap();
    let ids: Vec<&str> = resp.chunk.iter().map(|e| e.event_id.as_str()).collect();
    assert_eq!(ids, vec!["$note"]);
}

#[test]
fn visibility_is_fail_closed() {
    let mut svc = chain_service(3);
    svc.insert_event(
        "!room",
        PduCount::Normal(8),
        ev("$hidden", "m.room.message", &reference_content("$e1")),
    );
    // no visibility grant for "$hidden": the oracle answers not visible
    svc.add_relation("!room", PduCount::Normal(8), PduCount::Normal(1))
        .unwrap();
    let ids = chunk_ids(&svc, true, Direction::Forward);
    assert_eq!(ids, vec!["$e2", "$e3"]);
}

#[test]
fn recursive_pagination_scenario() {
    // events at normal positions 1 (root), 2 (relates to 1), 3 (relates
    // to 2), all of type m.reference
    let svc = chain_service(3);
    let resp = svc
        .paginate_relations_with_filter(
            "@alice",
            "!room",
            "$e1",
            &None,
            &None,
            &None,
            &None,
            &Some(10),
            true,
            Direction::Forward,
        )
        .unwrap();
    let ids: Vec<&str> = resp.chunk.iter().map(|e| e.event_id.as_str()).collect();
    assert_eq!(ids, vec!["$e2", "$e3"]);
    assert_eq!(resp.prev_batch, Some(PduCount::min().stringify()));
    // fewer than limit results: no next token is emitted
    assert_eq!(resp.next_batch, None);
    assert_eq!(resp.recursion_depth, Some(3));
}

#[test]
fn non_recursive_has_no_depth_in_response() {
    let svc = chain_service(2);
    let resp = svc
        .paginate_relations_with_filter(
            "@alice", "!room", "$e1", &None, &None, &None, &None, &None, false,
            Direction::Forward,
        )
        .unwrap();
    assert_eq!(resp.recursion_depth, None);
}

#[test]
fn replace_filter_on_reference_graph_is_empty() {
    let svc = chain_service(3);
    let resp = svc
        .paginate_relations_with_filter(
            "@alice",
            "!room",
            "$e1",
            &None,
            &Some("m.replace".to_string()),
            &None,
            &None,
            &Some(10),
            true,
            Direction::Forward,
        )
        .unwrap();
    assert!(resp.chunk.is_empty());
    assert_eq!(resp.next_batch, None);
}

#[test]
fn malformed_from_cursor_rejects_request() {
    let svc = chain_service(2);
    let r = svc.paginate_relations_with_filter(
        "@alice",
        "!room",
        "$e1",
        &None,
        &None,
        &Some("not a number".to_string()),
        &None,
        &None,
        false,
        Direction::Forward,
    );
    assert!(r.is_err());
}

#[test]
fn soft_failed_flag_round_trip() {
    let mut svc = Service::new();
    assert_eq!(svc.is_event_soft_failed("$e1"), Ok(false));
    svc.mark_event_soft_failed("$e1").unwrap();
    assert_eq!(svc.is_event_soft_failed("$e1"), Ok(true));
    assert_eq!(svc.is_event_soft_failed("$never"), Ok(false));
}

#[test]
fn referenced_flag_round_trip() {
    let mut svc = Service::new();
    assert_eq!(svc.is_event_referenced("!room", "$e1"), Ok(false));
    svc.mark_as_referenced("!room", &["$e1".to_string(), "$e2".to_string()])
        .unwrap();
    assert_eq!(svc.is_event_referenced("!room", "$e1"), Ok(true));
    assert_eq!(svc.is_event_referenced("!room", "$e2"), Ok(true));
    assert_eq!(svc.is_event_referenced("!room", "$e3"), Ok(false));
    assert_eq!(svc.is_event_referenced("!other", "$e1"), Ok(false));
}
