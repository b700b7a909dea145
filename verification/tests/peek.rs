use amtr::look::{Look, begin, go_on};
use amtr::peek::{Claim, Delivery, Kind, Listing, Record, classify, records, render};
use amtr::store::{Row, Store};

#[test]
fn classifies_every_operational_file_without_treating_rows_as_claims() {
    assert!(matches!(classify("s.marker"), Some((s, Kind::Marker)) if s == "s"));
    assert!(matches!(
        classify("s.deliver-deadline"),
        Some((s, Kind::Deadline)) if s == "s"
    ));
    assert!(matches!(
        classify("s.marker.delivering.1.2"),
        Some((s, Kind::Claim("delivering"))) if s == "s"
    ));
    assert!(classify("s.json").is_none());
}

fn row(session: &str, key: Option<&str>, handoff: &str) -> Row {
    Row {
        session_id: session.into(),
        amtr_key: key.map(String::from),
        handoff: handoff.into(),
        compacted_at: "2026-08-09T00:00:00.000Z".into(),
    }
}

fn listing(rows: Vec<Row>, files: &[(&str, Option<&str>)], now: Option<u64>) -> Option<Listing> {
    Some(Listing {
        rows,
        files: files
            .iter()
            .map(|(name, text)| (name.to_string(), text.map(String::from)))
            .collect(),
        now,
    })
}

#[test]
fn observation_includes_orphan_delivery_state() {
    let records = records(
        listing(Vec::new(), &[("orphan.marker", Some("ongoing"))], Some(0)),
        None,
        None,
    );
    assert_eq!(records.len(), 1);
    assert_eq!(records[0].session_id, "orphan");
    assert!(records[0].snapshot.is_none());
    assert_eq!(records[0].delivery.marker.as_deref(), Some("ongoing"));
}

#[test]
fn a_missing_cortex_is_an_empty_read_only_store() {
    assert!(records(listing(Vec::new(), &[], Some(0)), None, None).is_empty());
    assert!(records(None, None, None).is_empty());
}

#[test]
fn deadline_remainder_clamps_before_narrowing() {
    let deadline = u64::MAX.to_string();
    let records = records(
        listing(
            vec![row("s", None, "state")],
            &[("s.deliver-deadline", Some(&deadline))],
            Some(1_786_233_600),
        ),
        None,
        None,
    );
    assert_eq!(
        records[0].delivery.deadline_remaining_seconds,
        Some(i64::MAX)
    );
}

#[test]
fn filters_combine_and_full_snapshot_metadata_is_preserved() {
    let wanted = row("wanted", Some("amtr-k"), "## Working state\nall metadata");
    let other = Row {
        session_id: "other".into(),
        amtr_key: Some("amtr-other".into()),
        ..wanted.clone()
    };
    let store = || {
        listing(
            vec![wanted.clone(), other.clone()],
            &[
                ("wanted.json", Some("{}")),
                ("other.json", Some("{}")),
                ("wanted.marker", Some("ready:amtr-k")),
                ("wanted.deliver-deadline", Some("1005")),
                ("wanted.marker.delivering.1.2", Some("ready:amtr-k")),
            ],
            Some(1000),
        )
    };
    let found = records(store(), Some("wanted"), Some("amtr-k"));
    assert_eq!(found.len(), 1);
    let record = &found[0];
    assert_eq!(record.snapshot.as_ref(), Some(&wanted));
    assert_eq!(record.delivery.marker.as_deref(), Some("ready:amtr-k"));
    assert_eq!(record.delivery.deadline_remaining_seconds, Some(5));
    assert_eq!(record.delivery.claims.len(), 1);

    assert!(records(store(), Some("wanted"), Some("amtr-other")).is_empty());
    assert_eq!(records(store(), None, None).len(), 2);
    assert_eq!(records(store(), None, Some("amtr-other"))[0].session_id, "other");
}

fn full() -> Vec<Record> {
    vec![Record {
        session_id: "session-a".into(),
        snapshot: Some(Row {
            session_id: "session-a".into(),
            amtr_key: Some("amtr-a".into()),
            handoff: "first line\nsecond line".into(),
            compacted_at: "2026-08-09T00:00:00.000Z".into(),
        }),
        delivery: Delivery {
            marker: Some("ready:amtr-a".into()),
            deadline_epoch_seconds: Some(42),
            deadline_remaining_seconds: Some(7),
            claims: vec![Claim {
                file: "session-a.marker.delivering.1.2".into(),
                operation: "delivering".into(),
                state: Some("ready:amtr-a".into()),
            }],
        },
    }]
}

#[test]
fn default_render_is_human_readable_and_json_is_opt_in() {
    let records = full();

    let human = render(&records, false).unwrap();
    assert!(human.starts_with("Session: session-a\n  Snapshot:\n"));
    assert!(human.contains("    Session ID: session-a\n"));
    assert!(human.contains("    AMTR key: amtr-a\n"));
    assert!(human.contains("      first line\n      second line\n"));
    assert!(human.contains("    Marker: ready:amtr-a\n"));
    assert!(human.contains("      - File: session-a.marker.delivering.1.2\n"));
    assert!(!human.starts_with('['));

    let json = render(&records, true).unwrap();
    let parsed: serde_json::Value = serde_json::from_str(&json).unwrap();
    assert_eq!(parsed[0]["session_id"], "session-a");
    assert_eq!(parsed[0]["snapshot"]["amtr_key"], "amtr-a");
    assert_eq!(
        parsed[0]["delivery"]["claims"][0]["operation"],
        "delivering"
    );
}

#[test]
fn empty_human_projection_is_explicit() {
    assert_eq!(
        render(&[], false).unwrap(),
        "No matching snapshots or delivery state."
    );
    assert_eq!(render(&[], true).unwrap(), "[]");
}

#[test]
fn every_line_of_the_human_view() {
    let mut records = full();
    records.push(Record {
        session_id: "session-b".into(),
        snapshot: None,
        delivery: Delivery::default(),
    });
    records.push(Record {
        session_id: "session-c".into(),
        snapshot: Some(row("session-c", None, "x\n\n")),
        delivery: Delivery {
            deadline_remaining_seconds: Some(-3),
            claims: vec![Claim {
                file: "f".into(),
                operation: "expiring".into(),
                state: None,
            }],
            ..Delivery::default()
        },
    });
    assert_eq!(
        render(&records, false).unwrap(),
        "Session: session-a\n\
         \x20 Snapshot:\n\
         \x20   Session ID: session-a\n\
         \x20   AMTR key: amtr-a\n\
         \x20   Compacted at: 2026-08-09T00:00:00.000Z\n\
         \x20   Handoff:\n\
         \x20     first line\n\
         \x20     second line\n\
         \x20 Delivery:\n\
         \x20   Marker: ready:amtr-a\n\
         \x20   Deadline epoch seconds: 42\n\
         \x20   Deadline remaining seconds: 7\n\
         \x20   Claims:\n\
         \x20     - File: session-a.marker.delivering.1.2\n\
         \x20       Operation: delivering\n\
         \x20       State:\n\
         \x20         ready:amtr-a\n\
         \n\
         Session: session-b\n\
         \x20 Snapshot: <none>\n\
         \x20 Delivery:\n\
         \x20   Marker: <none>\n\
         \x20   Deadline epoch seconds: <none>\n\
         \x20   Deadline remaining seconds: <none>\n\
         \x20   Claims: <none>\n\
         \n\
         Session: session-c\n\
         \x20 Snapshot:\n\
         \x20   Session ID: session-c\n\
         \x20   AMTR key: <none>\n\
         \x20   Compacted at: 2026-08-09T00:00:00.000Z\n\
         \x20   Handoff:\n\
         \x20     x\n\
         \x20     \n\
         \x20     \n\
         \x20 Delivery:\n\
         \x20   Marker: <none>\n\
         \x20   Deadline epoch seconds: <none>\n\
         \x20   Deadline remaining seconds: -3\n\
         \x20   Claims:\n\
         \x20     - File: f\n\
         \x20       Operation: expiring\n\
         \x20       State: <unreadable>"
    );
}

#[test]
fn the_machine_view_is_compact_and_in_order() {
    let mut records = full();
    records[0].snapshot.as_mut().unwrap().handoff = "a \"quote\"\n\u{1}\\é".into();
    records.push(Record {
        session_id: "b".into(),
        snapshot: None,
        delivery: Delivery::default(),
    });
    assert_eq!(
        render(&records, true).unwrap(),
        "[{\"session_id\":\"session-a\",\"snapshot\":{\"session_id\":\"session-a\",\
         \"amtr_key\":\"amtr-a\",\"handoff\":\"a \\\"quote\\\"\\n\\u0001\\\\é\",\
         \"compacted_at\":\"2026-08-09T00:00:00.000Z\"},\"delivery\":{\
         \"marker\":\"ready:amtr-a\",\"deadline_epoch_seconds\":42,\
         \"deadline_remaining_seconds\":7,\"claims\":[{\
         \"file\":\"session-a.marker.delivering.1.2\",\"operation\":\"delivering\",\
         \"state\":\"ready:amtr-a\"}]}},{\"session_id\":\"b\",\"snapshot\":null,\"delivery\":{\
         \"marker\":null,\"deadline_epoch_seconds\":null,\"deadline_remaining_seconds\":null,\
         \"claims\":[]}}]"
    );
}

#[test]
fn records_and_claims_come_in_order() {
    let found = records(
        listing(
            vec![row("m", None, "1"), row("b", None, "2"), row("m", None, "3")],
            &[
                ("z.marker", None),
                ("b.marker.expiring.2.0", Some("y")),
                ("b.deliver-deadline.publishing.9.9", None),
                ("b.marker.delivering.1.0", Some("x")),
                ("a.deliver-deadline", Some("soon")),
                ("prompt.md", Some("p")),
                ("b.tmp.7", Some("t")),
            ],
            None,
        ),
        None,
        None,
    );
    let ids: Vec<&str> = found.iter().map(|record| record.session_id.as_str()).collect();
    assert_eq!(ids, vec!["a", "b", "m", "z"]);
    assert_eq!(found[2].snapshot.as_ref().unwrap().handoff, "3");
    assert!(found[0].delivery.deadline_epoch_seconds.is_none());
    assert!(found[3].delivery.marker.is_none());
    let claims: Vec<(&str, &str)> = found[1]
        .delivery
        .claims
        .iter()
        .map(|claim| (claim.file.as_str(), claim.operation.as_str()))
        .collect();
    assert_eq!(
        claims,
        vec![
            ("b.deliver-deadline.publishing.9.9", "publishing"),
            ("b.marker.delivering.1.0", "delivering"),
            ("b.marker.expiring.2.0", "expiring"),
        ]
    );
}

#[test]
fn a_wait_that_is_over_has_less_than_nothing_left() {
    let left = |deadline: &str, now| {
        records(
            listing(Vec::new(), &[("s.deliver-deadline", Some(deadline))], now),
            None,
            None,
        )[0]
        .delivery
        .deadline_remaining_seconds
    };
    assert_eq!(left("990", Some(1000)), Some(-10));
    assert_eq!(left("0", Some(u64::MAX)), Some(i64::MIN));
    assert_eq!(left("990", None), Some(990));
    assert_eq!(left("990\n", Some(1000)), None);
}

#[test]
fn a_name_is_split_where_a_claim_first_shows() {
    assert!(matches!(
        classify("s.deliver-deadline.publishing.1.4"),
        Some((s, Kind::Claim("publishing"))) if s == "s"
    ));
    assert!(matches!(
        classify("a.b.marker.expiring.1.4"),
        Some((s, Kind::Claim("expiring"))) if s == "a.b"
    ));
    assert!(matches!(classify(".marker"), Some((s, Kind::Marker)) if s.is_empty()));
    assert!(classify("s.tmp.12").is_none());
}

#[test]
fn a_look_lists_and_reads_and_does_nothing_else() {
    assert!(begin(None).is_empty());
    let store = Store::at("/base".to_string());
    assert!(matches!(
        begin(Some(&store)).as_slice(),
        [Look::List(dir)] if dir == "/base/prefrontal-cortex"
    ));
    let names: Vec<String> = [
        "a.json",
        "a.tmp.7",
        "a.marker",
        "b.marker.delivering.1.2",
        "b.marker.delivering.json",
        "prompt.md",
    ]
    .iter()
    .map(|name| name.to_string())
    .collect();
    let told: Vec<String> = go_on(&store, &names)
        .into_iter()
        .map(|look| match look {
            Look::List(path) => format!("list {path}"),
            Look::Row { name, path } => format!("row {name} {path}"),
            Look::Text { name, path } => format!("text {name} {path}"),
        })
        .collect();
    assert_eq!(
        told,
        vec![
            "row a.json /base/prefrontal-cortex/a.json",
            "text a.marker /base/prefrontal-cortex/a.marker",
            "text b.marker.delivering.1.2 /base/prefrontal-cortex/b.marker.delivering.1.2",
            "row b.marker.delivering.json /base/prefrontal-cortex/b.marker.delivering.json",
            "text b.marker.delivering.json /base/prefrontal-cortex/b.marker.delivering.json",
        ]
    );
}
