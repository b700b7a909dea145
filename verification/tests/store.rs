use std::collections::BTreeMap;

use amtr::disk::{Body, Step, temp_of, write_atomic};
use amtr::fault::Fault;
use amtr::store::{
    Entry, Prompt, Retry, Row, RowRead, Store, TextRead, base36, mint_key, now, random_u64, slug,
    validate_session_id,
};
use amtr::text::{lines_of, split_at_each};

/// Files in memory, for steps to be performed on.
#[derive(Clone, Debug, PartialEq)]
enum File {
    Partial,
    Row(Row),
    Text(String),
}

#[derive(Default)]
struct Disk {
    files: BTreeMap<String, File>,
}

impl Disk {
    fn perform(&mut self, steps: Vec<Step>) {
        for step in steps {
            match step {
                Step::Create(path) => {
                    self.files.insert(path, File::Partial);
                }
                Step::Write(path, Body::Row(row)) => {
                    self.files.insert(path, File::Row(row));
                }
                Step::Write(path, Body::Text(text)) => {
                    self.files.insert(path, File::Text(text));
                }
                Step::Sync(path) => assert!(self.files.contains_key(&path)),
                Step::Rename(from, to) => {
                    let file = self.files.remove(&from).unwrap();
                    self.files.insert(to, file);
                }
                Step::Remove(path) => {
                    self.files.remove(&path);
                }
            }
        }
    }

    fn read_row(&self, path: &str) -> RowRead {
        match self.files.get(path) {
            None => RowRead::Missing,
            Some(File::Row(row)) => RowRead::Found(row.clone()),
            Some(_) => RowRead::Garbled("expected value".to_string()),
        }
    }

    fn read_text(&self, path: &str) -> TextRead {
        match self.files.get(path) {
            Some(File::Text(text)) => TextRead::Text(text.clone()),
            _ => TextRead::Missing,
        }
    }

    fn entries(&self, dir: &str) -> Vec<Entry> {
        let prefix = format!("{dir}/");
        self.files
            .keys()
            .filter(|path| path.starts_with(&prefix))
            .map(|path| (path[prefix.len()..].to_string(), self.read_row(path)))
            .collect()
    }
}

const PID: u32 = 77;

struct Scratch {
    disk: Disk,
    store: Store,
}

fn scratch() -> Scratch {
    Scratch {
        disk: Disk::default(),
        store: Store::at("/base".to_string()),
    }
}

impl Scratch {
    fn save(&mut self, row: Row) {
        let steps = self.store.save(row, PID);
        self.disk.perform(steps);
    }

    fn load(&self, session: &str) -> Result<Option<Row>, Fault> {
        Store::load(self.disk.read_row(&self.store.row_path(session)))
    }

    fn find_by_key(&self, key: &str) -> Option<Row> {
        self.store
            .find_by_key(self.disk.entries(&self.store.cortex()), key)
            .0
    }

    fn take(&mut self, row: &Row, session: &str) -> Row {
        let (row, steps) = self.store.take(row, session, PID);
        self.disk.perform(steps);
        row
    }

    fn clone_to(&mut self, row: &Row, session: &str, at: &str) -> Row {
        let (row, steps) = self.store.clone_to(row, session, at, PID);
        self.disk.perform(steps);
        row
    }

    fn mark_ongoing(&mut self, session: &str) -> Option<String> {
        let read = self.disk.read_text(&self.store.marker_path(session));
        let (prior, steps) = self.store.mark_ongoing(session, read, PID);
        self.disk.perform(steps);
        prior
    }

    fn mark_ready(&mut self, session: &str, key: &str) {
        let steps = self.store.mark_ready(session, key, PID);
        self.disk.perform(steps);
    }

    fn restore_marker(&mut self, session: &str, prior: Option<&str>) {
        let steps = self.store.restore_marker(session, prior, PID);
        self.disk.perform(steps);
    }

    fn unmark(&mut self, session: &str) {
        let steps = self.store.unmark(session);
        self.disk.perform(steps);
    }

    fn marker_state(&self, session: &str) -> Option<String> {
        Store::marker_state(self.disk.read_text(&self.store.marker_path(session)))
    }

    fn extraction_prompt(&mut self, default: &str) -> String {
        let read = self.disk.read_text(&self.store.prompt_path());
        let Prompt { text, steps, .. } = self.store.extraction_prompt(read, default, PID);
        self.disk.perform(steps);
        text
    }
}

fn row(session: &str, key: Option<&str>, handoff: &str) -> Row {
    Row {
        session_id: session.into(),
        amtr_key: key.map(String::from),
        handoff: handoff.into(),
        compacted_at: "2026-07-31T00:00:00.000Z".into(),
    }
}

#[test]
fn upsert_overwrites_rather_than_accumulating() {
    let mut s = scratch();
    s.save(row("a", Some("amtr-1"), "first"));
    s.save(row("a", Some("amtr-2"), "second"));
    let got = s.load("a").unwrap().unwrap();
    assert_eq!(got.handoff, "second");
    assert_eq!(got.amtr_key.as_deref(), Some("amtr-2"));
    assert!(
        s.find_by_key("amtr-1").is_none(),
        "superseded key must not resolve"
    );
}

#[test]
fn missing_session_reads_as_none() {
    assert!(scratch().load("nobody").unwrap().is_none());
}

#[test]
fn move_transfers_the_row_and_the_giver_forgets() {
    let mut s = scratch();
    s.save(row("giver", Some("amtr-k"), "state"));
    let source = s.find_by_key("amtr-k").unwrap();
    let moved = s.take(&source, "taker");

    assert_eq!(moved.session_id, "taker");
    assert_eq!(s.load("taker").unwrap().unwrap().handoff, "state");
    assert!(
        s.load("giver").unwrap().is_none(),
        "giver's next synthesize must be a first-compaction"
    );
    assert_eq!(s.find_by_key("amtr-k").unwrap().session_id, "taker");
}

#[test]
fn move_onto_the_same_session_is_a_no_op_not_a_deletion() {
    let mut s = scratch();
    s.save(row("same", Some("amtr-k"), "state"));
    let source = s.find_by_key("amtr-k").unwrap();
    s.take(&source, "same");
    assert_eq!(s.load("same").unwrap().unwrap().handoff, "state");
}

#[test]
fn clone_copies_drops_the_key_and_leaves_the_source_intact() {
    let mut s = scratch();
    s.save(row("giver", Some("amtr-k"), "state"));
    let source = s.find_by_key("amtr-k").unwrap();
    let copy = s.clone_to(&source, "taker", "2026-08-01T12:00:00.000Z");

    assert_eq!(copy.handoff, "state");
    assert_eq!(
        copy.amtr_key, None,
        "a clone must not seed further key-based chaining"
    );
    assert_eq!(copy.compacted_at, "2026-08-01T12:00:00.000Z");
    assert_eq!(
        s.load("giver").unwrap().unwrap().handoff,
        "state",
        "clone is not a move"
    );
    assert_eq!(s.find_by_key("amtr-k").unwrap().session_id, "giver");
}

#[test]
fn no_marker_means_nothing_is_owed() {
    let mut s = scratch();
    assert_eq!(s.marker_state("a"), None);
    s.unmark("a");
    s.unmark("a"); // clearing a debt that is not there is fine
    assert_eq!(s.marker_state("a"), None);
}

#[test]
fn delivery_runs_ongoing_then_ready_then_gone() {
    let mut s = scratch();
    s.mark_ongoing("a");
    assert_eq!(s.marker_state("a").as_deref(), Some("ongoing"));

    s.mark_ready("a", "amtr-k1");
    assert_eq!(s.marker_state("a").as_deref(), Some("ready:amtr-k1"));

    s.unmark("a");
    assert_eq!(s.marker_state("a"), None);
}

#[test]
fn a_ready_snapshot_survives_until_someone_reads_it() {
    let mut s = scratch();
    s.mark_ongoing("a");
    s.mark_ready("a", "amtr-k1");
    assert_eq!(
        s.marker_state("a").as_deref(),
        Some("ready:amtr-k1"),
        "debt must outlive the worker"
    );
}

#[test]
fn a_failed_synthesize_does_not_discard_an_older_undelivered_snapshot() {
    let mut s = scratch();
    s.save(row("a", Some("amtr-old"), "earlier snapshot"));
    s.mark_ready("a", "amtr-old");

    // A later compaction claims the marker, then fails.
    let prior = s.mark_ongoing("a");
    assert_eq!(prior.as_deref(), Some("ready:amtr-old"));
    s.restore_marker("a", prior.as_deref());

    assert_eq!(
        s.marker_state("a").as_deref(),
        Some("ready:amtr-old"),
        "an earlier compaction's undelivered snapshot must survive"
    );
    assert_eq!(s.load("a").unwrap().unwrap().handoff, "earlier snapshot");
}

#[test]
fn a_failed_synthesize_withdraws_its_own_claim_when_nothing_was_owed() {
    let mut s = scratch();
    let prior = s.mark_ongoing("a");
    assert_eq!(prior, None, "nothing was owed before this run");
    s.restore_marker("a", prior.as_deref());
    assert_eq!(
        s.marker_state("a"),
        None,
        "leaving `ongoing` would make every later turn sit through the poll"
    );
}

#[test]
fn an_empty_prompt_file_falls_back_rather_than_running_uninstructed() {
    let mut s = scratch();
    s.disk
        .files
        .insert(s.store.prompt_path(), File::Text("   \n\n  ".to_string()));
    assert_eq!(s.extraction_prompt("BUILT-IN"), "BUILT-IN");
}

#[test]
fn a_corrupt_row_is_an_error_not_a_silent_first_compaction() {
    let mut s = scratch();
    s.save(row("a", Some("amtr-k"), "state"));
    s.disk.files.insert(
        format!("{}/a.json", s.store.cortex()),
        File::Text("{ truncated".to_string()),
    );

    assert!(
        s.load("a").is_err(),
        "reporting this as absent would re-summarize the whole journal and \
         drop everything carried so far"
    );
    assert!(
        s.load("nobody").unwrap().is_none(),
        "genuinely absent is still Ok(None)"
    );
}

#[test]
fn a_late_worker_re_owes_after_a_timed_out_reader_gave_up() {
    let mut s = scratch();
    s.mark_ongoing("a");
    s.unmark("a"); // reader timed out and failed open
    s.mark_ready("a", "amtr-k1"); // worker lands afterwards
    assert_eq!(
        s.marker_state("a").as_deref(),
        Some("ready:amtr-k1"),
        "next turn delivers it"
    );
}

#[test]
fn the_default_prompt_is_materialized_once_then_read_back() {
    let mut s = scratch();
    assert_eq!(s.extraction_prompt("DEFAULT"), "DEFAULT");
    assert!(s.disk.files.contains_key(&s.store.prompt_path()));
    s.disk.files.insert(
        s.store.prompt_path(),
        File::Text("EDITED IN PLACE".to_string()),
    );
    assert_eq!(s.extraction_prompt("DEFAULT"), "EDITED IN PLACE");
}

#[test]
fn slug_keeps_an_exotic_session_id_inside_the_cortex_directory() {
    assert_eq!(slug("019efc46-72c1-7aa2"), "019efc46-72c1-7aa2");
    let escaped = slug("../../etc/passwd");
    assert!(!escaped.contains('/'), "no separator survives: {escaped}");
    assert!(!escaped.starts_with('.'), "cannot climb out: {escaped}");
    assert_eq!(slug(".."), "_");
}

#[test]
fn minted_keys_are_prefixed_and_non_empty() {
    let k = mint_key(1_786_000_000_000, 0x0123_4567_89ab_cdef);
    assert!(k.starts_with("amtr-"));
    assert!(k.len() > 6);
}

#[test]
fn slugs_are_made_byte_by_byte() {
    for (id, expected) in [
        ("019fb5b0-b8d6-7432-a1ae-d03d37b6b32a", "019fb5b0-b8d6-7432-a1ae-d03d37b6b32a"),
        ("..", "_"),
        (".leading", "leading"),
        ("trailing.", "trailing"),
        ("...", "_"),
        ("", "_"),
        ("a.b_c-d", "a.b_c-d"),
        ("../../etc/passwd", "_.._etc_passwd"),
        ("a b", "a_b"),
        ("a;rm -rf /", "a_rm_-rf__"),
        ("//", "__"),
        ("$(whoami)", "__whoami_"),
        ("ünïcode", "__n__code"),
        ("emoji\u{1F600}id", "emoji____id"),
    ] {
        assert_eq!(slug(id), expected);
    }
}

#[test]
fn session_ids_are_plain_or_refused() {
    assert!(validate_session_id("s").is_ok());
    assert!(matches!(
        validate_session_id("a/b"),
        Err(Fault::InvalidInput(why)) if why == "invalid session id"
    ));
    assert!(validate_session_id("").is_err());
}

#[test]
fn an_existing_store_stays_where_it_is() {
    let base = |amtr, local| Store::base_dir(Some("/home/u"), amtr, local).unwrap();
    assert_eq!(base(true, true), "/home/u/.amtr");
    assert_eq!(base(true, false), "/home/u/.amtr");
    assert_eq!(base(false, true), "/home/u/.local/share/amtr");
    assert_eq!(base(false, false), "/home/u/.amtr");
    assert_eq!(Store::base_dir(Some("/"), false, false).unwrap(), "/.amtr");
    assert!(matches!(
        Store::base_dir(None, true, true),
        Err(Fault::Other(why)) if why == "cannot determine home directory"
    ));
    assert!(Store::open(None, true, true).is_err());
    assert_eq!(
        Store::open(Some("/home/u"), false, true).unwrap().base(),
        "/home/u/.local/share/amtr"
    );
}

#[test]
fn looking_at_a_store_does_not_make_one() {
    assert!(Store::open_existing(Some("/h"), true, true, false).unwrap().is_none());
    let store = Store::open_existing(Some("/h"), true, true, true).unwrap().unwrap();
    assert_eq!(store.base(), "/h/.amtr");
    assert!(Store::open_existing(None, true, true, true).is_err());
}

#[test]
fn the_layout_of_a_store() {
    let store = Store::at("/base".to_string());
    assert_eq!(store.directories(), vec!["/base", "/base/prefrontal-cortex"]);
    assert_eq!(store.prompt_path(), "/base/prompt.md");
    assert_eq!(store.row_path("a/b"), "/base/prefrontal-cortex/a_b.json");
    assert_eq!(store.marker_path("s"), "/base/prefrontal-cortex/s.marker");
    assert_eq!(
        store.deadline_path("s"),
        "/base/prefrontal-cortex/s.deliver-deadline"
    );
}

#[test]
fn a_file_is_written_beside_itself_first() {
    assert_eq!(temp_of("/b/c/s.json", 7), "/b/c/s.tmp.7");
    assert_eq!(temp_of("/b/c.d/prompt.md", 12), "/b/c.d/prompt.tmp.12");
    assert_eq!(temp_of("a.b.marker", 0), "a.b.tmp.0");
    assert_eq!(temp_of("/b/.hidden", 1), "/b/.hidden.tmp.1");
    let steps = write_atomic("/b/s.marker", Body::Text("ongoing".to_string()), 7);
    let told: Vec<String> = steps
        .iter()
        .map(|step| match step {
            Step::Create(path) => format!("create {path}"),
            Step::Write(path, Body::Text(text)) => format!("write {path} {text}"),
            Step::Write(path, Body::Row(_)) => format!("write {path}"),
            Step::Sync(path) => format!("sync {path}"),
            Step::Rename(from, to) => format!("rename {from} {to}"),
            Step::Remove(path) => format!("remove {path}"),
        })
        .collect();
    assert_eq!(
        told,
        vec![
            "create /b/s.tmp.7",
            "write /b/s.tmp.7 ongoing",
            "sync /b/s.tmp.7",
            "rename /b/s.tmp.7 /b/s.marker",
        ]
    );
}

#[test]
fn no_step_of_a_write_leaves_half_a_file() {
    let mut s = scratch();
    s.mark_ready("s", "amtr-1");
    let path = s.store.marker_path("s");
    let total = s.store.mark_ready("s", "amtr-2", PID).len();
    for done in 0..=total {
        let mut steps = s.store.mark_ready("s", "amtr-2", PID);
        steps.truncate(done);
        let mut disk = Disk { files: s.disk.files.clone() };
        disk.perform(steps);
        let expected = if done < total { "ready:amtr-1" } else { "ready:amtr-2" };
        assert_eq!(disk.files.get(&path), Some(&File::Text(expected.to_string())));
    }
}

#[test]
fn a_move_never_loses_the_row_on_the_way() {
    let mut s = scratch();
    s.save(row("giver", Some("amtr-k"), "state"));
    let source = s.find_by_key("amtr-k").unwrap();
    let total = s.store.take(&source, "taker", PID).1.len();
    for done in 0..=total {
        let mut steps = s.store.take(&source, "taker", PID).1;
        steps.truncate(done);
        let mut disk = Disk { files: s.disk.files.clone() };
        disk.perform(steps);
        let giver = disk.files.contains_key(&s.store.row_path("giver"));
        let taker = disk.files.contains_key(&s.store.row_path("taker"));
        assert!(giver || taker, "lost after {done} steps");
    }
}

#[test]
fn damaged_rows_are_told_of_on_the_way_to_a_key() {
    let store = Store::at("/base".to_string());
    let entries = vec![
        ("x.marker".to_string(), RowRead::Garbled("no row".to_string())),
        ("a.json".to_string(), RowRead::Failed(Fault::Other("denied".to_string()))),
        ("b.json".to_string(), RowRead::Garbled("EOF".to_string())),
        ("c.json".to_string(), RowRead::Found(row("c", None, "clone"))),
        ("d.json".to_string(), RowRead::Found(row("d", Some("amtr-k"), "it"))),
        ("e.json".to_string(), RowRead::Garbled("later".to_string())),
    ];
    let (found, notes) = store.find_by_key(entries, "amtr-k");
    assert_eq!(found, Some(row("d", Some("amtr-k"), "it")));
    assert_eq!(
        notes,
        vec![
            "cannot read /base/prefrontal-cortex/a.json: denied",
            "/base/prefrontal-cortex/b.json is not readable: EOF",
        ]
    );
}

#[test]
fn rows_that_cannot_be_read_are_passed_over() {
    let entries = vec![
        ("a.json".to_string(), RowRead::Failed(Fault::Other("denied".to_string()))),
        ("b.json".to_string(), RowRead::Found(row("b", None, "x"))),
        ("b.tmp.1".to_string(), RowRead::Found(row("t", None, "x"))),
        (".json".to_string(), RowRead::Found(row("hidden", None, "x"))),
        ("c.d.json".to_string(), RowRead::Found(row("c.d", None, "y"))),
    ];
    let rows = Store::rows(entries);
    assert_eq!(rows, vec![row("b", None, "x"), row("c.d", None, "y")]);
}

#[test]
fn a_row_that_cannot_be_read_says_why() {
    assert!(matches!(
        Store::load(RowRead::Garbled("EOF".to_string())),
        Err(Fault::Other(why)) if why == "stored row is not readable: EOF"
    ));
    assert!(matches!(
        Store::load(RowRead::Failed(Fault::NotFound("x".to_string()))),
        Err(Fault::NotFound(_))
    ));
}

#[test]
fn marking_is_tried_three_times() {
    let fault = || Err(Fault::Other("busy".to_string()));
    assert!(matches!(Store::mark_ready_retrying(0, Ok(())), Retry::Done));
    assert!(matches!(Store::mark_ready_retrying(0, fault()), Retry::Again(50)));
    assert!(matches!(Store::mark_ready_retrying(1, fault()), Retry::Again(100)));
    assert!(matches!(
        Store::mark_ready_retrying(2, fault()),
        Retry::Failed(150, Fault::Other(why)) if why == "busy"
    ));
}

#[test]
fn the_prompt_file_is_told_of_when_it_is_no_use() {
    let store = Store::at("/base".to_string());
    let blank = store.extraction_prompt(TextRead::Text(" ".to_string()), "D", PID);
    assert_eq!(
        blank.note.as_deref(),
        Some("/base/prompt.md is empty; using the built-in prompt")
    );
    assert!(blank.steps.is_empty());
    let failed =
        store.extraction_prompt(TextRead::Failed(Fault::Other("denied".to_string())), "D", PID);
    assert_eq!(failed.text, "D");
    assert_eq!(
        failed.note.as_deref(),
        Some("cannot read /base/prompt.md, using the built-in prompt: denied")
    );
    let missing = store.extraction_prompt(TextRead::Missing, "D", PID);
    assert_eq!(missing.steps.len(), 4);
    assert!(missing.note.is_none());
}

#[test]
fn a_marker_is_read_without_the_space_around_it() {
    assert_eq!(
        Store::marker_state(TextRead::Text(" ready:k\n".to_string())).as_deref(),
        Some("ready:k")
    );
    assert!(Store::marker_state(TextRead::Failed(Fault::Other(String::new()))).is_none());
}

#[test]
fn stamps_are_written_to_the_millisecond() {
    assert_eq!(now(0).as_deref(), Some("1970-01-01T00:00:00.000Z"));
    assert_eq!(
        now(1_786_233_600_123).as_deref(),
        Some("2026-08-09T00:00:00.123Z")
    );
    assert_eq!(now(-1).as_deref(), Some("1969-12-31T23:59:59.999Z"));
    assert!(now(i64::MAX).is_none());
}

#[test]
fn keys_are_made_of_the_time_and_a_random_number() {
    assert_eq!(mint_key(0, 0), "amtr-0-0");
    assert_eq!(mint_key(-5, 35), "amtr-0-z");
    assert_eq!(mint_key(1_786_233_600_000, u64::MAX), "amtr-msl1d6o0-3w5e11264sgsf");
    assert!(mint_key(1, 2) != mint_key(2, 1));
    assert!(mint_key(36, 1) != mint_key(1, 36));
}

#[test]
fn base36_counts_on_in_letters() {
    assert_eq!(base36(0), "0");
    assert_eq!(base36(10), "a");
    assert_eq!(base36(36), "10");
    assert_eq!(base36(u64::MAX), "3w5e11264sgsf");
}

#[test]
fn random_bytes_come_lowest_first() {
    let bytes = [0x08, 0x07, 0x06, 0x05, 0x04, 0x03, 0x02, 0x01];
    assert_eq!(random_u64(Some(bytes), 9), 0x0102_0304_0506_0708);
    assert_eq!(random_u64(Some([0xff; 8]), 9), u64::MAX);
    assert_eq!(random_u64(None, 9), 9);
}

#[test]
fn text_is_split_like_std_splits_it() {
    for raw in ["", "a", "a\n", "a\r\nb\n\n", "\n", "a\rb\n", "x\ny\r"] {
        assert_eq!(lines_of(raw), raw.lines().collect::<Vec<_>>());
        assert_eq!(split_at_each(raw, '\n'), raw.split('\n').collect::<Vec<_>>());
    }
}

#[test]
fn a_session_can_forget() {
    let store = Store::at("/base".to_string());
    assert!(matches!(
        store.forget("a").as_slice(),
        [Step::Remove(path)] if path == "/base/prefrontal-cortex/a.json"
    ));
}
