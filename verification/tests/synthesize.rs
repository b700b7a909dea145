use amtr::detach::{AfterFork, Forked, Role, after_first_fork, after_second_fork, log_is_full};
use amtr::disk::{Body, Step};
use amtr::extract::{AgentRun, compose};
use amtr::fault::Fault;
use amtr::journal::{Host, Window};
use amtr::store::{Row, RowRead, Store, TextRead, validate_session_id};
use amtr::synthesize::{
    DirEntry, Ended, FileKind, JournalSearch, Reply, Request, Synthesis, Task, prepare_debt, run,
};

#[test]
fn host_session_ids_cannot_escape_the_store() {
    for invalid in ["", "../other", "space here", "雪"] {
        assert!(
            validate_session_id(invalid).is_err(),
            "accepted {invalid:?}"
        );
    }
    assert!(validate_session_id("019efc46-72c1-7aa2.test_1").is_ok());
}

fn request(transcript: Option<&str>, rollout: Option<&str>) -> Request {
    Request {
        session_id: "session-a".into(),
        transcript_path: transcript.map(String::from),
        rollout_path: rollout.map(String::from),
    }
}

#[test]
fn stale_transcript_path_falls_back_to_valid_rollout_path() {
    let request = request(Some("/r/stale.jsonl"), Some("/r/rollout.jsonl"));
    assert_eq!(request.journal(false, true), Some("/r/rollout.jsonl"));
}

#[test]
fn the_journal_that_the_host_points_at_comes_first() {
    let both = request(Some("/t"), Some("/r"));
    assert_eq!(both.journal(true, true), Some("/t"));
    assert_eq!(both.journal(true, false), Some("/t"));
    assert_eq!(both.journal(false, false), None);
    assert_eq!(request(None, Some("/r")).journal(true, true), Some("/r"));
    assert_eq!(request(None, None).journal(true, true), None);
}

#[test]
fn a_new_debt_sweeps_only_prior_operational_state() {
    let store = Store::at("/base".to_string());
    let names: Vec<String> = [
        "s.json",
        "s.marker",
        "s.deliver-deadline",
        "s.marker.delivering.1.2",
        "s.marker.expiring.1.3",
        "s.deliver-deadline.publishing.1.4",
        "other.marker.delivering.1.2",
        "s2.marker.expiring.1.3",
    ]
    .iter()
    .map(|name| name.to_string())
    .collect();
    let debt = prepare_debt(&store, "s", &names, 5);
    assert_eq!(told(&debt.clear), vec!["remove /base/prefrontal-cortex/s.deliver-deadline"]);
    assert_eq!(
        told(&debt.sweep),
        vec![
            "remove /base/prefrontal-cortex/s.marker.delivering.1.2",
            "remove /base/prefrontal-cortex/s.marker.expiring.1.3",
            "remove /base/prefrontal-cortex/s.deliver-deadline.publishing.1.4",
        ]
    );
    assert_eq!(
        told(&debt.mark),
        vec![
            "create /base/prefrontal-cortex/s.tmp.5",
            "write /base/prefrontal-cortex/s.tmp.5 ongoing",
            "sync /base/prefrontal-cortex/s.tmp.5",
            "rename /base/prefrontal-cortex/s.tmp.5 /base/prefrontal-cortex/s.marker",
        ]
    );
}

fn told(steps: &[Step]) -> Vec<String> {
    steps
        .iter()
        .map(|step| match step {
            Step::Create(path) => format!("create {path}"),
            Step::Write(path, Body::Text(text)) => format!("write {path} {text}"),
            Step::Write(path, Body::Row(row)) => format!(
                "write {path} {} {} {}",
                row.amtr_key.as_deref().unwrap_or("-"),
                row.compacted_at,
                row.handoff
            ),
            Step::Sync(path) => format!("sync {path}"),
            Step::Rename(from, to) => format!("rename {from} {to}"),
            Step::Remove(path) => format!("remove {path}"),
        })
        .collect()
}

fn entry(name: &str, kind: FileKind) -> DirEntry {
    DirEntry {
        name: name.to_string(),
        kind,
    }
}

/// Runs a search over directories that are listed here; others cannot be read.
fn search(root: &str, session: &str, list: fn(&str) -> Option<Vec<DirEntry>>) -> Option<String> {
    let mut search = JournalSearch::find_codex_journal_under(root, session);
    while let Some(dir) = search.next() {
        let found = search.visit(&dir, list(&dir).unwrap_or_default());
        if found.is_some() {
            return found;
        }
    }
    None
}

#[test]
fn an_unreadable_codex_subtree_does_not_hide_a_readable_journal() {
    let found = search("/root", "session-123", |dir| match dir {
        "/root" => Some(vec![
            entry("good", FileKind::Directory),
            entry("zzz-blocked", FileKind::Directory),
        ]),
        "/root/good" => Some(vec![entry("rollout-session-123.jsonl", FileKind::File)]),
        _ => None,
    });
    assert_eq!(
        found.as_deref(),
        Some("/root/good/rollout-session-123.jsonl")
    );
}

#[test]
fn journal_search_does_not_follow_symlinked_directories() {
    let found = search("/root", "session-123", |dir| match dir {
        "/root" => Some(vec![
            entry("linked", FileKind::Symlink),
            entry("session-123.jsonl", FileKind::Symlink),
        ]),
        _ => Some(vec![entry("rollout-session-123.jsonl", FileKind::File)]),
    });
    assert_eq!(found, None);
}

#[test]
fn the_search_goes_in_the_order_of_names() {
    let found = search("/root", "x", |dir| match dir {
        "/root" => Some(vec![
            entry("2025", FileKind::Directory),
            entry("2026", FileKind::Directory),
            entry("x.json", FileKind::File),
            entry(".jsonl", FileKind::File),
            entry("y.jsonl", FileKind::File),
            entry("x.jsonl.d", FileKind::Other),
        ]),
        "/root/2026" => Some(vec![
            entry("b-x.jsonl", FileKind::File),
            entry("a-x.jsonl", FileKind::File),
        ]),
        _ => Some(vec![entry("x.jsonl", FileKind::File)]),
    });
    assert_eq!(found.as_deref(), Some("/root/2026/a-x.jsonl"));
    let mut search = JournalSearch::find_codex_journal("/home/u", "x");
    assert_eq!(search.next().as_deref(), Some("/home/u/.codex/sessions"));
    assert_eq!(search.next(), None);
}

#[test]
fn a_run_needs_a_session_and_a_journal() {
    let store = || Store::at("/base".to_string());
    let mut named = request(None, None);
    assert!(matches!(
        run(&named, None, store(), "D", 1),
        Err(Fault::NotFound(why)) if why == "host payload names no journal"
    ));
    let (_, path) = run(&named, Some("/j".to_string()), store(), "D", 1).ok().unwrap();
    assert_eq!(path, "/j");
    named.session_id = "../x".to_string();
    assert!(matches!(
        run(&named, None, store(), "D", 1),
        Err(Fault::InvalidInput(_))
    ));
}

fn window(text: &str, last_ts: Option<&str>) -> Window {
    Window {
        host: Host::Codex,
        text: text.to_string(),
        last_ts: last_ts.map(String::from),
    }
}

fn worker() -> Synthesis {
    let mut synthesis =
        Synthesis::synthesize(Store::at("/base".to_string()), "s", "DEFAULT", 5);
    for reply in [
        Reply::Done,
        Reply::Names(vec!["s.marker.delivering.1.2".to_string()]),
        Reply::Done,
        Reply::Done,
        Reply::Role(Role::Worker, 5),
        Reply::Done,
    ] {
        synthesis = synthesis.advance(reply).0;
    }
    assert!(matches!(synthesis.task(), Task::Load));
    synthesis
}

fn prior() -> Row {
    Row {
        session_id: "s".to_string(),
        amtr_key: Some("amtr-old".to_string()),
        handoff: "old".to_string(),
        compacted_at: "BOUNDARY".to_string(),
    }
}

fn is_withdrawn(synthesis: &Synthesis) -> bool {
    match synthesis.task() {
        Task::Perform(steps) => told(&steps) == vec!["remove /base/prefrontal-cortex/s.marker"],
        _ => false,
    }
}

fn exited(text: &str) -> Reply {
    Reply::Agent(AgentRun::Exited {
        success: true,
        status: String::new(),
        stdout: text.as_bytes().to_vec(),
    })
}

#[test]
fn a_worker_that_nothing_disturbs_saves_and_announces() {
    let (w, note) = worker().advance(Reply::Row(RowRead::Found(prior())));
    assert!(note.is_none());
    assert!(matches!(w.task(), Task::ReadWindow(Some(since)) if since == "BOUNDARY"));
    let (w, _) = w.advance(Reply::Window(window("[user] new", Some("LAST"))));
    assert!(matches!(w.task(), Task::ReadPrompt));
    let (w, _) = w.advance(Reply::Text(TextRead::Text("MINE".to_string())));
    assert!(matches!(w.task(), Task::MakeScratch));
    let (w, _) = w.advance(Reply::Done);
    assert!(matches!(
        w.task(),
        Task::RunAgent(Host::Codex, input) if input == compose("MINE", Some("old"), "[user] new")
    ));
    let (w, _) = w.advance(exited("## State\nall of the new state"));
    assert!(matches!(w.task(), Task::Mint));
    let (w, _) = w.advance(Reply::Minted {
        millis: 35,
        random: 36,
        now: "NOW".to_string(),
    });
    match w.task() {
        Task::Perform(steps) => assert_eq!(
            told(&steps)[1],
            "write /base/prefrontal-cortex/s.tmp.5 amtr-z-10 LAST ## State\nall of the new state"
        ),
        _ => panic!("the snapshot is saved"),
    }
    let (w, _) = w.advance(Reply::Done);
    match w.task() {
        Task::Perform(steps) => assert_eq!(
            told(&steps)[1],
            "write /base/prefrontal-cortex/s.tmp.5 ready:amtr-z-10"
        ),
        _ => panic!("the snapshot is announced"),
    }
    let (w, note) = w.advance(Reply::Done);
    assert!(note.is_none());
    assert!(matches!(w.task(), Task::Finish));
    assert!(matches!(w.finish(), Some(Ended::Quietly)));
}

#[test]
fn a_debt_is_begun_before_the_hook_returns() {
    let synthesis = Synthesis::synthesize(Store::at("/base".to_string()), "s", "DEFAULT", 5);
    assert!(matches!(synthesis.task(), Task::Perform(steps) if steps.len() == 1));
    let (synthesis, _) = synthesis.advance(Reply::Done);
    assert!(matches!(synthesis.task(), Task::List));
    let (synthesis, _) = synthesis.advance(Reply::Names(vec![
        "s.json".to_string(),
        "s.marker.expiring.9.9".to_string(),
    ]));
    assert!(matches!(synthesis.task(), Task::Attempt(steps) if steps.len() == 1));
    let (synthesis, _) = synthesis.advance(Reply::Done);
    match synthesis.task() {
        Task::Perform(steps) => assert_eq!(
            told(&steps)[1],
            "write /base/prefrontal-cortex/s.tmp.5 ongoing"
        ),
        _ => panic!("the debt is marked"),
    }
    let (synthesis, _) = synthesis.advance(Reply::Done);
    assert!(matches!(synthesis.task(), Task::Detach));
    let (synthesis, note) = synthesis.advance(Reply::Role(Role::Caller, 5));
    assert!(note.is_none());
    assert!(matches!(synthesis.finish(), Some(Ended::Quietly)));
}

#[test]
fn a_debt_that_cannot_be_begun_is_an_error() {
    let synthesis = Synthesis::synthesize(Store::at("/base".to_string()), "s", "DEFAULT", 5);
    let (synthesis, _) = synthesis.advance(Reply::Failed(Fault::Other("denied".to_string())));
    assert!(matches!(
        synthesis.finish(),
        Some(Ended::Failed(Fault::Other(why))) if why == "denied"
    ));
}

#[test]
fn a_process_that_cannot_detach_withdraws_the_debt() {
    let mut synthesis =
        Synthesis::synthesize(Store::at("/base".to_string()), "s", "DEFAULT", 5);
    // A directory that cannot be listed has nothing to sweep.
    for reply in [
        Reply::Done,
        Reply::Failed(Fault::Other("denied".to_string())),
        Reply::Done,
        Reply::Done,
    ] {
        synthesis = synthesis.advance(reply).0;
    }
    let (synthesis, note) = synthesis.advance(Reply::Role(Role::CannotDetach, 5));
    assert_eq!(note.as_deref(), Some("could not detach; giving up this window"));
    assert!(is_withdrawn(&synthesis));
    let (synthesis, note) =
        synthesis.advance(Reply::Failed(Fault::Other("denied".to_string())));
    assert_eq!(
        note.as_deref(),
        Some(
            "could not clear the marker for s; later hooks may wait out the delivery budget \
             until it is gone: denied"
        )
    );
    assert!(matches!(synthesis.finish(), Some(Ended::Quietly)));
}

#[test]
fn an_empty_window_runs_no_agent() {
    let (w, _) = worker().advance(Reply::Row(RowRead::Missing));
    assert!(matches!(w.task(), Task::ReadWindow(None)));
    let (w, note) = w.advance(Reply::Window(window(" \n", None)));
    assert_eq!(
        note.as_deref(),
        Some("nothing new since the previous compaction")
    );
    assert!(is_withdrawn(&w));
}

#[test]
fn a_damaged_row_counts_as_none() {
    let (w, note) = worker().advance(Reply::Row(RowRead::Garbled("EOF".to_string())));
    assert_eq!(
        note.as_deref(),
        Some("prior handoff unreadable, carrying nothing: stored row is not readable: EOF")
    );
    assert!(matches!(w.task(), Task::ReadWindow(None)));
}

fn prompting() -> Synthesis {
    let (w, _) = worker().advance(Reply::Row(RowRead::Missing));
    w.advance(Reply::Window(window("[user] new", None))).0
}

#[test]
fn a_missing_prompt_file_is_written_once() {
    let (w, note) = prompting().advance(Reply::Text(TextRead::Missing));
    assert!(note.is_none());
    match w.task() {
        Task::Perform(steps) => {
            assert_eq!(told(&steps)[1], "write /base/prompt.tmp.5 DEFAULT");
            assert_eq!(told(&steps)[3], "rename /base/prompt.tmp.5 /base/prompt.md");
        }
        _ => panic!("the prompt is written"),
    }
    let (w, note) = w.advance(Reply::Failed(Fault::Other("denied".to_string())));
    assert_eq!(note.as_deref(), Some("could not write /base/prompt.md: denied"));
    assert!(matches!(w.task(), Task::MakeScratch));
    let (w, _) = w.advance(Reply::Done);
    assert!(matches!(
        w.task(),
        Task::RunAgent(_, input) if input == compose("DEFAULT", None, "[user] new")
    ));
}

#[test]
fn every_failure_withdraws_the_debt_and_says_why() {
    let fault = || Reply::Failed(Fault::Other("why".to_string()));
    let check = |(w, note): (Synthesis, Option<String>), expected: &str| {
        assert_eq!(note.as_deref(), Some(expected));
        assert!(is_withdrawn(&w));
        assert!(matches!(w.advance(Reply::Done).0.finish(), Some(Ended::Quietly)));
    };
    let (w, _) = worker().advance(Reply::Row(RowRead::Missing));
    check(
        w.advance(fault()),
        "no snapshot written: could not read the journal: why",
    );
    let scratching = || prompting().advance(Reply::Text(TextRead::Text("P".to_string()))).0;
    check(
        scratching().advance(fault()),
        "no snapshot written: could not make a working directory: why",
    );
    let extracting = || scratching().advance(Reply::Done).0;
    check(
        extracting().advance(Reply::Agent(AgentRun::TimedOut)),
        "no snapshot written: extraction agent timed out",
    );
    check(
        extracting().advance(exited("ok")),
        "no snapshot written: produced no usable handoff",
    );
    let saving = || {
        let (w, _) = extracting().advance(exited("## State\nall of the new state"));
        w.advance(Reply::Minted {
            millis: 0,
            random: 0,
            now: "NOW".to_string(),
        })
        .0
    };
    match saving().task() {
        // Where the window had no time, the time of the snapshot stands in.
        Task::Perform(steps) => assert!(told(&steps)[1].contains(" NOW ")),
        _ => panic!("the snapshot is saved"),
    }
    check(
        saving().advance(fault()),
        "no snapshot written: could not store the snapshot: why",
    );
    let (w, note) = saving().advance(Reply::Done).0.advance(fault());
    assert_eq!(
        note.as_deref(),
        Some(
            "extracted, but could not mark deliverable — the row at s is stranded until the \
             next compaction: why"
        )
    );
    assert!(is_withdrawn(&w));
    assert!(matches!(
        w.advance(Reply::Done).0.finish(),
        Some(Ended::Failed(Fault::Other(why))) if why == "why"
    ));
}

#[test]
fn a_worker_that_cannot_leave_goes_on() {
    let mut synthesis =
        Synthesis::synthesize(Store::at("/base".to_string()), "s", "DEFAULT", 5);
    for reply in [
        Reply::Done,
        Reply::Names(Vec::new()),
        Reply::Done,
        Reply::Done,
        Reply::Role(Role::Worker, 5),
    ] {
        synthesis = synthesis.advance(reply).0;
    }
    assert!(matches!(synthesis.task(), Task::Leave));
    let (synthesis, note) =
        synthesis.advance(Reply::Failed(Fault::Other("gone".to_string())));
    assert_eq!(
        note.as_deref(),
        Some(
            "could not move the detached parent to the store directory before scratch setup: gone"
        )
    );
    assert!(matches!(synthesis.task(), Task::Load));
}

#[test]
fn the_worker_writes_under_its_own_process() {
    let mut synthesis =
        Synthesis::synthesize(Store::at("/base".to_string()), "s", "DEFAULT", 5);
    for reply in [
        Reply::Done,
        Reply::Names(Vec::new()),
        Reply::Done,
        Reply::Done,
        Reply::Role(Role::Worker, 77),
        Reply::Done,
        Reply::Row(RowRead::Missing),
        Reply::Window(window("[user] new", None)),
        Reply::Text(TextRead::Missing),
    ] {
        synthesis = synthesis.advance(reply).0;
    }
    match synthesis.task() {
        Task::Perform(steps) => assert_eq!(told(&steps)[0], "create /base/prompt.tmp.77"),
        _ => panic!("the prompt is written"),
    }
}

#[test]
fn two_forks_make_a_worker() {
    assert_eq!(after_first_fork(Forked::Failed), AfterFork::Is(Role::CannotDetach));
    assert_eq!(after_first_fork(Forked::Parent), AfterFork::Is(Role::Caller));
    assert_eq!(after_first_fork(Forked::Child), AfterFork::Again);
    assert_eq!(after_second_fork(Forked::Parent), AfterFork::Exit);
    assert_eq!(after_second_fork(Forked::Child), AfterFork::Is(Role::Worker));
    assert_eq!(after_second_fork(Forked::Failed), AfterFork::Is(Role::Worker));
}

#[test]
fn the_log_is_begun_anew_once_it_is_long() {
    assert!(!log_is_full(None));
    assert!(!log_is_full(Some(256 * 1024)));
    assert!(log_is_full(Some(256 * 1024 + 1)));
}
