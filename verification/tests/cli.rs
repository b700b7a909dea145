use amtr::cli::{Command, Status, USAGE, exit_code, parse};
use amtr::recall::Event;

fn command(args: &[&str]) -> Option<Command> {
    parse(&args.iter().map(|arg| arg.to_string()).collect())
}

#[test]
fn each_command_is_known() {
    assert!(matches!(command(&["synthesize"]), Some(Command::Synthesize)));
    assert!(matches!(
        command(&["recall", "PreToolUse"]),
        Some(Command::Recall(Event::PreToolUse))
    ));
    assert!(matches!(
        command(&["recall", "Handoff", "--amtr-key", "k"]),
        Some(Command::Handoff { amtr_key, clone: false }) if amtr_key == "k"
    ));
    assert!(matches!(
        command(&["recall", "Handoff", "--amtr-key", "k", "--clone"]),
        Some(Command::Handoff { amtr_key, clone: true }) if amtr_key == "k"
    ));
    assert!(matches!(command(&["key", "s"]), Some(Command::Key(id)) if id == "s"));
    assert!(matches!(
        command(&["default-prompt"]),
        Some(Command::DefaultPrompt)
    ));
}

#[test]
fn what_makes_no_sense_is_refused() {
    for args in [
        &[][..],
        &["synthesize", "now"],
        &["recall"],
        &["recall", "Handoff"],
        &["recall", "Other"],
        &["recall", "Handoff", "--clone", "k"],
        &["recall", "Handoff", "--amtr-key", "k", "--json"],
        &["key"],
        &["key", ""],
        &["default-prompt", "x"],
        &["recall", "s", "--amtr-key", "k"],
        &["help"],
    ] {
        assert!(command(args).is_none(), "accepted {args:?}");
    }
}

#[test]
fn the_flags_of_peek_stand_once_each_in_any_order() {
    assert!(matches!(
        command(&["peek"]),
        Some(Command::Peek { session: None, key: None, json: false })
    ));
    for args in [
        ["peek", "--session-id", "s", "--json", "--amtr-key", "k"],
        ["peek", "--amtr-key", "k", "--session-id", "s", "--json"],
    ] {
        assert!(matches!(
            command(&args),
            Some(Command::Peek { session: Some(s), key: Some(k), json: true })
                if s == "s" && k == "k"
        ));
    }
    for args in [
        &["peek", "--json", "--json"][..],
        &["peek", "--session-id"],
        &["peek", "--session-id", ""],
        &["peek", "--session-id", "a", "--session-id", "b"],
        &["peek", "--amtr-key", "a", "--amtr-key", "b"],
        &["peek", "s"],
    ] {
        assert!(command(args).is_none(), "accepted {args:?}");
    }
}

#[test]
fn the_exit_status_tells_three_things_apart() {
    assert_eq!(exit_code(Status::Delivered), 0);
    assert_eq!(exit_code(Status::Nothing), 1);
    assert_eq!(exit_code(Status::Failed), 1);
    assert_eq!(exit_code(Status::Usage), 2);
    assert!(USAGE.starts_with("usage:\n  amtr synthesize\n"));
    assert_eq!(USAGE.lines().count(), 7);
}
