//! What a command line asks for, and what the process says when it is done.

use vstd::prelude::*;

use crate::recall::{Event, event_name, event_names_are_distinct};
use crate::text::{copied, opt_view, same, views};

verus! {

/// What is printed where a command line makes no sense.
pub const USAGE: &'static str = "usage:
  amtr synthesize
  amtr recall <SessionStart|PreToolUse|UserPromptSubmit>
  amtr recall Handoff --amtr-key <key> [--clone]
  amtr peek [--session-id <id>] [--amtr-key <key>] [--json]
  amtr key <session_id>
  amtr default-prompt";

/// What a command line asks for.
pub enum Command {
    /// Capture a session that is about to be compacted.
    Synthesize,
    /// Deliver what is owed at a hook event.
    Recall(Event),
    /// Move or copy a snapshot to this session.
    Handoff { amtr_key: String, clone: bool },
    /// Show what is stored.
    Peek { session: Option<String>, key: Option<String>, json: bool },
    /// Name the snapshot of a session.
    Key(String),
    /// Print the prompt that is built in.
    DefaultPrompt,
}

/// What a command line asks for, as contracts speak of it.
pub enum CommandView {
    Synthesize,
    Recall(Event),
    Handoff { amtr_key: Seq<char>, clone: bool },
    Peek { session: Option<Seq<char>>, key: Option<Seq<char>>, json: bool },
    Key(Seq<char>),
    DefaultPrompt,
}

impl View for Command {
    type V = CommandView;

    open spec fn view(&self) -> CommandView {
        match self {
            Command::Synthesize => CommandView::Synthesize,
            Command::Recall(event) => CommandView::Recall(*event),
            Command::Handoff { amtr_key, clone } => CommandView::Handoff {
                amtr_key: amtr_key@,
                clone: *clone,
            },
            Command::Peek { session, key, json } => CommandView::Peek {
                session: opt_view(*session),
                key: opt_view(*key),
                json: *json,
            },
            Command::Key(session_id) => CommandView::Key(session_id@),
            Command::DefaultPrompt => CommandView::DefaultPrompt,
        }
    }
}

/// The event of that name, if it is one.
pub open spec fn event_named(name: Seq<char>) -> Option<Event> {
    if name == event_name(Event::SessionStart) {
        Some(Event::SessionStart)
    } else if name == event_name(Event::PreToolUse) {
        Some(Event::PreToolUse)
    } else if name == event_name(Event::UserPromptSubmit) {
        Some(Event::UserPromptSubmit)
    } else {
        None
    }
}

/// What the flags of `peek` ask for, on top of what has been asked for before
/// them. Each flag may stand once, and its value may not be empty.
pub open spec fn peek_flags(
    args: Seq<Seq<char>>,
    session: Option<Seq<char>>,
    key: Option<Seq<char>>,
    json: bool,
) -> Option<CommandView>
    decreases args.len(),
{
    if args.len() == 0 {
        Some(CommandView::Peek { session, key, json })
    } else if args[0] == "--session-id"@ {
        if args.len() >= 2 && session is None && args[1].len() > 0 {
            peek_flags(args.skip(2), Some(args[1]), key, json)
        } else {
            None
        }
    } else if args[0] == "--amtr-key"@ {
        if args.len() >= 2 && key is None && args[1].len() > 0 {
            peek_flags(args.skip(2), session, Some(args[1]), json)
        } else {
            None
        }
    } else if args[0] == "--json"@ && !json {
        peek_flags(args.skip(1), session, key, true)
    } else {
        None
    }
}

/// What a command line asks for, where it makes sense.
pub open spec fn parsed(args: Seq<Seq<char>>) -> Option<CommandView> {
    if args.len() == 0 {
        None
    } else if args[0] == "synthesize"@ {
        if args.len() == 1 {
            Some(CommandView::Synthesize)
        } else {
            None
        }
    } else if args[0] == "recall"@ {
        if args.len() == 2 {
            match event_named(args[1]) {
                Some(event) => Some(CommandView::Recall(event)),
                None => None,
            }
        } else if args.len() == 4 && args[1] == "Handoff"@ && args[2] == "--amtr-key"@ {
            Some(CommandView::Handoff { amtr_key: args[3], clone: false })
        } else if args.len() == 5 && args[1] == "Handoff"@ && args[2] == "--amtr-key"@ && args[4]
            == "--clone"@ {
            Some(CommandView::Handoff { amtr_key: args[3], clone: true })
        } else {
            None
        }
    } else if args[0] == "peek"@ {
        peek_flags(args.skip(1), None, None, false)
    } else if args[0] == "key"@ {
        if args.len() == 2 && args[1].len() > 0 {
            Some(CommandView::Key(args[1]))
        } else {
            None
        }
    } else if args[0] == "default-prompt"@ {
        if args.len() == 1 {
            Some(CommandView::DefaultPrompt)
        } else {
            None
        }
    } else {
        None
    }
}

/// A command, if there is one, as contracts speak of it.
pub open spec fn command_view(command: Option<Command>) -> Option<CommandView> {
    match command {
        Some(command) => Some(command@),
        None => None,
    }
}

fn parse_event(name: &str) -> (event: Option<Event>)
    ensures
        event == event_named(name@),
{
    let event = Event::parse(name);
    proof {
        if event is None {
            assert(name@ != event_name(Event::SessionStart));
            assert(name@ != event_name(Event::PreToolUse));
            assert(name@ != event_name(Event::UserPromptSubmit));
        } else {
            event_names_are_distinct(event->0, Event::SessionStart);
            event_names_are_distinct(event->0, Event::PreToolUse);
            event_names_are_distinct(event->0, Event::UserPromptSubmit);
        }
    }
    event
}

/// Reads the flags of `peek`. A flag that is repeated or has no value is an
/// error: a mistyped question must not pass for a well-defined one.
pub fn peek(args: &Vec<String>, from: usize) -> (command: Option<Command>)
    requires
        from <= args.len(),
    ensures
        command_view(command) == peek_flags(views(args@).skip(from as int), None, None, false),
{
    let ghost all = views(args@);
    let mut session: Option<String> = None;
    let mut key: Option<String> = None;
    let mut json = false;
    let mut i: usize = from;
    while i < args.len()
        invariant
            i <= args.len(),
            all == views(args@),
            peek_flags(all.skip(from as int), None, None, false) == peek_flags(
                all.skip(i as int),
                opt_view(session),
                opt_view(key),
                json,
            ),
        decreases args.len() - i,
    {
        assert(all.skip(i as int)[0] == args@[i as int]@);
        let flag = args[i].as_str();
        if same(flag, "--session-id") {
            if args.len() - i < 2 {
                return None;
            }
            assert(all.skip(i as int)[1] == args@[i + 1]@);
            assert(all.skip(i as int).skip(2) =~= all.skip(i + 2));
            if session.is_some() || args[i + 1].as_str().is_empty() {
                return None;
            }
            session = Some(copied(args[i + 1].as_str()));
            i = i + 2;
        } else if same(flag, "--amtr-key") {
            if args.len() - i < 2 {
                return None;
            }
            assert(all.skip(i as int)[1] == args@[i + 1]@);
            assert(all.skip(i as int).skip(2) =~= all.skip(i + 2));
            if key.is_some() || args[i + 1].as_str().is_empty() {
                return None;
            }
            key = Some(copied(args[i + 1].as_str()));
            i = i + 2;
        } else if same(flag, "--json") && !json {
            assert(all.skip(i as int).skip(1) =~= all.skip(i + 1));
            json = true;
            i = i + 1;
        } else {
            return None;
        }
    }
    assert(all.skip(i as int) =~= Seq::empty());
    Some(Command::Peek { session, key, json })
}

/// Reads a command line, without the name of the program.
pub fn parse(args: &Vec<String>) -> (command: Option<Command>)
    ensures
        command_view(command) == parsed(views(args@)),
{
    let ghost all = views(args@);
    if args.len() == 0 {
        return None;
    }
    assert(forall|i: int| 0 <= i < all.len() ==> #[trigger] all[i] == args@[i]@);
    let name = args[0].as_str();
    let count: usize = args.len();
    if same(name, "synthesize") {
        if count == 1 {
            Some(Command::Synthesize)
        } else {
            None
        }
    } else if same(name, "recall") {
        if count == 2 {
            match parse_event(args[1].as_str()) {
                Some(event) => Some(Command::Recall(event)),
                None => None,
            }
        } else if count == 4 && same(args[1].as_str(), "Handoff") && same(
            args[2].as_str(),
            "--amtr-key",
        ) {
            Some(Command::Handoff { amtr_key: copied(args[3].as_str()), clone: false })
        } else if count == 5 && same(args[1].as_str(), "Handoff") && same(
            args[2].as_str(),
            "--amtr-key",
        ) && same(args[4].as_str(), "--clone") {
            Some(Command::Handoff { amtr_key: copied(args[3].as_str()), clone: true })
        } else {
            None
        }
    } else if same(name, "peek") {
        peek(args, 1)
    } else if same(name, "key") {
        if count == 2 && !args[1].as_str().is_empty() {
            Some(Command::Key(copied(args[1].as_str())))
        } else {
            None
        }
    } else if same(name, "default-prompt") {
        if count == 1 {
            Some(Command::DefaultPrompt)
        } else {
            None
        }
    } else {
        None
    }
}

/// How a command ended.
#[derive(Clone, Copy, Debug, PartialEq, Eq, Structural)]
pub enum Status {
    /// It printed what was asked for.
    Delivered,
    /// There was nothing to print.
    Nothing,
    /// It was called wrong.
    Usage,
    /// It failed.
    Failed,
}

/// The exit status of the process. A hook that finds nothing to deliver and one
/// that fails look alike, and neither looks like a command that was called
/// wrong.
pub fn exit_code(status: Status) -> (code: u8)
    ensures
        code == (match status {
            Status::Delivered => 0u8,
            Status::Nothing => 1u8,
            Status::Usage => 2u8,
            Status::Failed => 1u8,
        }),
{
    match status {
        Status::Delivered => 0,
        Status::Nothing => 1,
        Status::Usage => 2,
        Status::Failed => 1,
    }
}

/// A repeated flag is refused, and a session or a key that has been given stays
/// what it is.
pub proof fn repeated_flags_are_refused(
    args: Seq<Seq<char>>,
    session: Option<Seq<char>>,
    key: Option<Seq<char>>,
    json: bool,
)
    ensures
        args.len() > 0 && args[0] == "--session-id"@ && session is Some ==> peek_flags(
            args,
            session,
            key,
            json,
        ) is None,
        args.len() > 0 && args[0] == "--amtr-key"@ && key is Some ==> peek_flags(
            args,
            session,
            key,
            json,
        ) is None,
        args.len() > 0 && args[0] == "--json"@ && json ==> peek_flags(
            args,
            session,
            key,
            json,
        ) is None,
        peek_flags(args, session, key, json) matches Some(command) ==> (command matches
            CommandView::Peek { session: s, key: k, json: j } && (session is Some ==> s == session)
            && (key is Some ==> k == key) && (json ==> j)),
    decreases args.len(),
{
    reveal_strlit("--session-id");
    reveal_strlit("--amtr-key");
    reveal_strlit("--json");
    assert("--session-id"@.len() == 12);
    assert("--amtr-key"@.len() == 10);
    assert("--json"@.len() == 6);
    if args.len() > 0 {
        if args[0] == "--session-id"@ {
            if args.len() >= 2 && session is None && args[1].len() > 0 {
                repeated_flags_are_refused(args.skip(2), Some(args[1]), key, json);
            }
        } else if args[0] == "--amtr-key"@ {
            if args.len() >= 2 && key is None && args[1].len() > 0 {
                repeated_flags_are_refused(args.skip(2), session, Some(args[1]), json);
            }
        } else if args[0] == "--json"@ && !json {
            repeated_flags_are_refused(args.skip(1), session, key, true);
        }
    }
}

proof fn lemma_words_differ()
    ensures
        "synthesize"@.len() == 10,
        "recall"@.len() == 6,
        "peek"@.len() == 4,
        "key"@.len() == 3,
        "default-prompt"@.len() == 14,
        "--session-id"@.len() == 12,
        "--amtr-key"@.len() == 10,
        "--json"@.len() == 6,
        "Handoff"@.len() == 7,
        "--clone"@.len() == 7,
{
    reveal_strlit("synthesize");
    reveal_strlit("recall");
    reveal_strlit("peek");
    reveal_strlit("key");
    reveal_strlit("default-prompt");
    reveal_strlit("--session-id");
    reveal_strlit("--amtr-key");
    reveal_strlit("--json");
    reveal_strlit("Handoff");
    reveal_strlit("--clone");
}

/// Each command is understood as what it is called, with the values that it is
/// given as they stand.
pub proof fn commands_are_understood(event: Event, value: Seq<char>)
    ensures
        parsed(seq!["synthesize"@]) == Some(CommandView::Synthesize),
        parsed(seq!["default-prompt"@]) == Some(CommandView::DefaultPrompt),
        parsed(seq!["recall"@, event_name(event)]) == Some(CommandView::Recall(event)),
        parsed(seq!["recall"@, "Handoff"@, "--amtr-key"@, value]) == Some(
            CommandView::Handoff { amtr_key: value, clone: false },
        ),
        parsed(seq!["recall"@, "Handoff"@, "--amtr-key"@, value, "--clone"@]) == Some(
            CommandView::Handoff { amtr_key: value, clone: true },
        ),
        value.len() > 0 ==> parsed(seq!["key"@, value]) == Some(CommandView::Key(value)),
        parsed(seq!["key"@, Seq::empty()]) is None,
        parsed(seq!["peek"@]) == Some(CommandView::Peek { session: None, key: None, json: false }),
        parsed(Seq::empty()) is None,
        event_name(Event::SessionStart) == "SessionStart"@,
        event_name(Event::PreToolUse) == "PreToolUse"@,
        event_name(Event::UserPromptSubmit) == "UserPromptSubmit"@,
{
    lemma_words_differ();
    event_names_are_distinct(event, Event::SessionStart);
    event_names_are_distinct(event, Event::PreToolUse);
    event_names_are_distinct(event, Event::UserPromptSubmit);
    assert(seq!["peek"@].skip(1) =~= Seq::empty());
}

/// Nothing else is understood: a command line that makes sense begins with one of
/// the five words, has as many arguments as belong to it, and names an event or a
/// handoff where it recalls.
pub proof fn nothing_else_is_understood(args: Seq<Seq<char>>)
    requires
        parsed(args) is Some,
    ensures
        args.len() > 0,
        ({
            ||| args[0] == "synthesize"@ && args.len() == 1 && parsed(args)->0 is Synthesize
            ||| args[0] == "default-prompt"@ && args.len() == 1 && parsed(args)->0 is DefaultPrompt
            ||| args[0] == "key"@ && args.len() == 2 && args[1].len() > 0 && parsed(args)->0
                == CommandView::Key(args[1])
            ||| args[0] == "recall"@ && args.len() == 2 && (parsed(args)->0 matches
                CommandView::Recall(event) && args[1] == event_name(event))
            ||| args[0] == "recall"@ && args.len() == 4 && args[1] == "Handoff"@ && args[2]
                == "--amtr-key"@ && parsed(args)->0 == (CommandView::Handoff {
                amtr_key: args[3],
                clone: false,
            })
            ||| args[0] == "recall"@ && args.len() == 5 && args[1] == "Handoff"@ && args[2]
                == "--amtr-key"@ && args[4] == "--clone"@ && parsed(args)->0 == (
            CommandView::Handoff { amtr_key: args[3], clone: true })
            ||| args[0] == "peek"@ && parsed(args)->0 is Peek
        }),
{
    lemma_words_differ();
    if args[0] == "peek"@ {
        repeated_flags_are_refused(args.skip(1), None, None, false);
    }
}

/// Each flag of `peek` sets what it is called for, from the argument behind it as
/// it stands, and leaves the rest of the line to be read as it would be without
/// it. A flag without a value, or with an empty one, and a word that is no flag
/// make no sense.
pub proof fn flags_set_what_they_are_called_for(
    rest: Seq<Seq<char>>,
    value: Seq<char>,
    session: Option<Seq<char>>,
    key: Option<Seq<char>>,
    json: bool,
)
    ensures
        peek_flags(Seq::empty(), session, key, json) == Some(
            CommandView::Peek { session, key, json },
        ),
        value.len() > 0 ==> peek_flags(seq!["--session-id"@, value] + rest, None, key, json)
            == peek_flags(rest, Some(value), key, json),
        value.len() > 0 ==> peek_flags(seq!["--amtr-key"@, value] + rest, session, None, json)
            == peek_flags(rest, session, Some(value), json),
        peek_flags(seq!["--json"@] + rest, session, key, false) == peek_flags(
            rest,
            session,
            key,
            true,
        ),
        peek_flags(seq!["--session-id"@, Seq::empty()] + rest, session, key, json) is None,
        peek_flags(seq!["--amtr-key"@, Seq::empty()] + rest, session, key, json) is None,
        peek_flags(seq!["--session-id"@], session, key, json) is None,
        peek_flags(seq!["--amtr-key"@], session, key, json) is None,
        value != "--session-id"@ && value != "--amtr-key"@ && value != "--json"@ ==> peek_flags(
            seq![value] + rest,
            session,
            key,
            json,
        ) is None,
        parsed(seq!["peek"@] + rest) == peek_flags(rest, None, None, false),
{
    lemma_words_differ();
    let a = seq!["--session-id"@, value] + rest;
    assert(a.skip(2) =~= rest);
    assert(a[0] == "--session-id"@ && a[1] == value);
    let b = seq!["--amtr-key"@, value] + rest;
    assert(b.skip(2) =~= rest);
    assert(b[0] == "--amtr-key"@ && b[1] == value);
    let c = seq!["--json"@] + rest;
    assert(c.skip(1) =~= rest);
    assert(c[0] == "--json"@);
    let d = seq!["--session-id"@, Seq::empty()] + rest;
    assert(d[0] == "--session-id"@ && d[1].len() == 0);
    let e = seq!["--amtr-key"@, Seq::empty()] + rest;
    assert(e[0] == "--amtr-key"@ && e[1].len() == 0);
    let f = seq![value] + rest;
    assert(f[0] == value);
    let g = seq!["peek"@] + rest;
    assert(g[0] == "peek"@);
    assert(g.skip(1) =~= rest);
}

/// The flags of `peek` may stand in any order.
pub proof fn flags_may_stand_in_any_order(session: Seq<char>, key: Seq<char>)
    requires
        session.len() > 0,
        key.len() > 0,
    ensures
        ({
            let s = seq!["--session-id"@, session];
            let k = seq!["--amtr-key"@, key];
            let j = seq!["--json"@];
            let p = seq!["peek"@];
            let asked = Some(
                CommandView::Peek { session: Some(session), key: Some(key), json: true },
            );
            &&& parsed(p + (s + (k + (j + Seq::empty())))) == asked
            &&& parsed(p + (s + (j + (k + Seq::empty())))) == asked
            &&& parsed(p + (k + (s + (j + Seq::empty())))) == asked
            &&& parsed(p + (k + (j + (s + Seq::empty())))) == asked
            &&& parsed(p + (j + (s + (k + Seq::empty())))) == asked
            &&& parsed(p + (j + (k + (s + Seq::empty())))) == asked
        }),
{
    let s = seq!["--session-id"@, session];
    let k = seq!["--amtr-key"@, key];
    let j = seq!["--json"@];
    let none = Seq::<Seq<char>>::empty();
    let one = Some(session);
    let two = Some(key);
    flags_set_what_they_are_called_for(none, session, one, two, true);
    flags_set_what_they_are_called_for(none, key, one, two, true);
    flags_set_what_they_are_called_for(none, session, one, two, false);
    flags_set_what_they_are_called_for(none, key, one, two, false);
    flags_set_what_they_are_called_for(k + (j + none), session, None, None, false);
    flags_set_what_they_are_called_for(j + none, key, one, None, false);
    flags_set_what_they_are_called_for(j + (k + none), session, None, None, false);
    flags_set_what_they_are_called_for(k + none, key, one, None, false);
    flags_set_what_they_are_called_for(none, key, one, None, true);
    flags_set_what_they_are_called_for(s + (j + none), key, None, None, false);
    flags_set_what_they_are_called_for(j + none, session, None, two, false);
    flags_set_what_they_are_called_for(j + (s + none), key, None, None, false);
    flags_set_what_they_are_called_for(s + none, session, None, two, false);
    flags_set_what_they_are_called_for(none, session, None, two, true);
    flags_set_what_they_are_called_for(s + (k + none), session, None, None, false);
    flags_set_what_they_are_called_for(k + none, session, None, None, true);
    flags_set_what_they_are_called_for(k + (s + none), session, None, None, false);
    flags_set_what_they_are_called_for(s + none, key, None, None, true);
    flags_set_what_they_are_called_for(s + (k + (j + none)), session, None, None, false);
    flags_set_what_they_are_called_for(s + (j + (k + none)), session, None, None, false);
    flags_set_what_they_are_called_for(k + (s + (j + none)), session, None, None, false);
    flags_set_what_they_are_called_for(k + (j + (s + none)), session, None, None, false);
    flags_set_what_they_are_called_for(j + (s + (k + none)), session, None, None, false);
    flags_set_what_they_are_called_for(j + (k + (s + none)), session, None, None, false);
}

} // verus!
