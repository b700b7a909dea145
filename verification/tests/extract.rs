use amtr::extract::{
    AgentRun, EXTRACTION_TIMEOUT, Failed, MAX_HANDOFF_BYTES, MAX_HANDOFF_TOKENS, Watch, agent,
    compose, judge, run, strip_preamble, validate, watch,
};
use amtr::fault::Fault;
use amtr::host::session_variable;
use amtr::journal::Host;
use amtr::prompt::DEFAULT_PROMPT;

#[test]
fn rejects_empty_and_whitespace_output() {
    assert!(validate("").is_err());
    assert!(validate("   \n\t\n ").is_err());
}

#[test]
fn rejects_a_stub_too_short_to_be_a_handoff() {
    assert!(validate("ok").is_err());
}

#[test]
fn rejects_a_runaway_that_would_blow_the_budget() {
    assert!(validate(&"x".repeat(MAX_HANDOFF_BYTES + 1)).is_err());
}

#[test]
fn accepts_and_trims_a_plausible_handoff() {
    let out = validate("  \nStill fixing the retry loop in fetch().\n  ").unwrap();
    assert_eq!(out, "Still fixing the retry loop in fetch().");
}

#[test]
fn narration_before_the_first_section_is_dropped() {
    let raw = "This is a first-compaction request. Let me look at the journal.\n\n\
               I must not fabricate work that did not happen.\n\n\
               ## Rules and rulings\nnone\n";
    let out = strip_preamble(raw);
    assert!(out.starts_with("## Rules and rulings"), "got: {out}");
    assert!(!out.contains("Let me look"));
}

#[test]
fn output_that_already_starts_at_a_section_is_untouched() {
    let raw = "## Rules and rulings\nnone\n";
    assert_eq!(strip_preamble(raw), raw);
}

#[test]
fn a_well_formed_handoff_keeps_its_very_first_section() {
    let raw = "## Rules and rulings\n- \"never use the Foo library\"\n\n\
               ## Task map and position\nfixing the parser\n";
    let out = strip_preamble(raw);
    assert!(
        out.contains("never use the Foo library"),
        "lost the rules: {out}"
    );
    assert!(out.contains("## Task map and position"));
    assert_eq!(out, raw);
}

#[test]
fn a_headingless_prompt_keeps_its_output_rather_than_losing_it() {
    let raw = "just a paragraph of handoff text with no headings at all";
    assert_eq!(strip_preamble(raw), raw);
}

#[test]
fn only_the_leading_narration_goes_not_later_sections() {
    let raw = "preamble\n\n## Rules and rulings\nnone\n\n## Rejected\nnone\n";
    let out = strip_preamble(raw);
    assert!(out.contains("## Rejected"));
    assert!(out.starts_with("## Rules"));
}

#[test]
fn compose_marks_first_compaction_explicitly() {
    let c = compose("PROMPT", None, "journal");
    assert!(c.contains("first compaction"));
    assert!(c.contains("journal"));
}

#[test]
fn compose_carries_the_prior_handoff() {
    let c = compose("PROMPT", Some("carried over"), "journal");
    assert!(c.contains("carried over"));
    assert!(!c.contains("first compaction"));
}

#[test]
fn compose_writes_exactly_this() {
    assert_eq!(
        compose("PROMPT", Some("carried"), "journal"),
        "PROMPT\n\n## Prior handoff\n\ncarried\n\n\
         ## Session journal since the previous compaction\n\njournal\n"
    );
    assert_eq!(
        compose("P", Some(" \n"), "\t"),
        "P\n\n## Prior handoff\n\n(none - this is the first compaction of this session)\n\n\
         ## Session journal since the previous compaction\n\n(empty)\n"
    );
}

#[test]
fn white_space_before_the_first_section_goes_too() {
    assert_eq!(strip_preamble("  \n## A\nb"), "## A\nb");
    assert_eq!(strip_preamble("  text\n##no heading"), "  text\n##no heading");
    assert_eq!(strip_preamble("text\n## A\n## B"), "## A\n## B");
}

#[test]
fn each_reason_to_reject_is_told() {
    assert_eq!(validate("ok").unwrap_err(), "produced no usable handoff");
    assert_eq!(
        validate(&"x".repeat(MAX_HANDOFF_BYTES + 1)).unwrap_err(),
        "exceeds the handoff budget"
    );
    assert_eq!(validate(&"x".repeat(19)).unwrap_err(), "produced no usable handoff");
    assert_eq!(validate(&"x".repeat(20)).unwrap(), "x".repeat(20));
}

#[test]
fn the_token_budget_counts_four_ascii_characters_or_one_other() {
    let ascii = "x".repeat(4 * MAX_HANDOFF_TOKENS);
    assert_eq!(validate(&ascii).unwrap().len(), 8_000);
    assert!(validate(&format!("{ascii}x")).is_err());
    let snow = "雪".repeat(MAX_HANDOFF_TOKENS);
    assert!(validate(&snow).is_ok());
    assert!(validate(&format!("{snow}雪")).is_err());
    assert!(validate(&format!("{snow}x")).is_err());
}

#[test]
fn what_was_accepted_is_accepted_again_unchanged() {
    let first = validate("\n  ## Working state\nall of it stands\n\n").unwrap();
    assert_eq!(validate(&first).unwrap(), first);
}

#[test]
fn the_agents_are_started_with_as_few_tools_as_they_allow() {
    let claude = agent(Host::Claude, "ASK".to_string(), "/scratch");
    assert_eq!(
        format!("{}_CODE_SESSION_ID", claude.program.to_uppercase()),
        "CLAUDE_CODE_SESSION_ID"
    );
    assert_eq!(claude.program, claude.program.to_lowercase());
    assert_eq!(claude.directory, "/scratch");
    assert_eq!(claude.stdin, "ASK");
    assert_eq!(
        claude.args,
        vec!["-p", "--output-format", "text", "--tools", "", "--strict-mcp-config"]
    );
    let codex = agent(Host::Codex, "ASK".to_string(), "/scratch");
    assert_eq!(codex.program, "codex");
    assert_eq!(codex.directory, "/scratch");
    assert_eq!(codex.stdin, "ASK");
    assert_eq!(
        codex.args,
        vec![
            "exec",
            "--skip-git-repo-check",
            "--sandbox",
            "read-only",
            "-c",
            "features.shell_tool=false",
            "-c",
            "mcp_servers={}",
            "-C",
            "/scratch",
            "-",
        ]
    );
}

#[test]
fn an_agent_is_watched_until_it_ends_or_its_time_is_up() {
    assert_eq!(watch(true, EXTRACTION_TIMEOUT + 1), Watch::Collect);
    assert_eq!(watch(false, EXTRACTION_TIMEOUT), Watch::Kill);
    assert_eq!(watch(false, EXTRACTION_TIMEOUT - 1), Watch::Sleep(200));
    assert_eq!(EXTRACTION_TIMEOUT, 600_000);
}

#[test]
fn every_way_a_run_can_end_is_told_apart() {
    let fault = || Fault::Other("why".to_string());
    let message = |came: AgentRun| run(came).unwrap_err().message();
    assert_eq!(
        message(AgentRun::NotStarted(fault())),
        "no snapshot written: could not start the extraction agent: why"
    );
    assert_eq!(message(AgentRun::Broken(fault())), "no snapshot written: why");
    assert_eq!(
        message(AgentRun::TimedOut),
        "no snapshot written: extraction agent timed out"
    );
    assert_eq!(
        message(AgentRun::Lost),
        "no snapshot written: output reader panicked"
    );
    assert_eq!(
        message(AgentRun::Unreadable(fault())),
        "no snapshot written: could not read the agent's output: why"
    );
    assert_eq!(
        message(AgentRun::Exited {
            success: false,
            status: "exit status: 3".to_string(),
            stdout: b"## State\nlong enough to be a handoff".to_vec(),
        }),
        "no snapshot written: extraction agent exited with exit status: 3"
    );
    assert_eq!(
        Failed::Vacuous.message(),
        "nothing new since the previous compaction"
    );
}

#[test]
fn an_answer_is_stripped_and_trimmed() {
    let out = run(AgentRun::Exited {
        success: true,
        status: "exit status: 0".to_string(),
        stdout: b"Let me see.\n\n## State\nfixing the parser now\n\n".to_vec(),
    });
    assert_eq!(out.unwrap(), "## State\nfixing the parser now");
    assert_eq!(
        judge("Let me see.\n\n## State\nfixing the parser now\n\n").unwrap(),
        "## State\nfixing the parser now"
    );
}

#[test]
fn bytes_that_are_no_text_are_replaced_and_not_refused() {
    let out = run(AgentRun::Exited {
        success: true,
        status: String::new(),
        stdout: b"## State\nfixing the \xff parser now".to_vec(),
    });
    assert_eq!(out.unwrap(), "## State\nfixing the \u{fffd} parser now");
}

#[test]
fn the_built_in_prompt_asks_for_each_section() {
    assert!(DEFAULT_PROMPT.starts_with("# Amnestic Trace extraction prompt\n\n"));
    let headings: Vec<&str> = DEFAULT_PROMPT
        .lines()
        .filter_map(|line| line.strip_prefix("## "))
        .collect();
    assert_eq!(
        headings,
        vec![
            "Task map and position",
            "Rules and rulings",
            "Open questions",
            "Rejected",
            "Working state",
        ]
    );
    assert!(DEFAULT_PROMPT.ends_with("no commentary about this prompt.\n"));
}

#[test]
fn hosts_name_their_sessions_in_variables_of_their_own() {
    assert_eq!(session_variable(Host::Claude), "CLAUDE_CODE_SESSION_ID");
    assert_eq!(session_variable(Host::Codex), "CODEX_THREAD_ID");
}
