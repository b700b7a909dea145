//! What the extraction agent is asked, how it is run, and whether its answer
//! can be used. Anything short of a clean answer is an error, and an error
//! means that nothing is written.

use vstd::prelude::*;

use crate::fault::{Fault, message_of};
use crate::host::{program_name, program_of};
use crate::journal::Host;
use crate::text::{
    begins_with, blank, chars_of, contains, copied, copy_range, find, first_position, has_prefix,
    is_blank, is_space, occurs_at, position, position_is_first, text_of, trim, trim_start,
    trim_start_chars, trim_start_is_a_suffix, trimmed, trimming_is_stable, views,
};
use crate::text_laws::trimming_the_start_stops_at_the_first_character;

verus! {

/// Why a synthesize produced no snapshot.
#[derive(Debug)]
pub enum Failed {
    /// Nothing new in the journal. There was no work.
    Vacuous,
    /// Something went wrong. The message says what.
    Failed(String),
}

/// Why there is no snapshot, as contracts speak of it.
pub enum FailedView {
    Vacuous,
    Failed(Seq<char>),
}

impl View for Failed {
    type V = FailedView;

    open spec fn view(&self) -> FailedView {
        match self {
            Failed::Vacuous => FailedView::Vacuous,
            Failed::Failed(message) => FailedView::Failed(message@),
        }
    }
}

impl Failed {
    /// What the log says.
    pub fn message(&self) -> (message: String)
        ensures
            message@ == (match self@ {
                FailedView::Vacuous => "nothing new since the previous compaction"@,
                FailedView::Failed(why) => "no snapshot written: "@ + why,
            }),
    {
        match self {
            Failed::Vacuous => copied("nothing new since the previous compaction"),
            Failed::Failed(why) => {
                let mut message = copied("no snapshot written: ");
                message.append(why.as_str());
                message
            },
        }
    }
}

/// An error with a few words in front of it.
pub(crate) fn failed_with(what: &str, fault: &Fault) -> (failed: Failed)
    ensures
        failed@ == FailedView::Failed(what@ + message_of(fault@)),
{
    let mut message = copied(what);
    message.append(fault.message().as_str());
    Failed::Failed(message)
}

/// The most bytes of a handoff. More is a runaway and no summary.
pub const MAX_HANDOFF_BYTES: usize = 65_536;

/// The most tokens of a handoff. Hosts put more than they show into a file, and
/// a handoff that arrives with its middle replaced still reads like one.
pub const MAX_HANDOFF_TOKENS: usize = 2_000;

/// The fewest characters of a handoff.
pub const MIN_HANDOFF_CHARS: usize = 20;

/// How many characters of `text` are ASCII.
pub open spec fn ascii_count(text: Seq<char>) -> nat
    decreases text.len(),
{
    if text.len() == 0 {
        0
    } else {
        ascii_count(text.drop_last()) + (if (text.last() as u32) < 0x80 {
            1nat
        } else {
            0nat
        })
    }
}

/// How many tokens `text` is taken for: one for every four characters of ASCII
/// or part of that, and one for every other character.
pub open spec fn token_estimate(text: Seq<char>) -> nat {
    ((ascii_count(text) + 3) / 4 + (text.len() - ascii_count(text))) as nat
}

proof fn lemma_ascii_count(text: Seq<char>)
    ensures
        ascii_count(text) <= text.len(),
    decreases text.len(),
{
    if text.len() > 0 {
        lemma_ascii_count(text.drop_last());
    }
}

/// Whether `text` takes more than the `most` tokens.
fn takes_more_tokens(text: &Vec<char>, most: usize) -> (more: bool)
    ensures
        more == (token_estimate(text@) > most),
{
    let mut ascii: usize = 0;
    let mut i: usize = 0;
    assert(text@.take(0) =~= Seq::empty());
    while i < text.len()
        invariant
            i <= text.len(),
            ascii <= i,
            ascii == ascii_count(text@.take(i as int)),
        decreases text.len() - i,
    {
        assert(text@.take(i + 1).drop_last() =~= text@.take(i as int));
        let code: u32 = text[i] as u32;
        if code < 0x80 {
            ascii = ascii + 1;
        }
        i = i + 1;
    }
    assert(text@.take(i as int) =~= text@);
    let others: usize = text.len() - ascii;
    let groups: usize = ascii / 4 + (if ascii % 4 == 0 {
        0
    } else {
        1
    });
    assert(groups == (ascii + 3) / 4);
    groups > most || others > most - groups
}

/// Whether a handoff is too large.
pub open spec fn is_over_budget(text: Seq<char>) -> bool {
    ||| vstd::utf8::encode_utf8(text).len() > MAX_HANDOFF_BYTES
    ||| token_estimate(text) > MAX_HANDOFF_TOKENS
}

/// Decides whether what the agent wrote is a handoff. It is the only gate
/// between a flaky run and the working memory that would be overwritten.
pub fn validate(raw: &str) -> (handoff: Result<String, String>)
    ensures
        match handoff {
            Ok(text) => {
                &&& text@ == trimmed(raw@)
                &&& trimmed(raw@).len() >= MIN_HANDOFF_CHARS
                &&& !is_over_budget(trimmed(raw@))
            },
            Err(why) => if trimmed(raw@).len() < MIN_HANDOFF_CHARS {
                why@ == "produced no usable handoff"@
            } else {
                is_over_budget(trimmed(raw@)) && why@ == "exceeds the handoff budget"@
            },
        },
{
    let text = trim(raw);
    let chars = chars_of(text.as_str());
    if chars.len() < MIN_HANDOFF_CHARS {
        return Err(copied("produced no usable handoff"));
    }
    if text.as_str().as_bytes().len() > MAX_HANDOFF_BYTES || takes_more_tokens(
        &chars,
        MAX_HANDOFF_TOKENS,
    ) {
        return Err(copied("exceeds the handoff budget"));
    }
    Ok(text)
}

/// Whether a text is a handoff as it stands.
pub open spec fn is_handoff(text: Seq<char>) -> bool {
    &&& trimmed(text) == text
    &&& text.len() >= MIN_HANDOFF_CHARS
    &&& !is_over_budget(text)
}

/// What is accepted is a handoff as it stands, and would be accepted again
/// unchanged.
pub proof fn accepted_handoffs_are_stable(raw: Seq<char>)
    requires
        trimmed(raw).len() >= MIN_HANDOFF_CHARS,
        !is_over_budget(trimmed(raw)),
    ensures
        is_handoff(trimmed(raw)),
        trimmed(trimmed(raw)) == trimmed(raw),
{
    trimming_is_stable(raw);
}

/// A handoff has at most four characters for each token of the budget.
pub proof fn handoffs_are_small(text: Seq<char>)
    requires
        is_handoff(text),
    ensures
        text.len() <= 4 * MAX_HANDOFF_TOKENS,
{
    lemma_ascii_count(text);
}

/// What the agent is asked: the prompt, the handoff so far, and the journal.
pub open spec fn composed(prompt: Seq<char>, prior: Option<Seq<char>>, window: Seq<char>) -> Seq<
    char,
> {
    prompt + "\n\n## Prior handoff\n\n"@ + (match prior {
        Some(prior) if !is_blank(prior) => prior,
        _ => "(none - this is the first compaction of this session)"@,
    }) + "\n\n## Session journal since the previous compaction\n\n"@ + (if is_blank(window) {
        "(empty)"@
    } else {
        window
    }) + "\n"@
}

/// Writes what the agent is asked.
pub fn compose(prompt: &str, prior: Option<&str>, window: &str) -> (input: String)
    ensures
        input@ == composed(
            prompt@,
            match prior {
                Some(prior) => Some(prior@),
                None => None,
            },
            window@,
        ),
{
    let mut input = copied(prompt);
    input.append("\n\n## Prior handoff\n\n");
    match prior {
        Some(prior) if !blank(prior) => input.append(prior),
        _ => input.append("(none - this is the first compaction of this session)"),
    }
    input.append("\n\n## Session journal since the previous compaction\n\n");
    if blank(window) {
        input.append("(empty)");
    } else {
        input.append(window);
    }
    input.append("\n");
    input
}

/// `raw` from its first section on. Text without sections stays as it is.
pub open spec fn from_first_section(raw: Seq<char>) -> Seq<char> {
    let text = trim_start(raw);
    if begins_with(text, "## "@) {
        text
    } else {
        match position(text, "\n## "@) {
            Some(at) => text.skip(at + 1),
            None => raw,
        }
    }
}

/// Drops what stands before the first `## ` heading. Asked for the handoff
/// alone, the agent still narrates its way into it, and in a session's memory
/// such reasoning cannot be told from the task.
pub fn strip_preamble(raw: &str) -> (out: String)
    ensures
        out@ == from_first_section(raw@),
{
    let chars = trim_start_chars(raw);
    let text = text_of(chars.as_slice());
    // Text that is at its first section already has nothing to drop; a search
    // would find the second section and cut the first away.
    if has_prefix(text.as_str(), "## ") {
        return text;
    }
    let heading = chars_of("\n## ");
    proof {
        reveal_strlit("\n## ");
    }
    match find(&chars, &heading) {
        Some(at) => {
            assert(at + heading.len() <= chars.len());
            let rest = copy_range(&chars, at + 1, chars.len());
            assert(rest@ =~= chars@.skip(at + 1));
            text_of(rest.as_slice())
        },
        None => copied(raw),
    }
}

/// Only what stands before the first section is ever dropped: what is kept is
/// the end of the text, and where there is a section, it begins with the first.
pub proof fn only_the_lead_is_dropped(raw: Seq<char>)
    ensures
        ({
            let kept = from_first_section(raw);
            &&& kept.len() <= raw.len()
            &&& kept == raw.skip(raw.len() - kept.len())
            &&& begins_with(trim_start(raw), "## "@) ==> kept == trim_start(raw)
            &&& contains(trim_start(raw), "\n## "@) ==> begins_with(kept, "## "@)
            &&& !begins_with(trim_start(raw), "## "@) && !contains(trim_start(raw), "\n## "@)
                ==> kept == raw
        }),
{
    trim_start_is_a_suffix(raw);
    let text = trim_start(raw);
    reveal_strlit("\n## ");
    reveal_strlit("## ");
    if begins_with(text, "## "@) {
    } else if contains(text, "\n## "@) {
        position_is_first(text, "\n## "@);
        let at = position(text, "\n## "@)->0;
        let kept = text.skip(at + 1);
        assert(raw.skip(raw.len() - text.len()).skip(at + 1) =~= raw.skip(
            raw.len() - kept.len(),
        ));
        assert(text.subrange(at, at + 4) =~= "\n## "@);
        assert(kept.subrange(0, 3) =~= "\n## "@.subrange(1, 4));
        assert("\n## "@.subrange(1, 4) =~= "## "@);
    } else {
        assert(raw.skip(0) =~= raw);
    }
}

/// The handoff begins at the first line that begins with the mark of a section.
/// `from` is where the text begins behind the white space at its start. A text
/// that begins with the mark is kept from there; else what is kept begins right
/// behind the least `at` at which a line with the mark begins; and a text without
/// such a line is kept whole.
pub proof fn what_is_kept_begins_at_the_first_section(raw: Seq<char>, from: int, at: int)
    requires
        0 <= from <= raw.len(),
        forall|i: int| 0 <= i < from ==> is_space(#[trigger] raw[i]),
        from < raw.len() ==> !is_space(raw[from]),
    ensures
        occurs_at(raw, "## "@, from) ==> from_first_section(raw) == raw.skip(from),
        !occurs_at(raw, "## "@, from) && from <= at && occurs_at(raw, "\n## "@, at) && (forall|
            before: int,
        |
            from <= before < at ==> !#[trigger] occurs_at(raw, "\n## "@, before))
            ==> from_first_section(raw) == raw.skip(at + 1),
        !occurs_at(raw, "## "@, from) && (forall|before: int|
            from <= before ==> !#[trigger] occurs_at(raw, "\n## "@, before)) ==> from_first_section(
            raw,
        ) == raw,
{
    trimming_the_start_stops_at_the_first_character(raw, from);
    reveal_strlit("\n## ");
    reveal_strlit("## ");
    let text = raw.skip(from);
    let mark = "## "@;
    let line = "\n## "@;
    assert(occurs_at(raw, mark, from) == occurs_at(text, mark, 0)) by {
        if from + mark.len() <= raw.len() {
            assert(raw.subrange(from, from + mark.len()) =~= text.subrange(0, mark.len() as int));
        }
    }
    assert forall|k: int| 0 <= k implies #[trigger] occurs_at(text, line, k) == occurs_at(
        raw,
        line,
        from + k,
    ) by {
        if from + k + line.len() <= raw.len() {
            assert(raw.subrange(from + k, from + k + line.len()) =~= text.subrange(
                k,
                k + line.len(),
            ));
        }
    }
    if !occurs_at(raw, mark, from) {
        if from <= at && occurs_at(raw, line, at) && (forall|before: int|
            from <= before < at ==> !#[trigger] occurs_at(raw, line, before)) {
            assert forall|k: int| k < at - from implies !#[trigger] occurs_at(text, line, k) by {
                if 0 <= k {
                    assert(!occurs_at(raw, line, from + k));
                }
            }
            assert(occurs_at(text, line, at - from));
            first_position(text, line, at - from);
            assert(text.skip(at - from + 1) =~= raw.skip(at + 1));
        }
        if forall|before: int| from <= before ==> !#[trigger] occurs_at(raw, line, before) {
            if contains(text, line) {
                let k = choose|k: int| #[trigger] occurs_at(text, line, k);
                assert(occurs_at(raw, line, from + k));
            }
        }
    }
}

/// What is dropped holds no section: the dropped lead, even with a mark behind
/// it, has no line before its last that begins with one.
pub proof fn what_is_dropped_holds_no_section(raw: Seq<char>, at: int)
    requires
        ({
            let dropped = raw.take(raw.len() - from_first_section(raw).len());
            &&& occurs_at(dropped + "## "@, "\n## "@, at)
        }),
        !is_space(raw[0]),
    ensures
        at == raw.len() - from_first_section(raw).len() - 1,
        begins_with(from_first_section(raw), "## "@),
{
    reveal_strlit("\n## ");
    reveal_strlit("## ");
    only_the_lead_is_dropped(raw);
    let line = "\n## "@;
    let mark = "## "@;
    let kept = from_first_section(raw);
    let dropped = raw.take(raw.len() - kept.len());
    let shown = dropped + mark;
    assert(shown.subrange(at, at + 4) =~= line);
    assert(trim_start(raw) == raw.skip(0)) by {
        trimming_the_start_stops_at_the_first_character(raw, 0);
    }
    assert(raw.skip(0) =~= raw);
    assert(shown.subrange(at, at + 4)[0] == '\n');
    assert(at < dropped.len());
    if begins_with(raw, mark) {
        assert(dropped.len() == 0);
    } else {
        position_is_first(raw, line);
        assert(contains(raw, line)) by {
            if !contains(raw, line) {
                assert(dropped.len() == 0);
            }
        }
        let first = position(raw, line)->0;
        assert(dropped.len() == first + 1);
        if at < first {
            if at + 4 <= first + 1 {
                assert(raw.subrange(at, at + 4) =~= line);
                assert(occurs_at(raw, line, at));
            } else {
                // The newline that ends what is dropped would have to be a
                // character of the mark.
                assert(raw.subrange(first, first + 4)[0] == line[0]);
                assert(raw[first] == '\n');
                assert(shown[first] == '\n');
                assert(shown.subrange(at, at + 4)[first - at] == line[first - at]);
            }
        }
    }
}

/// A program to start, with its arguments.
pub struct AgentCommand {
    /// The host's own program: that is the one known to be installed and signed
    /// in.
    pub program: String,
    pub args: Vec<String>,
    /// The directory that it runs in.
    pub directory: String,
    /// All that it is given to read.
    pub stdin: String,
}

/// The arguments of the agent. Summing up needs no tools, and the journal is
/// full of text from elsewhere, so the agent gets as few as its host allows.
pub open spec fn agent_args(host: Host, workdir: Seq<char>) -> Seq<Seq<char>> {
    match host {
        Host::Claude => seq![
            "-p"@,
            "--output-format"@,
            "text"@,
            "--tools"@,
            ""@,
            "--strict-mcp-config"@,
        ],
        Host::Codex => seq![
            "exec"@,
            "--skip-git-repo-check"@,
            "--sandbox"@,
            "read-only"@,
            "-c"@,
            "features.shell_tool=false"@,
            "-c"@,
            "mcp_servers={}"@,
            "-C"@,
            workdir,
            "-"@,
        ],
    }
}

/// The command that starts the agent in `workdir` on `input`.
pub fn agent(host: Host, input: String, workdir: &str) -> (command: AgentCommand)
    ensures
        command.program@ == program_of(host),
        views(command.args@) == agent_args(host, workdir@),
        command.directory@ == workdir@,
        command.stdin@ == input@,
{
    let mut args: Vec<String> = Vec::new();
    match host {
        Host::Claude => {
            args.push(copied("-p"));
            args.push(copied("--output-format"));
            args.push(copied("text"));
            args.push(copied("--tools"));
            args.push(copied(""));
            args.push(copied("--strict-mcp-config"));
            assert(views(args@) =~= agent_args(host, workdir@));
            AgentCommand {
                program: program_name(host),
                args,
                directory: copied(workdir),
                stdin: input,
            }
        },
        Host::Codex => {
            args.push(copied("exec"));
            args.push(copied("--skip-git-repo-check"));
            args.push(copied("--sandbox"));
            args.push(copied("read-only"));
            args.push(copied("-c"));
            args.push(copied("features.shell_tool=false"));
            args.push(copied("-c"));
            args.push(copied("mcp_servers={}"));
            args.push(copied("-C"));
            args.push(copied(workdir));
            args.push(copied("-"));
            assert(views(args@) =~= agent_args(host, workdir@));
            AgentCommand {
                program: program_name(host),
                args,
                directory: copied(workdir),
                stdin: input,
            }
        },
    }
}

/// How long an extraction may take, in milliseconds. One that is not done by
/// then is stuck, and a marker must not stay `ongoing` for ever.
pub const EXTRACTION_TIMEOUT: u64 = 600_000;

/// How often the agent is looked at, in milliseconds.
pub const AGENT_POLL: u64 = 200;

/// What to do about the agent.
#[derive(Clone, Copy, Debug, PartialEq, Eq, Structural)]
pub enum Watch {
    /// It has ended: collect what it wrote.
    Collect,
    /// It has had its time: kill it.
    Kill,
    /// Look again after so many milliseconds.
    Sleep(u64),
}

/// Decides what to do about an agent that has run for `elapsed` milliseconds.
pub fn watch(exited: bool, elapsed: u64) -> (next: Watch)
    ensures
        next == (if exited {
            Watch::Collect
        } else if elapsed >= EXTRACTION_TIMEOUT {
            Watch::Kill
        } else {
            Watch::Sleep(AGENT_POLL)
        }),
        next is Kill <==> !exited && elapsed >= 600_000,
        next matches Watch::Sleep(millis) ==> millis == 200,
{
    if exited {
        Watch::Collect
    } else if elapsed >= EXTRACTION_TIMEOUT {
        Watch::Kill
    } else {
        Watch::Sleep(AGENT_POLL)
    }
}

/// What came of running the agent.
pub enum AgentRun {
    /// It could not be started.
    NotStarted(Fault),
    /// It could not be spoken to.
    Broken(Fault),
    /// It was killed for taking too long.
    TimedOut,
    /// What it wrote got lost.
    Lost,
    /// What it wrote could not be read.
    Unreadable(Fault),
    /// It ended. `status` is for people.
    Exited { success: bool, status: String, stdout: Vec<u8> },
}

/// What `String::from_utf8_lossy` of std makes of some bytes.
pub uninterp spec fn lossy_text(bytes: Seq<u8>) -> Seq<char>;

/// Calls `String::from_utf8_lossy` of std. Valid UTF-8 comes out as the text
/// that it encodes; what becomes of other bytes is named, not described.
#[verifier::external_body]
fn decode_lossy(bytes: &[u8]) -> (text: String)
    ensures
        text@ == lossy_text(bytes@),
        vstd::utf8::valid_utf8(bytes@) ==> text@ == vstd::utf8::decode_utf8(bytes@),
{
    String::from_utf8_lossy(bytes).into_owned()
}

/// What an answer of the agent is worth.
pub open spec fn answer(output: Seq<char>) -> Result<Seq<char>, FailedView> {
    let text = trimmed(from_first_section(output));
    if text.len() < MIN_HANDOFF_CHARS {
        Err(FailedView::Failed("produced no usable handoff"@))
    } else if is_over_budget(text) {
        Err(FailedView::Failed("exceeds the handoff budget"@))
    } else {
        Ok(text)
    }
}

/// What came of running the agent, as contracts speak of it.
pub open spec fn run_result(run: AgentRun) -> Result<Seq<char>, FailedView> {
    match run {
        AgentRun::NotStarted(fault) => Err(
            FailedView::Failed("could not start the extraction agent: "@ + message_of(fault@)),
        ),
        AgentRun::Broken(fault) => Err(FailedView::Failed(message_of(fault@))),
        AgentRun::TimedOut => Err(FailedView::Failed("extraction agent timed out"@)),
        AgentRun::Lost => Err(FailedView::Failed("output reader panicked"@)),
        AgentRun::Unreadable(fault) => Err(
            FailedView::Failed("could not read the agent's output: "@ + message_of(fault@)),
        ),
        AgentRun::Exited { success, status, stdout } => if success {
            answer(lossy_text(stdout@))
        } else {
            Err(FailedView::Failed("extraction agent exited with "@ + status@))
        },
    }
}

/// A result, as contracts speak of it.
pub open spec fn handoff_view(handoff: Result<String, Failed>) -> Result<Seq<char>, FailedView> {
    match handoff {
        Ok(text) => Ok(text@),
        Err(failed) => Err(failed@),
    }
}

/// Decides what an answer of the agent is worth.
pub fn judge(output: &str) -> (handoff: Result<String, Failed>)
    ensures
        handoff_view(handoff) == answer(output@),
{
    match validate(strip_preamble(output).as_str()) {
        Ok(text) => Ok(text),
        Err(why) => Err(Failed::Failed(why)),
    }
}

/// Decides what came of running the agent.
pub fn run(came: AgentRun) -> (handoff: Result<String, Failed>)
    ensures
        handoff_view(handoff) == run_result(came),
{
    match came {
        AgentRun::NotStarted(fault) => Err(
            failed_with("could not start the extraction agent: ", &fault),
        ),
        AgentRun::Broken(fault) => Err(Failed::Failed(fault.message())),
        AgentRun::TimedOut => Err(Failed::Failed(copied("extraction agent timed out"))),
        AgentRun::Lost => Err(Failed::Failed(copied("output reader panicked"))),
        AgentRun::Unreadable(fault) => Err(
            failed_with("could not read the agent's output: ", &fault),
        ),
        AgentRun::Exited { success, status, stdout } => if success {
            judge(decode_lossy(stdout.as_slice()).as_str())
        } else {
            let mut message = copied("extraction agent exited with ");
            message.append(status.as_str());
            Err(Failed::Failed(message))
        },
    }
}

} // verus!
