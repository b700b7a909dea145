//! What the agent is asked and what its answer is worth, said of the texts
//! themselves.

use vstd::prelude::*;

use crate::extract::{
    AgentRun, FailedView, agent_args, answer, ascii_count, composed, from_first_section,
    is_handoff, is_over_budget, lossy_text, run_result, token_estimate,
};
use crate::fault::message_of;
use crate::journal::Host;
use crate::text::{
    ends_with, is_blank, is_space, occurs_at, solid_text_is_trimmed, trimming_is_stable,
};
use crate::text_laws::{is_solid_part, trimming_leaves_the_solid_part};

verus! {

/// How many characters of `text` are ASCII, counted.
pub open spec fn plain_count(text: Seq<char>) -> nat {
    text.filter(|c: char| (c as u32) < 0x80).len()
}

proof fn lemma_counts_agree(text: Seq<char>)
    ensures
        ascii_count(text) == plain_count(text),
        ascii_count(text) <= text.len(),
    decreases text.len(),
{
    reveal(Seq::filter);
    if text.len() > 0 {
        lemma_counts_agree(text.drop_last());
    }
}

/// A text is taken for a token for every four characters of ASCII in it, or part
/// of that, and for a token for every other character; two texts together take at
/// most as many tokens as both of them, and at least as many as each.
pub proof fn tokens_are_counted_by_the_character(a: Seq<char>, b: Seq<char>)
    ensures
        4 * token_estimate(a) >= plain_count(a) + 4 * (a.len() - plain_count(a)),
        4 * token_estimate(a) < plain_count(a) + 4 + 4 * (a.len() - plain_count(a)),
        plain_count(a + b) == plain_count(a) + plain_count(b),
        token_estimate(a + b) <= token_estimate(a) + token_estimate(b),
        token_estimate(a) <= token_estimate(a + b),
{
    lemma_counts_agree(a);
    lemma_counts_agree(b);
    lemma_counts_agree(a + b);
    lemma_counts_add_up(a, b);
}

proof fn lemma_counts_add_up(a: Seq<char>, b: Seq<char>)
    ensures
        ascii_count(a + b) == ascii_count(a) + ascii_count(b),
    decreases b.len(),
{
    if b.len() == 0 {
        assert(a + b =~= a);
    } else {
        lemma_counts_add_up(a, b.drop_last());
        assert((a + b).drop_last() =~= a + b.drop_last());
    }
}

/// Whether a text fits the budget of a handoff: two thousand tokens, and sixty-four
/// kibibytes.
pub open spec fn fits_the_budget(text: Seq<char>) -> bool {
    &&& vstd::utf8::encode_utf8(text).len() <= 65_536
    &&& (plain_count(text) + 3) / 4 + (text.len() - plain_count(text)) <= 2_000
}

/// An answer is taken from its first section on, without the white space around
/// it, if that has at least twenty characters and fits the budget. It is refused
/// as unusable if it is shorter, and as too large if it does not fit.
pub proof fn answers_are_accepted_by_their_size(output: Seq<char>, from: int, to: int)
    requires
        is_solid_part(from_first_section(output), from, to),
    ensures
        ({
            let text = from_first_section(output).subrange(from, to);
            &&& answer(output) is Ok <==> text.len() >= 20 && fits_the_budget(text)
            &&& answer(output) matches Ok(handoff) ==> handoff == text && is_handoff(handoff)
            &&& text.len() < 20 ==> answer(output) == Err::<Seq<char>, FailedView>(
                FailedView::Failed("produced no usable handoff"@),
            )
            &&& text.len() >= 20 && !fits_the_budget(text) ==> answer(output) == Err::<
                Seq<char>,
                FailedView,
            >(FailedView::Failed("exceeds the handoff budget"@))
        }),
{
    let kept = from_first_section(output);
    trimming_leaves_the_solid_part(kept, from, to);
    trimming_is_stable(kept);
    lemma_counts_agree(kept.subrange(from, to));
}

/// A handoff as it stands has no white space around it, at least twenty
/// characters, and fits the budget.
pub proof fn handoffs_have_their_size(text: Seq<char>)
    ensures
        is_handoff(text) ==> text.len() >= 20 && fits_the_budget(text) && !is_space(text[0])
            && !is_space(text[text.len() - 1]),
        is_over_budget(text) <==> !fits_the_budget(text),
        text.len() >= 20 && fits_the_budget(text) && !is_space(text[0]) && !is_space(
            text[text.len() - 1],
        ) ==> is_handoff(text),
{
    lemma_counts_agree(text);
    trimming_is_stable(text);
    if text.len() >= 20 && !is_space(text[0]) && !is_space(text[text.len() - 1]) {
        solid_text_is_trimmed(text);
    }
}

/// The agent is asked with the whole prompt first, then with the whole handoff so
/// far, and last with the whole journal. Where there is no handoff, or nothing in
/// the journal, it is told so.
pub proof fn the_agent_is_told_everything(
    prompt: Seq<char>,
    prior: Option<Seq<char>>,
    window: Seq<char>,
)
    ensures
        ({
            let input = composed(prompt, prior, window);
            let first = "\n\n## Prior handoff\n\n"@;
            let second = "\n\n## Session journal since the previous compaction\n\n"@;
            &&& occurs_at(input, prompt + first, 0)
            &&& (prior matches Some(handoff) && (exists|i: int|
                0 <= i < handoff.len() && !is_space(#[trigger] handoff[i]))) ==> occurs_at(
                input,
                prior->0 + second,
                (prompt + first).len() as int,
            )
            &&& !(prior matches Some(handoff) && (exists|i: int|
                0 <= i < handoff.len() && !is_space(#[trigger] handoff[i]))) ==> occurs_at(
                input,
                "(none - this is the first compaction of this session)"@ + second,
                (prompt + first).len() as int,
            )
            &&& (exists|i: int| 0 <= i < window.len() && !is_space(#[trigger] window[i]))
                ==> ends_with(input, second + window + "\n"@)
            &&& (forall|i: int| 0 <= i < window.len() ==> is_space(#[trigger] window[i]))
                ==> ends_with(input, second + "(empty)"@ + "\n"@)
        }),
{
    let input = composed(prompt, prior, window);
    let first = "\n\n## Prior handoff\n\n"@;
    let second = "\n\n## Session journal since the previous compaction\n\n"@;
    let carried = match prior {
        Some(prior) if !is_blank(prior) => prior,
        _ => "(none - this is the first compaction of this session)"@,
    };
    let told = if is_blank(window) {
        "(empty)"@
    } else {
        window
    };
    assert(input == prompt + first + carried + second + told + "\n"@);
    lemma_parts_in_place(prompt + first, carried, second, told, "\n"@);
}

proof fn lemma_parts_in_place(
    a: Seq<char>,
    b: Seq<char>,
    c: Seq<char>,
    d: Seq<char>,
    e: Seq<char>,
)
    ensures
        occurs_at(a + b + c + d + e, a, 0),
        occurs_at(a + b + c + d + e, b + c, a.len() as int),
        ends_with(a + b + c + d + e, c + d + e),
{
    let all = a + b + c + d + e;
    let n = a.len() as int;
    assert(all.subrange(0, n) =~= a);
    assert(all.subrange(n, n + (b + c).len()) =~= b + c);
    let end = c + d + e;
    assert(all.subrange(all.len() - end.len(), all.len() as int) =~= end);
}

/// A handoff comes of a run of the agent only if the agent ended well, and is
/// then what its answer is worth. Every other run fails, and says why as far as
/// it can be told.
pub proof fn only_a_clean_run_gives_a_handoff(run: AgentRun)
    ensures
        run_result(run) is Ok ==> (run matches AgentRun::Exited { success, status, stdout }
            && success),
        run matches AgentRun::Exited { success: true, status, stdout } ==> run_result(run) == answer(
            lossy_text(stdout@),
        ),
        run matches AgentRun::Exited { success: false, status, stdout } ==> (run_result(
            run,
        ) matches Err(FailedView::Failed(why)) && ends_with(why, status@)),
        run matches AgentRun::NotStarted(fault) ==> (run_result(run) matches Err(
            FailedView::Failed(why),
        ) && ends_with(why, message_of(fault@))),
        run matches AgentRun::Broken(fault) ==> (run_result(run) matches Err(
            FailedView::Failed(why),
        ) && ends_with(why, message_of(fault@))),
        run matches AgentRun::Unreadable(fault) ==> (run_result(run) matches Err(
            FailedView::Failed(why),
        ) && ends_with(why, message_of(fault@))),
{
    match run {
        AgentRun::NotStarted(fault) => {
            lemma_ends("could not start the extraction agent: "@, message_of(fault@));
        },
        AgentRun::Broken(fault) => {
            lemma_ends(Seq::empty(), message_of(fault@));
            assert(Seq::empty() + message_of(fault@) =~= message_of(fault@));
        },
        AgentRun::Unreadable(fault) => {
            lemma_ends("could not read the agent's output: "@, message_of(fault@));
        },
        AgentRun::Exited { success, status, stdout } => {
            lemma_ends("extraction agent exited with "@, status@);
        },
        _ => {},
    }
}

proof fn lemma_ends(start: Seq<char>, end: Seq<char>)
    ensures
        ends_with(start + end, end),
{
    let all = start + end;
    assert(all.subrange(all.len() - end.len(), all.len() as int) =~= end);
}

/// Whichever host it is, the agent is given no tools: the one runs with an empty
/// list of tools and no servers but those it is told of, the other in a sandbox
/// that only reads, without a shell and without servers, in the directory that is
/// made for it.
pub proof fn the_agent_gets_no_tools(workdir: Seq<char>)
    ensures
        ({
            let args = agent_args(Host::Claude, workdir);
            &&& args.len() == 6
            &&& args[0] == "-p"@
            &&& args[1] == "--output-format"@ && args[2] == "text"@
            &&& args[3] == "--tools"@ && args[4].len() == 0
            &&& args[5] == "--strict-mcp-config"@
        }),
        ({
            let args = agent_args(Host::Codex, workdir);
            &&& args.len() == 11
            &&& args[0] == "exec"@ && args[1] == "--skip-git-repo-check"@
            &&& args[2] == "--sandbox"@ && args[3] == "read-only"@
            &&& args[4] == "-c"@ && args[5] == "features.shell_tool=false"@
            &&& args[6] == "-c"@ && args[7] == "mcp_servers={}"@
            &&& args[8] == "-C"@ && args[9] == workdir
            &&& args[10] == "-"@
        }),
{
    reveal_strlit("");
}

/// The words for each way in which a run of the agent can fail.
pub proof fn failed_runs_have_their_words(run: AgentRun)
    ensures
        run matches AgentRun::NotStarted(fault) ==> run_result(run) == Err::<Seq<char>, FailedView>(
            FailedView::Failed("could not start the extraction agent: "@ + message_of(fault@)),
        ),
        run matches AgentRun::Broken(fault) ==> run_result(run) == Err::<Seq<char>, FailedView>(
            FailedView::Failed(message_of(fault@)),
        ),
        run is TimedOut ==> run_result(run) == Err::<Seq<char>, FailedView>(
            FailedView::Failed("extraction agent timed out"@),
        ),
        run is Lost ==> run_result(run) == Err::<Seq<char>, FailedView>(
            FailedView::Failed("output reader panicked"@),
        ),
        run matches AgentRun::Unreadable(fault) ==> run_result(run) == Err::<Seq<char>, FailedView>(
            FailedView::Failed("could not read the agent's output: "@ + message_of(fault@)),
        ),
        run matches AgentRun::Exited { success: false, status, stdout } ==> run_result(run) == Err::<
            Seq<char>,
            FailedView,
        >(FailedView::Failed("extraction agent exited with "@ + status@)),
{
}

} // verus!
