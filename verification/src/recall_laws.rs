//! What a hook does with the time that it has and with the snapshot that it
//! finds, said of the clock and of the characters themselves.

use vstd::prelude::*;

use crate::fault::FaultView;
use crate::json::{Tree, json_text};
use crate::numeral::{decimal, parsed_u64};
use crate::recall::{
    Action, Event, MarkerView, OutcomeView, PhaseView, Policy, PublishedView, Recall, ReplyView,
    Slot, PREAMBLE, action_in, course, escaped, finished, hook_output, key_line, marker_in, next,
    production, rendered, session_in,
};
use crate::store::{RowView, ready_state};
use crate::text::{contains, occurs_at, trimmed};
use crate::text_laws::{is_solid_part, trimming_leaves_the_solid_part};

verus! {

/// A hook that opens the wait at `now` publishes `now` plus the budget, whenever
/// that is a number that can be written down, and else the largest that can.
pub proof fn an_opener_publishes_the_time_plus_the_budget(policy: Policy, now: u64)
    ensures
        next(policy, PhaseView::Opening, ReplyView::Seconds(now)) matches PhaseView::Creating {
            deadline,
        } && deadline == (if now + policy.budget <= u64::MAX {
            now + policy.budget
        } else {
            u64::MAX as int
        }),
        action_in(next(policy, PhaseView::Opening, ReplyView::Seconds(now))) matches Action::Create(
            written,
        ) && written == (if now + policy.budget <= u64::MAX {
            now + policy.budget
        } else {
            u64::MAX as int
        }),
{
}

/// A nap is as long as it can be: one interval, or up to the deadline where that
/// comes first.
pub proof fn a_nap_is_as_long_as_it_can_be(policy: Policy, deadline: u64, now: u64)
    requires
        now < deadline,
    ensures
        next(policy, PhaseView::Timing { deadline }, ReplyView::Seconds(now)) matches
            PhaseView::Napping { deadline: until, millis } && until == deadline && (if now * 1000
            + policy.poll <= deadline * 1000 {
            millis == policy.poll
        } else {
            now * 1000 + millis == deadline * 1000
        }) && action_in(PhaseView::Napping { deadline: until, millis }) == Action::Sleep(millis),
{
}

/// What a hook gets to see while nothing changes: the marker, the time, and the
/// end of its nap, once for each reading of the clock.
pub open spec fn rounds(text: Seq<char>, readings: Seq<u64>) -> Seq<ReplyView>
    decreases readings.len(),
{
    if readings.len() == 0 {
        Seq::empty()
    } else {
        rounds(text, readings.drop_last()) + seq![
            ReplyView::Text(text),
            ReplyView::Seconds(readings.last()),
            ReplyView::Done,
        ]
    }
}

proof fn lemma_course_goes_on(
    policy: Policy,
    phase: PhaseView,
    a: Seq<ReplyView>,
    b: Seq<ReplyView>,
)
    ensures
        course(policy, phase, a + b) == course(policy, course(policy, phase, a), b),
    decreases b.len(),
{
    if b.len() == 0 {
        assert(a + b =~= a);
    } else {
        lemma_course_goes_on(policy, phase, a, b.drop_last());
        assert((a + b).drop_last() =~= a + b.drop_last());
    }
}

proof fn lemma_course_of_three(
    policy: Policy,
    phase: PhaseView,
    a: ReplyView,
    b: ReplyView,
    c: ReplyView,
)
    ensures
        course(policy, phase, seq![a, b, c]) == next(
            policy,
            next(policy, next(policy, phase, a), b),
            c,
        ),
{
    let replies = seq![a, b, c];
    assert(replies.drop_last() =~= seq![a, b]);
    assert(seq![a, b].drop_last() =~= seq![a]);
    assert(seq![a].drop_last() =~= Seq::empty());
    assert(course(policy, phase, Seq::empty()) == phase);
    assert(course(policy, phase, seq![a]) == next(policy, phase, a));
    assert(course(policy, phase, seq![a, b]) == next(policy, next(policy, phase, a), b));
}

/// While the extraction is in flight and every reading of the clock lies before
/// the deadline, a hook does not give up: it goes on watching, with the deadline
/// that it had.
pub proof fn a_hook_watches_until_the_deadline(
    policy: Policy,
    deadline: u64,
    text: Seq<char>,
    readings: Seq<u64>,
)
    requires
        marker_in(text) == MarkerView::Ongoing,
        forall|i: int| 0 <= i < readings.len() ==> #[trigger] readings[i] < deadline,
    ensures
        course(policy, PhaseView::Watching { deadline }, rounds(text, readings))
            == (PhaseView::Watching { deadline }),
    decreases readings.len(),
{
    let start = PhaseView::Watching { deadline };
    if readings.len() > 0 {
        let front = readings.drop_last();
        assert forall|i: int| 0 <= i < front.len() implies #[trigger] front[i] < deadline by {
            assert(front[i] == readings[i]);
        }
        a_hook_watches_until_the_deadline(policy, deadline, text, front);
        let last = seq![
            ReplyView::Text(text),
            ReplyView::Seconds(readings.last()),
            ReplyView::Done,
        ];
        lemma_course_goes_on(policy, start, rounds(text, front), last);
        lemma_course_of_three(
            policy,
            start,
            ReplyView::Text(text),
            ReplyView::Seconds(readings.last()),
            ReplyView::Done,
        );
        assert(readings[readings.len() - 1] < deadline);
    }
}

/// A hook that opens the wait at `now` goes on waiting at every reading of the
/// clock below `now` plus the budget, for as long as the marker says that the
/// extraction is in flight.
pub proof fn an_opener_waits_out_the_budget(
    policy: Policy,
    now: u64,
    text: Seq<char>,
    readings: Seq<u64>,
)
    requires
        now + policy.budget <= u64::MAX,
        marker_in(text) == MarkerView::Ongoing,
        forall|i: int| 0 <= i < readings.len() ==> #[trigger] readings[i] < now + policy.budget,
    ensures
        course(
            policy,
            PhaseView::Observing,
            seq![
                ReplyView::Text(text),
                ReplyView::Seconds(now),
                ReplyView::Done,
                ReplyView::Done,
                ReplyView::Done,
            ] + rounds(text, readings),
        ) == (PhaseView::Watching { deadline: (now + policy.budget) as u64 }),
{
    let deadline = (now + policy.budget) as u64;
    let opening = seq![
        ReplyView::Text(text),
        ReplyView::Seconds(now),
        ReplyView::Done,
        ReplyView::Done,
        ReplyView::Done,
    ];
    let start = PhaseView::Observing;
    assert(opening.drop_last() =~= opening.take(4));
    assert(opening.take(4).drop_last() =~= seq![
        ReplyView::Text(text),
        ReplyView::Seconds(now),
        ReplyView::Done,
    ]);
    lemma_course_of_three(
        policy,
        start,
        ReplyView::Text(text),
        ReplyView::Seconds(now),
        ReplyView::Done,
    );
    assert(course(policy, start, opening.take(4).drop_last()) == (PhaseView::Linking { deadline }));
    assert(course(policy, start, opening.take(4)) == (PhaseView::Unlinking {
        deadline,
        published: PublishedView::Ours,
    }));
    assert(course(policy, start, opening) == (PhaseView::Watching { deadline }));
    lemma_course_goes_on(policy, start, opening, rounds(text, readings));
    a_hook_watches_until_the_deadline(policy, deadline, text, readings);
}

/// A snapshot that becomes ready while a hook waits for it is delivered by that
/// hook, whenever this happens before `now` plus the budget: each reading of the
/// clock up to there lies below it.
#[verifier::spinoff_prover]
#[verifier::rlimit(40)]
pub proof fn a_snapshot_that_is_ready_in_time_is_delivered(
    policy: Policy,
    now: u64,
    ongoing: Seq<char>,
    readings: Seq<u64>,
    ready: Seq<char>,
    key: Seq<char>,
    row: RowView,
    last: ReplyView,
)
    requires
        now + policy.budget <= u64::MAX,
        marker_in(ongoing) == MarkerView::Ongoing,
        forall|i: int| 0 <= i < readings.len() ==> #[trigger] readings[i] < now + policy.budget,
        marker_in(ready) == MarkerView::Ready(key),
        row.amtr_key == Some(key),
        last is Done || last is Missing,
    ensures
        course(
            policy,
            PhaseView::Observing,
            seq![
                ReplyView::Text(ongoing),
                ReplyView::Seconds(now),
                ReplyView::Done,
                ReplyView::Done,
                ReplyView::Done,
            ] + rounds(ongoing, readings) + seq![
                ReplyView::Text(ready),
                ReplyView::Text(ready),
                ReplyView::Done,
                ReplyView::Text(ready),
                ReplyView::Row(row),
                ReplyView::Done,
                last,
            ],
        ) == finished(OutcomeView::Deliver(hook_output(policy.event, row))),
{
    an_opener_waits_out_the_budget(policy, now, ongoing, readings);
    let waiting = seq![
        ReplyView::Text(ongoing),
        ReplyView::Seconds(now),
        ReplyView::Done,
        ReplyView::Done,
        ReplyView::Done,
    ] + rounds(ongoing, readings);
    let first = seq![ReplyView::Text(ready), ReplyView::Text(ready), ReplyView::Done];
    let second = seq![ReplyView::Text(ready), ReplyView::Row(row), ReplyView::Done];
    let third = seq![last];
    let ending = seq![
        ReplyView::Text(ready),
        ReplyView::Text(ready),
        ReplyView::Done,
        ReplyView::Text(ready),
        ReplyView::Row(row),
        ReplyView::Done,
        last,
    ];
    assert(ending =~= first + second + third);
    let from = course(policy, PhaseView::Observing, waiting);
    lemma_course_goes_on(policy, PhaseView::Observing, waiting, ending);
    lemma_course_goes_on(policy, from, first + second, third);
    lemma_course_goes_on(policy, from, first, second);
    lemma_course_of_three(
        policy,
        from,
        ReplyView::Text(ready),
        ReplyView::Text(ready),
        ReplyView::Done,
    );
    let checking = PhaseView::Checking { expected: key };
    assert(course(policy, from, first) == checking);
    let state = trimmed(ready);
    assert(state =~= ready_state(key)) by {
        assert(state.subrange(0, "ready:"@.len() as int) =~= state.take("ready:"@.len() as int));
    }
    lemma_course_of_three(
        policy,
        checking,
        ReplyView::Text(ready),
        ReplyView::Row(row),
        ReplyView::Done,
    );
    let clearing = PhaseView::Clearing { output: hook_output(policy.event, row) };
    assert(course(policy, checking, second) == clearing);
    assert(third.drop_last() =~= Seq::empty());
    assert(course(policy, clearing, Seq::empty()) == clearing);
}

/// White space around what a marker says does not count: the word for an
/// extraction in flight is read as that, and a name behind the word for a
/// snapshot that is ready is read as that name.
pub proof fn markers_are_read_for_what_they_say(text: Seq<char>, from: int, to: int, key: Seq<char>)
    requires
        is_solid_part(text, from, to),
    ensures
        text.subrange(from, to) == "ongoing"@ ==> marker_in(text) == MarkerView::Ongoing,
        text.subrange(from, to) == "ready:"@ + key && key.len() > 0 ==> marker_in(text)
            == MarkerView::Ready(key),
        marker_in(text) == MarkerView::Ongoing ==> text.subrange(from, to) == "ongoing"@,
        marker_in(text) == MarkerView::Ready(key) ==> text.subrange(from, to) == "ready:"@ + key
            && key.len() > 0,
        !(marker_in(text) is Missing),
{
    trimming_leaves_the_solid_part(text, from, to);
    reveal_strlit("ongoing");
    reveal_strlit("ready:");
    let state = text.subrange(from, to);
    let word = "ready:"@;
    if state == word + key && key.len() > 0 {
        assert(state.subrange(0, word.len() as int) =~= word);
        assert(state.skip(word.len() as int) =~= key);
        assert(state[0] == 'r');
        assert("ongoing"@[0] == 'o');
    }
    if marker_in(text) == MarkerView::Ready(key) {
        assert(state =~= state.subrange(0, word.len() as int) + state.skip(word.len() as int));
    }
}

/// What a character is written as inside the frame.
pub open spec fn written(c: char) -> Seq<char> {
    if c == '<' {
        seq!['&', 'l', 't', ';']
    } else {
        seq![c]
    }
}

/// A text is escaped character by character: all but the opening angle brackets
/// stand for themselves, and nothing is added or left out.
pub proof fn escaping_goes_character_by_character(a: Seq<char>, b: Seq<char>, c: char)
    ensures
        escaped(a + b) == escaped(a) + escaped(b),
        escaped(seq![c]) == written(c),
        escaped(Seq::empty()) == Seq::<char>::empty(),
    decreases b.len(),
{
    reveal_strlit("&lt;");
    assert(seq![c].drop_last() =~= Seq::empty());
    assert(escaped(Seq::empty()) =~= Seq::empty());
    assert(escaped(seq![c]) =~= written(c));
    if b.len() == 0 {
        assert(a + b =~= a);
        assert(escaped(a) + escaped(b) =~= escaped(a));
    } else {
        escaping_goes_character_by_character(a, b.drop_last(), c);
        assert((a + b).drop_last() =~= a + b.drop_last());
        assert(escaped(a + b) =~= escaped(a) + escaped(b));
    }
}

/// `text` with every character written as it is inside the frame.
pub open spec fn all_written(text: Seq<char>) -> Seq<char> {
    text.map_values(|c: char| written(c)).flatten()
}

proof fn lemma_escaped_is_all_written(text: Seq<char>)
    ensures
        escaped(text) == all_written(text),
    decreases text.len(),
{
    let parts = text.map_values(|c: char| written(c));
    if text.len() == 0 {
        assert(parts.flatten() =~= Seq::empty());
    } else {
        let rest = text.drop_first();
        lemma_escaped_is_all_written(rest);
        escaping_goes_character_by_character(seq![text.first()], rest, text.first());
        assert(seq![text.first()] + rest =~= text);
        assert(parts.drop_first() =~= rest.map_values(|c: char| written(c)));
    }
}

proof fn lemma_plain_text_is_not_changed(text: Seq<char>)
    requires
        forall|i: int| 0 <= i < text.len() ==> #[trigger] text[i] != '<',
    ensures
        escaped(text) == text,
    decreases text.len(),
{
    if text.len() > 0 {
        let front = text.drop_last();
        assert forall|i: int| 0 <= i < front.len() implies #[trigger] front[i] != '<' by {
            assert(front[i] == text[i]);
        }
        lemma_plain_text_is_not_changed(front);
        assert(text[text.len() - 1] != '<');
        assert(front.push(text.last()) =~= text);
    } else {
        assert(escaped(text) =~= text);
    }
}

/// The session reads the whole handoff, from its first character that is no
/// white space to its last, and around it the time of the snapshot, the preamble
/// and the frame. Only opening angle brackets are written otherwise.
#[verifier::spinoff_prover]
#[verifier::rlimit(40)]
pub proof fn the_session_reads_the_whole_handoff(row: RowView, from: int, to: int)
    requires
        is_solid_part(row.handoff, from, to),
    ensures
        rendered(row) == "Amnestic Trace: working memory restored — snapshot taken "@
            + row.compacted_at + ".\n"@ + "<amtr-handoff>\n"@ + PREAMBLE@ + "\n\n"@ + all_written(
            row.handoff.subrange(from, to),
        ) + "\n</amtr-handoff>\n"@,
        (forall|i: int| from <= i < to ==> #[trigger] row.handoff[i] != '<') ==> contains(
            rendered(row),
            row.handoff.subrange(from, to),
        ),
{
    trimming_leaves_the_solid_part(row.handoff, from, to);
    let whole = row.handoff.subrange(from, to);
    lemma_escaped_is_all_written(whole);
    let top = "Amnestic Trace: working memory restored — snapshot taken "@ + row.compacted_at
        + ".\n"@ + "<amtr-handoff>\n"@ + PREAMBLE@ + "\n\n"@;
    let close = "\n</amtr-handoff>\n"@;
    assert(rendered(row) =~= top + escaped(whole) + close);
    if forall|i: int| from <= i < to ==> #[trigger] row.handoff[i] != '<' {
        assert forall|i: int| 0 <= i < whole.len() implies #[trigger] whole[i] != '<' by {
            assert(row.handoff[from + i] != '<');
        }
        lemma_plain_text_is_not_changed(whole);
        let at = top.len() as int;
        assert(rendered(row).subrange(at, at + whole.len()) =~= whole);
        assert(occurs_at(rendered(row), whole, at));
    }
}

/// Different handoffs are read differently: from what the session reads, the
/// handoff without the white space around it can be told, as long as none of
/// them holds an opening angle bracket.
pub proof fn different_handoffs_read_differently(
    a: RowView,
    b: RowView,
    a_from: int,
    a_to: int,
    b_from: int,
    b_to: int,
)
    requires
        is_solid_part(a.handoff, a_from, a_to),
        is_solid_part(b.handoff, b_from, b_to),
        forall|i: int| a_from <= i < a_to ==> #[trigger] a.handoff[i] != '<',
        forall|i: int| b_from <= i < b_to ==> #[trigger] b.handoff[i] != '<',
        a.compacted_at == b.compacted_at,
        rendered(a) == rendered(b),
    ensures
        a.handoff.subrange(a_from, a_to) == b.handoff.subrange(b_from, b_to),
{
    let x = a.handoff.subrange(a_from, a_to);
    let y = b.handoff.subrange(b_from, b_to);
    trimming_leaves_the_solid_part(a.handoff, a_from, a_to);
    trimming_leaves_the_solid_part(b.handoff, b_from, b_to);
    assert forall|i: int| 0 <= i < x.len() implies #[trigger] x[i] != '<' by {
        assert(a.handoff[a_from + i] != '<');
    }
    assert forall|i: int| 0 <= i < y.len() implies #[trigger] y[i] != '<' by {
        assert(b.handoff[b_from + i] != '<');
    }
    lemma_plain_text_is_not_changed(x);
    lemma_plain_text_is_not_changed(y);
    let top = "Amnestic Trace: working memory restored — snapshot taken "@ + a.compacted_at
        + ".\n"@ + "<amtr-handoff>\n"@ + PREAMBLE@ + "\n\n"@;
    let close = "\n</amtr-handoff>\n"@;
    assert(rendered(a) =~= top + x + close);
    assert(rendered(b) =~= top + y + close);
    let n = top.len() as int;
    assert(rendered(a).subrange(n, n + x.len()) =~= x);
    assert(rendered(b).subrange(n, n + y.len()) =~= y);
}

/// Hooks wait twenty-five seconds for a debt and look at the marker every second,
/// whatever the event.
pub proof fn hooks_wait_for_twenty_five_seconds(event: Event)
    ensures
        production(event).event == event,
        production(event).budget == 25,
        production(event).poll == 1000,
{
}

/// Where nothing is owed a hook ends at once with nothing; where a snapshot is
/// ready it goes on to claim that one; where an extraction is in flight it opens
/// the wait; and a marker that makes no sense, or that cannot be read, is given
/// up.
pub proof fn a_hook_goes_by_the_marker(policy: Policy, text: Seq<char>, key: Seq<char>, fault: FaultView)
    ensures
        next(policy, PhaseView::Observing, ReplyView::Missing) == finished(OutcomeView::Nothing),
        marker_in(text) == MarkerView::Ready(key) ==> next(
            policy,
            PhaseView::Observing,
            ReplyView::Text(text),
        ) == (PhaseView::Claiming { expected: key }),
        marker_in(text) == MarkerView::Ongoing ==> next(
            policy,
            PhaseView::Observing,
            ReplyView::Text(text),
        ) == PhaseView::Opening,
        marker_in(text) == MarkerView::Malformed ==> next(
            policy,
            PhaseView::Observing,
            ReplyView::Text(text),
        ) == PhaseView::Folding,
        next(policy, PhaseView::Observing, ReplyView::Failed(fault)) == PhaseView::Folding,
{
}

/// A hook that comes too late for a marker that it wanted ends with nothing: to
/// lose the race is no error.
pub proof fn to_lose_the_race_is_no_error(policy: Policy, expected: Seq<char>)
    ensures
        next(policy, PhaseView::Claiming { expected }, ReplyView::Missing) == finished(
            OutcomeView::Nothing,
        ),
        next(policy, PhaseView::Folding, ReplyView::Missing) == finished(OutcomeView::Nothing),
{
}

/// A snapshot is delivered only if the claimed marker still names it and the row
/// is the one of that name. In every other case the marker is put back, and
/// nothing is delivered.
pub proof fn what_was_not_owed_is_put_back(
    policy: Policy,
    expected: Seq<char>,
    text: Seq<char>,
    from: int,
    to: int,
    row: RowView,
    fault: FaultView,
)
    requires
        is_solid_part(text, from, to),
    ensures
        ({
            let back = PhaseView::Restoring { outcome: OutcomeView::Nothing };
            let checking = PhaseView::Checking { expected };
            let loading = PhaseView::Loading { expected };
            &&& next(policy, checking, ReplyView::Text(text)) == (if text.subrange(from, to)
                == "ready:"@ + expected {
                loading
            } else {
                back
            })
            &&& next(policy, checking, ReplyView::Missing) == back
            &&& next(policy, checking, ReplyView::Failed(fault)) == back
            &&& row.amtr_key != Some(expected) ==> next(policy, loading, ReplyView::Row(row)) == back
            &&& row.amtr_key == Some(expected) ==> next(policy, loading, ReplyView::Row(row)) == (
            PhaseView::Discharging { output: hook_output(policy.event, row) })
            &&& next(policy, loading, ReplyView::Missing) == back
            &&& next(policy, loading, ReplyView::Failed(fault)) == (PhaseView::Restoring {
                outcome: OutcomeView::Failed(fault),
            })
        }),
        forall|outcome: OutcomeView| #[trigger]
            next(policy, PhaseView::Restoring { outcome }, ReplyView::Done) == (
            PhaseView::Releasing { outcome }),
        forall|outcome: OutcomeView, other: FaultView| #[trigger]
            next(policy, PhaseView::Restoring { outcome }, ReplyView::Exists(other)) == (
            PhaseView::Releasing { outcome }),
        forall|outcome: OutcomeView| #[trigger]
            next(policy, PhaseView::Releasing { outcome }, ReplyView::Done) == finished(outcome),
{
    trimming_leaves_the_solid_part(text, from, to);
}

/// A hook that gives a debt up puts back a marker that has become ready in the
/// meantime, and drops any other, with the deadline.
pub proof fn a_ready_snapshot_is_not_given_up(
    policy: Policy,
    text: Seq<char>,
    key: Seq<char>,
    fault: FaultView,
)
    ensures
        marker_in(text) == MarkerView::Ready(key) ==> next(
            policy,
            PhaseView::Judging,
            ReplyView::Text(text),
        ) == (PhaseView::Restoring { outcome: OutcomeView::Nothing }),
        marker_in(text) is Ongoing || marker_in(text) is Malformed ==> next(
            policy,
            PhaseView::Judging,
            ReplyView::Text(text),
        ) == PhaseView::Dropping,
        next(policy, PhaseView::Judging, ReplyView::Failed(fault)) == PhaseView::Dropping,
        next(policy, PhaseView::Folding, ReplyView::Done) == PhaseView::Judging,
        next(policy, PhaseView::Dropping, ReplyView::Done) == PhaseView::Closing,
        next(policy, PhaseView::Dropping, ReplyView::Missing) == PhaseView::Closing,
        next(policy, PhaseView::Closing, ReplyView::Done) == finished(OutcomeView::Nothing),
        next(policy, PhaseView::Closing, ReplyView::Missing) == finished(OutcomeView::Nothing),
        marker_in(text) == MarkerView::Ready(key) ==> next(
            policy,
            PhaseView::Settling,
            ReplyView::Text(text),
        ) == (PhaseView::Claiming { expected: key }),
        !(marker_in(text) is Ready) ==> next(policy, PhaseView::Settling, ReplyView::Text(text))
            == PhaseView::Folding,
        next(policy, PhaseView::Settling, ReplyView::Missing) == PhaseView::Folding,
{
}

/// An error that ends a delivery is the error that ended it.
pub proof fn errors_come_through(
    policy: Policy,
    deadline: u64,
    expected: Seq<char>,
    output: Seq<char>,
    outcome: OutcomeView,
    fault: FaultView,
)
    ensures
        ({
            let reply = ReplyView::Failed(fault);
            let end = finished(OutcomeView::Failed(fault));
            &&& next(policy, PhaseView::Opening, reply) == end
            &&& next(policy, PhaseView::Weighing { deadline }, reply) == end
            &&& next(policy, PhaseView::Timing { deadline }, reply) == end
            &&& next(policy, PhaseView::Claiming { expected }, reply) == end
            &&& next(policy, PhaseView::Discharging { output }, reply) == end
            &&& next(policy, PhaseView::Clearing { output }, reply) == end
            &&& next(policy, PhaseView::Restoring { outcome }, reply) == end
            &&& next(policy, PhaseView::Releasing { outcome }, reply) == end
            &&& next(policy, PhaseView::Folding, reply) == end
            &&& next(policy, PhaseView::Dropping, reply) == end
            &&& next(policy, PhaseView::Closing, reply) == end
            &&& !(fault is InvalidData) ==> forall|any: ReplyView| #[trigger]
                next(policy, next(policy, PhaseView::Creating { deadline }, reply), any) == end
            &&& !(fault is InvalidData) ==> forall|any: ReplyView| #[trigger]
                next(policy, next(policy, PhaseView::Linking { deadline }, reply), any) == end
        }),
{
}

/// A hook that finds a deadline published goes by that one, and where it holds no
/// number, or is gone again, gives the debt up.
pub proof fn a_deadline_that_makes_no_sense_is_given_up(
    policy: Policy,
    deadline: u64,
    text: Seq<char>,
    fault: FaultView,
)
    ensures
        ({
            let lost = next(policy, PhaseView::Linking { deadline }, ReplyView::Exists(fault));
            forall|any: ReplyView| #[trigger] next(policy, lost, any) == PhaseView::Joining
        }),
        parsed_u64(text) is None ==> next(policy, PhaseView::Joining, ReplyView::Text(text))
            == PhaseView::Folding,
        next(policy, PhaseView::Joining, ReplyView::Missing) == PhaseView::Folding,
        next(policy, PhaseView::Joining, ReplyView::Failed(fault)) == PhaseView::Folding,
{
}

/// What a hook does in each phase is done to the file that the phase is about.
pub proof fn each_phase_has_its_action(
    deadline: u64,
    millis: u64,
    published: PublishedView,
    expected: Seq<char>,
    output: Seq<char>,
    outcome: OutcomeView,
)
    ensures
        action_in(PhaseView::Observing) == Action::Read(Slot::Marker),
        action_in(PhaseView::Opening) == Action::Clock,
        action_in(PhaseView::Creating { deadline }) == Action::Create(deadline),
        action_in(PhaseView::Linking { deadline }) == Action::Link(Slot::Candidate, Slot::Deadline),
        action_in(PhaseView::Unlinking { deadline, published }) == Action::Remove(Slot::Candidate),
        action_in(PhaseView::Joining) == Action::Read(Slot::Deadline),
        action_in(PhaseView::Weighing { deadline }) == Action::Clock,
        action_in(PhaseView::Watching { deadline }) == Action::Read(Slot::Marker),
        action_in(PhaseView::Timing { deadline }) == Action::Clock,
        action_in(PhaseView::Napping { deadline, millis }) == Action::Sleep(millis),
        action_in(PhaseView::Settling) == Action::Read(Slot::Marker),
        action_in(PhaseView::Claiming { expected }) == Action::Rename(Slot::Marker, Slot::Pending),
        action_in(PhaseView::Checking { expected }) == Action::Read(Slot::Pending),
        action_in(PhaseView::Loading { expected }) == Action::Load,
        action_in(PhaseView::Discharging { output }) == Action::Remove(Slot::Pending),
        action_in(PhaseView::Clearing { output }) == Action::Remove(Slot::Deadline),
        action_in(PhaseView::Restoring { outcome }) == Action::Link(Slot::Pending, Slot::Marker),
        action_in(PhaseView::Releasing { outcome }) == Action::Remove(Slot::Pending),
        action_in(PhaseView::Folding) == Action::Rename(Slot::Marker, Slot::Pending),
        action_in(PhaseView::Judging) == Action::Read(Slot::Pending),
        action_in(PhaseView::Dropping) == Action::Remove(Slot::Pending),
        action_in(PhaseView::Closing) == Action::Remove(Slot::Deadline),
        action_in(PhaseView::Finished { outcome }) == Action::Finish,
{
}

/// A hook's own files are named for the file that they stand for, what they are
/// for, its process, and which of its claims they are.
#[verifier::spinoff_prover]
#[verifier::rlimit(40)]
pub proof fn hooks_name_their_own_files(recall: Recall)
    ensures
        recall.path_of(Slot::Marker) == recall.marker(),
        recall.path_of(Slot::Deadline) == recall.deadline(),
        recall.path_of(Slot::Candidate) == recall.deadline() + ".publishing."@ + decimal(
            recall.pid() as nat,
        ) + ".0"@,
        recall.path_of(Slot::Pending) == recall.marker() + (if recall.is_expiring() {
            ".expiring."@
        } else {
            ".delivering."@
        }) + decimal(recall.pid() as nat) + (if recall.has_opened() {
            ".1"@
        } else {
            ".0"@
        }),
{
    reveal_strlit(".");
    reveal_strlit("publishing");
    reveal_strlit("expiring");
    reveal_strlit("delivering");
    reveal_strlit(".publishing.");
    reveal_strlit(".expiring.");
    reveal_strlit(".delivering.");
    reveal_strlit(".0");
    reveal_strlit(".1");
    let pid = decimal(recall.pid() as nat);
    assert(decimal(0) =~= seq!['0']);
    assert(decimal(1) =~= seq!['1']);
    assert(".publishing."@ =~= "."@ + "publishing"@ + "."@);
    assert(".expiring."@ =~= "."@ + "expiring"@ + "."@);
    assert(".delivering."@ =~= "."@ + "delivering"@ + "."@);
    assert(".0"@ =~= "."@ + seq!['0']);
    assert(".1"@ =~= "."@ + seq!['1']);
    assert(recall.path_of(Slot::Candidate) =~= recall.deadline() + ".publishing."@ + pid + ".0"@);
    let word = if recall.is_expiring() {
        ".expiring."@
    } else {
        ".delivering."@
    };
    let end = if recall.has_opened() {
        ".1"@
    } else {
        ".0"@
    };
    assert(recall.path_of(Slot::Pending) =~= recall.marker() + word + pid + end);
}

/// The line that names a snapshot is its key, a tab, and the time of the
/// snapshot; a snapshot without a key has none.
pub proof fn keys_are_reported_with_their_time(row: RowView, key: Seq<char>)
    ensures
        row.amtr_key == Some(key) ==> key_line(row) == Some(
            key + seq!['\t'] + row.compacted_at + seq!['\n'],
        ),
        row.amtr_key is None ==> key_line(row) is None,
{
    reveal_strlit("\t");
    reveal_strlit("\n");
    assert("\t"@ =~= seq!['\t']);
    assert("\n"@ =~= seq!['\n']);
}

/// The session is the one that the first variable names, or else the one that the
/// second names; a variable that is empty names none.
pub proof fn the_session_comes_from_the_environment(
    first: Option<Seq<char>>,
    second: Option<Seq<char>>,
    id: Seq<char>,
)
    ensures
        id.len() > 0 ==> session_in(Some(id), second) == Some(id),
        id.len() > 0 ==> session_in(None, Some(id)) == Some(id),
        id.len() > 0 ==> session_in(Some(Seq::empty()), Some(id)) == Some(id),
        session_in(None, None) is None,
        session_in(first, second) matches Some(named) ==> named.len() > 0 && (first == Some(named)
            || second == Some(named)),
{
}

/// What is printed to deliver a snapshot is one object on a line: under the name
/// of the hook's own output, the text that the session reads and the name of the
/// event, and nothing else.
pub proof fn a_delivery_is_one_object_on_a_line(event: Event, row: RowView)
    ensures
        hook_output(event, row) == json_text(
            Tree::Object(
                seq![
                    (
                        "hookSpecificOutput"@,
                        Tree::Object(
                            seq![
                                ("additionalContext"@, Tree::Text(rendered(row))),
                                (
                                    "hookEventName"@,
                                    Tree::Text(
                                        match event {
                                            Event::SessionStart => "SessionStart"@,
                                            Event::PreToolUse => "PreToolUse"@,
                                            Event::UserPromptSubmit => "UserPromptSubmit"@,
                                        },
                                    ),
                                ),
                            ],
                        ),
                    ),
                ],
            ),
        ) + seq!['\n'],
{
    reveal_strlit("\n");
    assert("\n"@ =~= seq!['\n']);
}

/// The name that a candidate was written under is given up whatever becomes of
/// removing it, a nap ends whatever ended it, and a claimed marker that is gone
/// already counts as removed.
pub proof fn what_is_gone_already_is_no_error(
    policy: Policy,
    deadline: u64,
    millis: u64,
    output: Seq<char>,
    outcome: OutcomeView,
    reply: ReplyView,
)
    ensures
        next(
            policy,
            PhaseView::Unlinking { deadline, published: PublishedView::Ours },
            reply,
        ) == (PhaseView::Watching { deadline }),
        next(
            policy,
            PhaseView::Unlinking { deadline, published: PublishedView::Theirs },
            reply,
        ) == PhaseView::Joining,
        next(policy, PhaseView::Napping { deadline, millis }, reply) == (PhaseView::Watching {
            deadline,
        }),
        next(policy, PhaseView::Discharging { output }, ReplyView::Done) == (PhaseView::Clearing {
            output,
        }),
        next(policy, PhaseView::Discharging { output }, ReplyView::Missing) == (
        PhaseView::Clearing { output }),
        next(policy, PhaseView::Clearing { output }, ReplyView::Missing) == finished(
            OutcomeView::Deliver(output),
        ),
        next(policy, PhaseView::Releasing { outcome }, ReplyView::Missing) == finished(outcome),
        next(policy, finished(outcome), reply) == finished(outcome),
        finished(outcome) == (PhaseView::Finished { outcome }),
{
}

/// A deadline that another hook has published is waited for where it lies no more
/// than the whole wait ahead of the clock, and given up where it lies further.
pub proof fn a_deadline_too_far_ahead_is_not_believed(policy: Policy, deadline: u64, now: u64)
    ensures
        deadline <= now + policy.budget ==> next(
            policy,
            PhaseView::Weighing { deadline },
            ReplyView::Seconds(now),
        ) == (PhaseView::Watching { deadline }),
        deadline > now + policy.budget ==> next(
            policy,
            PhaseView::Weighing { deadline },
            ReplyView::Seconds(now),
        ) == PhaseView::Folding,
        now >= deadline ==> next(
            policy,
            PhaseView::Timing { deadline },
            ReplyView::Seconds(now),
        ) == PhaseView::Settling,
{
}

/// While a hook waits, any change of the marker ends the wait, and what the marker
/// says then is looked at once more before anything is decided.
pub proof fn any_change_ends_the_wait(policy: Policy, deadline: u64, text: Seq<char>, fault: FaultView)
    ensures
        !(marker_in(text) is Ongoing) ==> next(
            policy,
            PhaseView::Watching { deadline },
            ReplyView::Text(text),
        ) == PhaseView::Settling,
        marker_in(text) is Ongoing ==> next(
            policy,
            PhaseView::Watching { deadline },
            ReplyView::Text(text),
        ) == (PhaseView::Timing { deadline }),
        next(policy, PhaseView::Watching { deadline }, ReplyView::Missing) == PhaseView::Settling,
        next(policy, PhaseView::Watching { deadline }, ReplyView::Failed(fault))
            == PhaseView::Settling,
{
}

/// A hook that cannot publish its deadline ends with the error, after the name
/// that it was written under has been removed; where the error is that what was
/// read cannot be trusted, it gives the debt up instead.
pub proof fn a_deadline_that_cannot_be_published_ends_the_hook(
    policy: Policy,
    deadline: u64,
    fault: FaultView,
    reply: ReplyView,
    after: ReplyView,
)
    requires
        reply == ReplyView::Failed(fault) || reply == ReplyView::Exists(fault) || (reply is Missing
            && fault == FaultView::NotFound("no such file"@)),
    ensures
        ({
            let stuck = next(policy, PhaseView::Creating { deadline }, reply);
            &&& action_in(stuck) == Action::Remove(Slot::Candidate)
            &&& next(policy, stuck, after) == (if fault is InvalidData {
                PhaseView::Folding
            } else {
                finished(OutcomeView::Failed(fault))
            })
        }),
        !(reply is Exists) ==> ({
            let stuck = next(policy, PhaseView::Linking { deadline }, reply);
            &&& action_in(stuck) == Action::Remove(Slot::Candidate)
            &&& next(policy, stuck, after) == (if fault is InvalidData {
                PhaseView::Folding
            } else {
                finished(OutcomeView::Failed(fault))
            })
        }),
        next(policy, PhaseView::Creating { deadline }, ReplyView::Done) == (PhaseView::Linking {
            deadline,
        }),
{
}

} // verus!
