//! How a journal is found and how a snapshot comes about, said of the files and
//! of the replies themselves.

use vstd::prelude::*;

use crate::detach::Role;
use crate::disk::{BodyView, StepView, atomic_write};
use crate::extract::{FailedView, composed};
use crate::fault::{FaultView, message_of};
use crate::journal::{Host, WindowView};
use crate::store::{RowReadView, RowView, TextReadView, cortex_in, deadline_at, joined, key_of, marker_at, marking, row_at, saving, slug_of};
use crate::synthesize::{
    DirEntry, EndedView, FileKind, PhaseView, ReplyView, Setting, TaskView, before_journal,
    directories_in, dropping, first_journal, is_journal, is_leftover, new_row, next, note_on,
    setting_after, sweeping, task_in,
};
use crate::text::{contains, ends_with, is_space, occurs_at};

verus! {

/// A journal is a file, its name ends in `.jsonl` with something in front of
/// that, and the session id stands somewhere in the name.
pub proof fn journals_are_known_by_their_names(entry: DirEntry, session_id: Seq<char>, at: int)
    ensures
        is_journal(entry, session_id) ==> entry.kind == FileKind::File && entry.name@.len() > 6
            && ends_with(entry.name@, ".jsonl"@) && contains(entry.name@, session_id),
        entry.kind == FileKind::File && entry.name@.len() > 6 && ends_with(
            entry.name@,
            ".jsonl"@,
        ) && occurs_at(entry.name@, session_id, at) ==> is_journal(entry, session_id),
{
    reveal_strlit(".jsonl");
}

/// The journal of a session in a directory is the first entry that is one; where
/// none is, none is found. What comes before it is all that comes before it.
pub proof fn the_first_journal_is_taken(entries: Seq<DirEntry>, session_id: Seq<char>, i: int)
    requires
        0 <= i <= entries.len(),
        forall|j: int| 0 <= j < i ==> !is_journal(#[trigger] entries[j], session_id),
    ensures
        i < entries.len() && is_journal(entries[i], session_id) ==> first_journal(
            entries,
            session_id,
        ) == Some(entries[i].name@) && before_journal(entries, session_id) == entries.take(i),
        i == entries.len() ==> first_journal(entries, session_id) is None && before_journal(
            entries,
            session_id,
        ) == entries,
    decreases entries.len(),
{
    if i > 0 {
        assert(!is_journal(entries[0], session_id));
        let rest = entries.skip(1);
        assert forall|j: int| 0 <= j < i - 1 implies !is_journal(#[trigger] rest[j], session_id) by {
            assert(rest[j] == entries[j + 1]);
        }
        the_first_journal_is_taken(rest, session_id, i - 1);
        if i < entries.len() {
            assert(rest[i - 1] == entries[i]);
            assert(seq![entries[0]] + rest.take(i - 1) =~= entries.take(i));
        } else {
            assert(seq![entries[0]] + rest =~= entries);
        }
    } else if entries.len() > 0 {
        assert(entries.take(0) =~= Seq::empty());
    } else {
        assert(before_journal(entries, session_id) =~= entries);
    }
}

/// Every directory among the entries is looked into, under its path, in their
/// order, and nothing else is.
pub proof fn every_directory_is_looked_into(dir: Seq<char>, a: Seq<DirEntry>, b: Seq<DirEntry>)
    ensures
        directories_in(dir, a + b) == directories_in(dir, a) + directories_in(dir, b),
        b.len() == 1 && b[0].kind == FileKind::Directory ==> directories_in(dir, b) == seq![
            joined(dir, b[0].name@),
        ],
        b.len() == 1 && b[0].kind != FileKind::Directory ==> directories_in(dir, b).len() == 0,
        b.len() == 0 ==> directories_in(dir, b).len() == 0,
    decreases b.len(),
{
    if b.len() == 0 {
        assert(a + b =~= a);
        assert(directories_in(dir, a) + directories_in(dir, b) =~= directories_in(dir, a));
    } else {
        every_directory_is_looked_into(dir, a, b.drop_last());
        assert((a + b).drop_last() =~= a + b.drop_last());
        assert(directories_in(dir, a + b) =~= directories_in(dir, a) + directories_in(dir, b));
        if b.len() == 1 {
            assert(b.drop_last() =~= Seq::empty());
            assert(directories_in(dir, b.drop_last()) =~= Seq::<Seq<char>>::empty());
            assert(Seq::<Seq<char>>::empty().push(joined(dir, b[0].name@)) =~= seq![
                joined(dir, b[0].name@),
            ]);
        }
    }
}

/// A file is left over from an earlier debt of a session exactly when its name is
/// the session's part of a file name, followed by one of the three words for an
/// unfinished claim, and by anything at all.
pub proof fn leftovers_are_known_by_their_names(
    name: Seq<char>,
    session_id: Seq<char>,
    rest: Seq<char>,
)
    ensures
        is_leftover(slug_of(session_id) + ".marker.delivering."@ + rest, session_id),
        is_leftover(slug_of(session_id) + ".marker.expiring."@ + rest, session_id),
        is_leftover(slug_of(session_id) + ".deliver-deadline.publishing."@ + rest, session_id),
        is_leftover(name, session_id) ==> ({
            let slug = slug_of(session_id);
            ||| name == slug + ".marker.delivering."@ + name.skip(
                (slug + ".marker.delivering."@).len() as int,
            )
            ||| name == slug + ".marker.expiring."@ + name.skip(
                (slug + ".marker.expiring."@).len() as int,
            )
            ||| name == slug + ".deliver-deadline.publishing."@ + name.skip(
                (slug + ".deliver-deadline.publishing."@).len() as int,
            )
        }),
{
    let slug = slug_of(session_id);
    lemma_begins(slug + ".marker.delivering."@, rest);
    lemma_begins(slug + ".marker.expiring."@, rest);
    lemma_begins(slug + ".deliver-deadline.publishing."@, rest);
    lemma_rest_of(name, slug + ".marker.delivering."@);
    lemma_rest_of(name, slug + ".marker.expiring."@);
    lemma_rest_of(name, slug + ".deliver-deadline.publishing."@);
}

proof fn lemma_begins(start: Seq<char>, rest: Seq<char>)
    ensures
        occurs_at(start + rest, start, 0),
{
    assert((start + rest).subrange(0, start.len() as int) =~= start);
}

proof fn lemma_rest_of(name: Seq<char>, start: Seq<char>)
    ensures
        occurs_at(name, start, 0) ==> name == start + name.skip(start.len() as int),
{
    if occurs_at(name, start, 0) {
        assert(name =~= name.subrange(0, start.len() as int) + name.skip(start.len() as int));
    }
}

/// Every leftover among the files is removed, in their order, and nothing else
/// is.
pub proof fn every_leftover_is_swept_away(
    base: Seq<char>,
    session_id: Seq<char>,
    a: Seq<Seq<char>>,
    b: Seq<Seq<char>>,
)
    ensures
        sweeping(base, session_id, a + b) == sweeping(base, session_id, a) + sweeping(
            base,
            session_id,
            b,
        ),
        b.len() == 1 && is_leftover(b[0], session_id) ==> sweeping(base, session_id, b) == seq![
            StepView::Remove(joined(cortex_in(base), b[0])),
        ],
        b.len() == 1 && !is_leftover(b[0], session_id) ==> sweeping(base, session_id, b).len() == 0,
        b.len() == 0 ==> sweeping(base, session_id, b).len() == 0,
    decreases b.len(),
{
    if b.len() == 0 {
        assert(a + b =~= a);
        assert(sweeping(base, session_id, a) + sweeping(base, session_id, b) =~= sweeping(
            base,
            session_id,
            a,
        ));
    } else {
        every_leftover_is_swept_away(base, session_id, a, b.drop_last());
        assert((a + b).drop_last() =~= a + b.drop_last());
        assert(sweeping(base, session_id, a + b) =~= sweeping(base, session_id, a) + sweeping(
            base,
            session_id,
            b,
        ));
        if b.len() == 1 {
            assert(b.drop_last() =~= Seq::empty());
            assert(sweeping(base, session_id, b.drop_last()) =~= Seq::<StepView>::empty());
            let step = StepView::Remove(joined(cortex_in(base), b[0]));
            assert(Seq::<StepView>::empty().push(step) =~= seq![step]);
        }
    }
}

/// A new snapshot is of the session that was compacted, under the key that was
/// minted for it, and holds the handoff as it is. Its boundary is where the
/// window ended, and the time of the snapshot only where the window has no end.
pub proof fn a_snapshot_holds_what_was_made(
    setting: Setting,
    handoff: Seq<char>,
    last_ts: Option<Seq<char>>,
    key: Seq<char>,
    now: Seq<char>,
)
    ensures
        ({
            let row = new_row(setting, handoff, last_ts, key, now);
            &&& row.session_id == setting.session_id
            &&& row.amtr_key == Some(key)
            &&& row.handoff == handoff
            &&& last_ts matches Some(at) ==> row.compacted_at == at
            &&& last_ts is None ==> row.compacted_at == now
        }),
{
}

/// What is carried over from the row that a session had is all of its handoff and
/// its boundary, where it can be read. Where there is none, or it cannot be read,
/// nothing is carried over and the whole journal is read.
pub proof fn what_can_be_read_is_carried_over(setting: Setting, reply: ReplyView, row: RowView)
    ensures
        ({
            let after = next(setting, PhaseView::Loading, reply);
            &&& after is Reading
            &&& reply == ReplyView::Row(RowReadView::Found(row)) ==> after == (PhaseView::Reading {
                prior: Some(row),
            }) && task_in(setting, after) == TaskView::ReadWindow(Some(row.compacted_at))
            &&& !(reply matches ReplyView::Row(RowReadView::Found(_))) ==> after == (
            PhaseView::Reading { prior: None }) && task_in(setting, after) == TaskView::ReadWindow(
                None,
            )
        }),
{
}

/// The agent is run on the prompt, the handoff so far and the whole window, by
/// the host that wrote the journal: whether or not there was a row, and whether
/// the prompt file could be read, was missing, or was blank.
pub proof fn the_agent_is_asked_about_the_window(
    setting: Setting,
    prior: Option<RowView>,
    window: WindowView,
    read: TextReadView,
)
    requires
        exists|i: int| 0 <= i < window.text.len() && !is_space(#[trigger] window.text[i]),
    ensures
        ({
            let prompt = match read {
                TextReadView::Text(text) => if exists|i: int|
                    0 <= i < text.len() && !is_space(#[trigger] text[i]) {
                    text
                } else {
                    setting.default_prompt
                },
                _ => setting.default_prompt,
            };
            let handoff = match prior {
                Some(row) => Some(row.handoff),
                None => None,
            };
            let input = composed(prompt, handoff, window.text);
            let prompting = next(setting, PhaseView::Reading { prior }, ReplyView::Window(window));
            let asked = next(setting, prompting, ReplyView::Text(read));
            let ready = PhaseView::Scratching {
                host: window.host,
                input,
                last_ts: window.last_ts,
            };
            &&& prompting == (PhaseView::Prompting { prior, window })
            &&& read is Missing ==> asked is Writing && (forall|reply: ReplyView| #[trigger]
                next(setting, asked, reply) == ready)
            &&& !(read is Missing) ==> asked == ready
            &&& next(setting, ready, ReplyView::Done) == (PhaseView::Extracting {
                host: window.host,
                input,
                last_ts: window.last_ts,
            })
            &&& task_in(setting, next(setting, ready, ReplyView::Done)) == TaskView::RunAgent(
                window.host,
                input,
            )
        }),
{
}

/// What the agent makes of the window becomes the snapshot as it is, under a new
/// key, and the snapshot is saved before it is marked ready.
pub proof fn what_the_agent_makes_is_saved(
    setting: Setting,
    host: Host,
    input: Seq<char>,
    last_ts: Option<Seq<char>>,
    handoff: Seq<char>,
    millis: i64,
    random: u64,
    now: Seq<char>,
)
    ensures
        ({
            let minting = next(
                setting,
                PhaseView::Extracting { host, input, last_ts },
                ReplyView::Agent(Ok(handoff)),
            );
            let saved = next(setting, minting, ReplyView::Minted { millis, random, now });
            let key = key_of(millis, random);
            &&& minting == (PhaseView::Minting { handoff, last_ts })
            &&& saved matches PhaseView::Saving { row, key: named } && named == key && row.handoff
                == handoff && row.amtr_key == Some(key) && row.session_id == setting.session_id
                && row.compacted_at == (match last_ts {
                Some(at) => at,
                None => now,
            }) && task_in(setting, saved) == TaskView::Perform(
                saving(setting.base, row, setting.pid),
            )
            &&& next(setting, saved, ReplyView::Done) == (PhaseView::Announcing { key })
        }),
{
}

/// Whatever goes wrong once the debt is marked withdraws it: a host that cannot
/// be detached from, a journal that cannot be read or has nothing new, a
/// directory that cannot be made, an agent that fails, a key that cannot be
/// minted, a snapshot that cannot be saved or marked ready. Nothing is saved then
/// but what had been.
pub proof fn whatever_fails_withdraws_the_debt(
    setting: Setting,
    prior: Option<RowView>,
    host: Host,
    input: Seq<char>,
    last_ts: Option<Seq<char>>,
    handoff: Seq<char>,
    row: RowView,
    key: Seq<char>,
    fault: FaultView,
    failed: FailedView,
)
    ensures
        next(setting, PhaseView::Detaching, ReplyView::Role(Role::CannotDetach, setting.pid))
            == dropping(),
        next(setting, PhaseView::Reading { prior }, ReplyView::Failed(fault)) == dropping(),
        next(setting, PhaseView::Scratching { host, input, last_ts }, ReplyView::Failed(fault))
            == dropping(),
        next(setting, PhaseView::Extracting { host, input, last_ts }, ReplyView::Agent(Err(failed)))
            == dropping(),
        next(setting, PhaseView::Extracting { host, input, last_ts }, ReplyView::Failed(fault))
            == dropping(),
        next(setting, PhaseView::Minting { handoff, last_ts }, ReplyView::Failed(fault))
            == dropping(),
        next(setting, PhaseView::Saving { row, key }, ReplyView::Failed(fault)) == dropping(),
        next(setting, PhaseView::Announcing { key }, ReplyView::Failed(fault)) == (
        PhaseView::Dropping { ended: EndedView::Failed(fault) }),
        forall|reply: ReplyView, ended: EndedView| #[trigger]
            next(setting, PhaseView::Dropping { ended }, reply) == (PhaseView::Finished { ended }),
        dropping() == (PhaseView::Dropping { ended: EndedView::Quietly }),
{
}

/// Before the debt is marked, what goes wrong is the caller's to hear, and no
/// debt is left; a list of files that cannot be had keeps no debt from being
/// marked.
pub proof fn the_caller_hears_what_goes_wrong_first(
    setting: Setting,
    names: Seq<Seq<char>>,
    fault: FaultView,
)
    ensures
        next(setting, PhaseView::Clearing, ReplyView::Failed(fault)) == (PhaseView::Finished {
            ended: EndedView::Failed(fault),
        }),
        next(setting, PhaseView::Marking, ReplyView::Failed(fault)) == (PhaseView::Finished {
            ended: EndedView::Failed(fault),
        }),
        next(setting, PhaseView::Clearing, ReplyView::Done) == PhaseView::Listing,
        next(setting, PhaseView::Listing, ReplyView::Names(names)) == (PhaseView::Sweeping { names }),
        next(setting, PhaseView::Listing, ReplyView::Failed(fault)) == (PhaseView::Sweeping {
            names: Seq::empty(),
        }),
        forall|reply: ReplyView| #[trigger]
            next(setting, PhaseView::Sweeping { names }, reply) == PhaseView::Marking,
        next(setting, PhaseView::Marking, ReplyView::Done) == PhaseView::Detaching,
        forall|pid: u32| #[trigger]
            next(setting, PhaseView::Detaching, ReplyView::Role(Role::Caller, pid)) == (
            PhaseView::Finished { ended: EndedView::Quietly }),
        forall|pid: u32| #[trigger]
            next(setting, PhaseView::Detaching, ReplyView::Role(Role::Worker, pid))
                == PhaseView::Leaving,
        forall|reply: ReplyView| #[trigger]
            next(setting, PhaseView::Leaving, reply) == PhaseView::Loading,
{
}

/// The worker goes by its own number and by nothing else that the caller did not
/// go by.
pub proof fn the_worker_has_its_own_number(
    setting: Setting,
    phase: PhaseView,
    reply: ReplyView,
    pid: u32,
)
    ensures
        setting_after(setting, PhaseView::Detaching, ReplyView::Role(Role::Worker, pid)).pid == pid,
        setting_after(setting, phase, reply).base == setting.base,
        setting_after(setting, phase, reply).session_id == setting.session_id,
        setting_after(setting, phase, reply).default_prompt == setting.default_prompt,
        !(phase is Detaching) ==> setting_after(setting, phase, reply) == setting,
{
}

/// The log says why nothing was written: each failure that ends a synthesis is
/// told with the message of the error.
pub proof fn the_log_says_why(
    setting: Setting,
    prior: Option<RowView>,
    host: Host,
    input: Seq<char>,
    last_ts: Option<Seq<char>>,
    handoff: Seq<char>,
    row: RowView,
    key: Seq<char>,
    ended: EndedView,
    fault: FaultView,
    why: Seq<char>,
)
    ensures
        tells(note_on(setting, PhaseView::Leaving, ReplyView::Failed(fault)), fault),
        tells(note_on(setting, PhaseView::Loading, ReplyView::Row(RowReadView::Failed(fault))), fault),
        tells(note_on(setting, PhaseView::Reading { prior }, ReplyView::Failed(fault)), fault),
        tells(
            note_on(setting, PhaseView::Writing { host, input, last_ts }, ReplyView::Failed(fault)),
            fault,
        ),
        tells(
            note_on(
                setting,
                PhaseView::Scratching { host, input, last_ts },
                ReplyView::Failed(fault),
            ),
            fault,
        ),
        tells(
            note_on(setting, PhaseView::Minting { handoff, last_ts }, ReplyView::Failed(fault)),
            fault,
        ),
        tells(note_on(setting, PhaseView::Saving { row, key }, ReplyView::Failed(fault)), fault),
        tells(note_on(setting, PhaseView::Announcing { key }, ReplyView::Failed(fault)), fault),
        tells(note_on(setting, PhaseView::Dropping { ended }, ReplyView::Failed(fault)), fault),
        note_on(
            setting,
            PhaseView::Extracting { host, input, last_ts },
            ReplyView::Agent(Err(FailedView::Failed(why))),
        ) matches Some(note) && ends_with(note, why),
{
    let said = message_of(fault);
    lemma_ends(
        "could not move the detached parent to the store directory before scratch setup: "@,
        said,
    );
    lemma_ends("prior handoff unreadable, carrying nothing: "@, said);
    lemma_ends("could not read the journal: "@, said);
    lemma_ends_later("no snapshot written: "@, "could not read the journal: "@ + said, said);
    lemma_ends("could not write "@ + joined(setting.base, "prompt.md"@) + ": "@, said);
    lemma_ends("could not make a working directory: "@, said);
    lemma_ends_later(
        "no snapshot written: "@,
        "could not make a working directory: "@ + said,
        said,
    );
    lemma_ends("no snapshot written: "@, said);
    lemma_ends("could not store the snapshot: "@, said);
    lemma_ends_later("no snapshot written: "@, "could not store the snapshot: "@ + said, said);
    lemma_ends(
        "extracted, but could not mark deliverable — the row at "@ + setting.session_id
            + " is stranded until the next compaction: "@,
        said,
    );
    lemma_ends(
        "could not clear the marker for "@ + setting.session_id
            + "; later hooks may wait out the delivery budget until it is gone: "@,
        said,
    );
    lemma_ends("no snapshot written: "@, why);
}

/// Whether a line of the log ends with the message of an error.
pub open spec fn tells(note: Option<Seq<char>>, fault: FaultView) -> bool {
    note matches Some(note) && ends_with(note, message_of(fault))
}

proof fn lemma_ends(start: Seq<char>, end: Seq<char>)
    ensures
        ends_with(start + end, end),
{
    let all = start + end;
    assert(all.subrange(all.len() - end.len(), all.len() as int) =~= end);
}

proof fn lemma_ends_later(start: Seq<char>, middle: Seq<char>, end: Seq<char>)
    requires
        ends_with(middle, end),
    ensures
        ends_with(start + middle, end),
{
    let all = start + middle;
    assert(all.subrange(all.len() - end.len(), all.len() as int) =~= middle.subrange(
        middle.len() - end.len(),
        middle.len() as int,
    ));
}

/// What is done in each phase, with the store and the session that the synthesis
/// is for.
pub proof fn each_phase_has_its_task(
    setting: Setting,
    names: Seq<Seq<char>>,
    prior: Option<RowView>,
    window: WindowView,
    host: Host,
    input: Seq<char>,
    last_ts: Option<Seq<char>>,
    handoff: Seq<char>,
    row: RowView,
    key: Seq<char>,
    ended: EndedView,
)
    ensures
        task_in(setting, PhaseView::Clearing) == TaskView::Perform(
            seq![StepView::Remove(deadline_at(setting.base, setting.session_id))],
        ),
        task_in(setting, PhaseView::Listing) == TaskView::List,
        task_in(setting, PhaseView::Sweeping { names }) == TaskView::Attempt(
            sweeping(setting.base, setting.session_id, names),
        ),
        task_in(setting, PhaseView::Marking) == TaskView::Perform(
            marking(setting.base, setting.session_id, "ongoing"@, setting.pid),
        ),
        task_in(setting, PhaseView::Detaching) == TaskView::Detach,
        task_in(setting, PhaseView::Leaving) == TaskView::Leave,
        task_in(setting, PhaseView::Loading) == TaskView::Load,
        task_in(setting, PhaseView::Prompting { prior, window }) == TaskView::ReadPrompt,
        task_in(setting, PhaseView::Writing { host, input, last_ts }) == TaskView::Perform(
            atomic_write(
                joined(setting.base, "prompt.md"@),
                BodyView::Text(setting.default_prompt),
                setting.pid,
            ),
        ),
        task_in(setting, PhaseView::Scratching { host, input, last_ts }) == TaskView::MakeScratch,
        task_in(setting, PhaseView::Extracting { host, input, last_ts }) == TaskView::RunAgent(
            host,
            input,
        ),
        task_in(setting, PhaseView::Minting { handoff, last_ts }) == TaskView::Mint,
        task_in(setting, PhaseView::Saving { row, key }) == TaskView::Perform(
            atomic_write(row_at(setting.base, row.session_id), BodyView::Row(row), setting.pid),
        ),
        task_in(setting, PhaseView::Announcing { key }) == TaskView::Perform(
            marking(setting.base, setting.session_id, "ready:"@ + key, setting.pid),
        ),
        task_in(setting, PhaseView::Dropping { ended }) == TaskView::Perform(
            seq![StepView::Remove(marker_at(setting.base, setting.session_id))],
        ),
        task_in(setting, PhaseView::Finished { ended }) == TaskView::Finish,
        marking(setting.base, setting.session_id, input, setting.pid) == atomic_write(
            marker_at(setting.base, setting.session_id),
            BodyView::Text(input),
            setting.pid,
        ),
{
}

/// The words of the log for each thing that can go wrong.
pub proof fn the_log_has_its_words(
    setting: Setting,
    prior: Option<RowView>,
    window: WindowView,
    host: Host,
    input: Seq<char>,
    last_ts: Option<Seq<char>>,
    handoff: Seq<char>,
    row: RowView,
    key: Seq<char>,
    ended: EndedView,
    fault: FaultView,
    why: Seq<char>,
)
    ensures
        ({
            let reply = ReplyView::Failed(fault);
            let said = message_of(fault);
            let none = "no snapshot written: "@;
            &&& note_on(setting, PhaseView::Detaching, reply) == Some(
                "could not detach; giving up this window"@,
            )
            &&& note_on(setting, PhaseView::Leaving, reply) == Some(
                "could not move the detached parent to the store directory before scratch setup: "@
                    + said,
            )
            &&& note_on(setting, PhaseView::Loading, ReplyView::Row(RowReadView::Failed(fault)))
                == Some("prior handoff unreadable, carrying nothing: "@ + said)
            &&& note_on(setting, PhaseView::Loading, ReplyView::Row(RowReadView::Garbled(why)))
                == Some(
                "prior handoff unreadable, carrying nothing: "@ + (
                "stored row is not readable: "@ + why),
            )
            &&& note_on(setting, PhaseView::Reading { prior }, reply) == Some(
                none + ("could not read the journal: "@ + said),
            )
            &&& note_on(setting, PhaseView::Writing { host, input, last_ts }, reply) == Some(
                "could not write "@ + joined(setting.base, "prompt.md"@) + ": "@ + said,
            )
            &&& note_on(setting, PhaseView::Scratching { host, input, last_ts }, reply) == Some(
                none + ("could not make a working directory: "@ + said),
            )
            &&& note_on(
                setting,
                PhaseView::Extracting { host, input, last_ts },
                ReplyView::Agent(Err(FailedView::Failed(why))),
            ) == Some(none + why)
            &&& note_on(setting, PhaseView::Minting { handoff, last_ts }, reply) == Some(none + said)
            &&& note_on(setting, PhaseView::Saving { row, key }, reply) == Some(
                none + ("could not store the snapshot: "@ + said),
            )
            &&& note_on(setting, PhaseView::Announcing { key }, reply) == Some(
                "extracted, but could not mark deliverable — the row at "@ + setting.session_id
                    + " is stranded until the next compaction: "@ + said,
            )
            &&& note_on(setting, PhaseView::Dropping { ended }, reply) == Some(
                "could not clear the marker for "@ + setting.session_id
                    + "; later hooks may wait out the delivery budget until it is gone: "@ + said,
            )
            &&& (forall|i: int| 0 <= i < window.text.len() ==> is_space(#[trigger] window.text[i]))
                ==> note_on(setting, PhaseView::Reading { prior }, ReplyView::Window(window))
                == Some("nothing new since the previous compaction"@)
            &&& note_on(setting, PhaseView::Saving { row, key }, ReplyView::Done) is None
            &&& note_on(setting, PhaseView::Announcing { key }, ReplyView::Done) is None
            &&& note_on(setting, PhaseView::Loading, ReplyView::Row(RowReadView::Missing)) is None
            &&& note_on(setting, PhaseView::Loading, ReplyView::Row(RowReadView::Found(row))) is None
        }),
{
}

} // verus!
