//! What holds of a delivery as a whole, with any number of hooks and the
//! worker at work on one session at once.
//!
//! A [`World`] is the marker, the deadline and the row of one session, and the
//! hooks that deal with them. A hook is a delivery as [`next`] describes it;
//! its own files have names that no other process uses. Everything that
//! happens is one [`Happening`] after another: the file system does each
//! action at once or not at all.

use vstd::prelude::*;

use crate::disk::Disk;
use crate::numeral::{decimal, decimal_reads_back, parsed_u64};
use crate::recall::{
    Action, MarkerView, OutcomeView, PhaseView, Policy, PublishedView, ReplyView, Slot,
    a_nap_never_passes_the_deadline, action_in, an_undisturbed_hook_delivers, capped_sum, course,
    finished, hook_output, marker_in, next,
};
use crate::store::{RowView, key_of, marking, ongoing_state, ready_state, saving};
use crate::store_laws::{keys_can_be_read_out, row_on, state_on};
use crate::synthesize::{Setting, new_row, what_is_announced_can_be_delivered};
use crate::text::{begins_with, solid_text_is_trimmed, trimmed};

verus! {

/// One hook at work.
pub struct Hook {
    pub policy: Policy,
    pub phase: PhaseView,
    /// What its own candidate file holds.
    pub candidate: Option<Seq<char>>,
    /// What its own claim file holds.
    pub pending: Option<Seq<char>>,
    /// What the marker said when this hook claimed it.
    pub held: Option<Seq<char>>,
    /// The time at which it opened or joined the wait.
    pub opened_at: u64,
    /// Which of the session's waits it has joined.
    pub window: Option<nat>,
}

/// All that a delivery deals with.
pub struct World {
    pub marker: Option<Seq<char>>,
    pub deadline: Option<Seq<char>>,
    pub row: Option<RowView>,
    pub clock: u64,
    pub hooks: Seq<Hook>,
    /// The keys of the snapshots that were ever marked ready, in order.
    pub published: Seq<Seq<char>>,
    /// How many deadlines have been removed so far.
    pub window: nat,
}

/// Something that happens.
pub enum Happening {
    /// A hook does what there is to do, and this is what comes of it.
    Act { at: int, reply: ReplyView },
    /// A hook begins.
    Arrive { policy: Policy },
    /// The worker marks a snapshot ready.
    Ready { key: Seq<char> },
    /// A new compaction removes the deadline of the debt before.
    Clear,
    /// A new compaction removes a file of a hook's own.
    Sweep { at: int, slot: Slot },
    /// A new compaction marks its debt, in place of the one before.
    Debt,
    /// A failed extraction withdraws its debt.
    Withdraw,
    /// The row of the session changes.
    Save { row: Option<RowView> },
    /// Time passes.
    Tick { now: u64 },
}

/// What a file holds, as a hook sees it.
pub open spec fn seen(world: World, hook: Hook, slot: Slot) -> Option<Seq<char>> {
    match slot {
        Slot::Marker => world.marker,
        Slot::Deadline => world.deadline,
        Slot::Candidate => hook.candidate,
        Slot::Pending => hook.pending,
    }
}

/// Whether `reply` can come of what `hook` does next. Anything can fail.
pub open spec fn can_reply(world: World, hook: Hook, reply: ReplyView) -> bool {
    match action_in(hook.phase) {
        Action::Finish => false,
        Action::Sleep(_) => reply is Done,
        action => reply is Failed || match action {
            Action::Read(slot) => match seen(world, hook, slot) {
                Some(text) => reply == ReplyView::Text(text),
                None => reply is Missing,
            },
            Action::Clock => reply == ReplyView::Seconds(world.clock),
            Action::Create(_) => if hook.candidate is Some {
                reply is Exists
            } else {
                reply is Done
            },
            Action::Link(from, to) => seen(world, hook, from) is Some && (if seen(
                world,
                hook,
                to,
            ) is Some {
                reply is Exists
            } else {
                reply is Done
            }),
            Action::Rename(from, to) => if seen(world, hook, from) is Some {
                reply is Done
            } else {
                reply is Missing
            },
            Action::Remove(slot) => if seen(world, hook, slot) is Some {
                reply is Done
            } else {
                reply is Missing
            },
            Action::Load => match world.row {
                Some(row) => reply == ReplyView::Row(row),
                None => reply is Missing,
            },
            _ => false,
        },
    }
}

/// Whether something can happen.
pub open spec fn can_happen(world: World, happening: Happening) -> bool {
    match happening {
        Happening::Act { at, reply } => 0 <= at < world.hooks.len() && can_reply(
            world,
            world.hooks[at],
            reply,
        ),
        Happening::Ready { key } => can_be_marked(key),
        Happening::Sweep { at, slot } => 0 <= at < world.hooks.len(),
        Happening::Tick { now } => now >= world.clock,
        _ => true,
    }
}

/// Whether a marker can name `key`: it does not end in white space, which does
/// not count in a marker.
pub open spec fn can_be_marked(key: Seq<char>) -> bool {
    trimmed(ready_state(key)) == ready_state(key)
}

/// The marker once a hook has done `action`, where it was done.
pub open spec fn marker_after(world: World, hook: Hook, reply: ReplyView) -> Option<Seq<char>> {
    match (action_in(hook.phase), reply) {
        (Action::Rename(Slot::Marker, _), ReplyView::Done) => None,
        (Action::Link(from, Slot::Marker), ReplyView::Done) => seen(world, hook, from),
        _ => world.marker,
    }
}

/// The deadline once a hook has done what there was to do.
pub open spec fn deadline_after(world: World, hook: Hook, reply: ReplyView) -> Option<Seq<char>> {
    match (action_in(hook.phase), reply) {
        (Action::Remove(Slot::Deadline), ReplyView::Done) => None,
        (Action::Link(from, Slot::Deadline), ReplyView::Done) => seen(world, hook, from),
        _ => world.deadline,
    }
}

/// The hook once it has done what there was to do.
pub open spec fn hook_after(world: World, hook: Hook, reply: ReplyView) -> Hook {
    let action = action_in(hook.phase);
    let done = reply is Done;
    Hook {
        policy: hook.policy,
        phase: next(hook.policy, hook.phase, reply),
        candidate: match action {
            Action::Create(deadline) if done => Some(decimal(deadline as nat)),
            Action::Remove(Slot::Candidate) if done => None,
            _ => hook.candidate,
        },
        pending: match action {
            Action::Rename(Slot::Marker, Slot::Pending) if done => world.marker,
            Action::Remove(Slot::Pending) if done => None,
            _ => hook.pending,
        },
        held: match action {
            Action::Rename(Slot::Marker, Slot::Pending) if done => world.marker,
            _ => hook.held,
        },
        opened_at: match (hook.phase, reply) {
            (PhaseView::Opening, ReplyView::Seconds(now)) => now,
            (PhaseView::Weighing { deadline }, ReplyView::Seconds(now)) => now,
            _ => hook.opened_at,
        },
        window: match (hook.phase, reply) {
            (PhaseView::Linking { deadline }, ReplyView::Done) => Some(world.window),
            (PhaseView::Joining, ReplyView::Text(_)) => Some(world.window),
            _ => hook.window,
        },
    }
}

/// A hook that has just begun.
pub open spec fn fresh(policy: Policy) -> Hook {
    Hook {
        policy,
        phase: PhaseView::Observing,
        candidate: None,
        pending: None,
        held: None,
        opened_at: 0,
        window: None,
    }
}

/// A hook one of whose own files has been removed by a new compaction.
pub open spec fn swept(hook: Hook, slot: Slot) -> Hook {
    match slot {
        Slot::Candidate => Hook { candidate: None, ..hook },
        Slot::Pending => Hook { pending: None, ..hook },
        _ => hook,
    }
}

/// The world once something has happened.
pub open spec fn world_after(world: World, happening: Happening) -> World {
    match happening {
        Happening::Act { at, reply } => {
            let hook = world.hooks[at];
            World {
                marker: marker_after(world, hook, reply),
                deadline: deadline_after(world, hook, reply),
                hooks: world.hooks.update(at, hook_after(world, hook, reply)),
                window: if world.deadline is Some && deadline_after(world, hook, reply) is None {
                    world.window + 1
                } else {
                    world.window
                },
                ..world
            }
        },
        Happening::Arrive { policy } => World { hooks: world.hooks.push(fresh(policy)), ..world },
        Happening::Ready { key } => World {
            marker: Some(ready_state(key)),
            published: world.published.push(key),
            ..world
        },
        Happening::Clear => World {
            deadline: None,
            window: if world.deadline is Some {
                world.window + 1
            } else {
                world.window
            },
            ..world
        },
        Happening::Sweep { at, slot } => World {
            hooks: world.hooks.update(at, swept(world.hooks[at], slot)),
            ..world
        },
        Happening::Debt => World { marker: Some(ongoing_state()), ..world },
        Happening::Withdraw => World { marker: None, ..world },
        Happening::Save { row } => World { row, ..world },
        Happening::Tick { now } => World { clock: now, ..world },
    }
}

/// Whether a text says that the snapshot named `key` waits to be delivered.
pub open spec fn names(text: Option<Seq<char>>, key: Seq<char>) -> bool {
    text matches Some(text) && trimmed(text) == ready_state(key)
}

/// Whether a hook has a claimed marker that it will deliver, has delivered, or
/// has yet to put back.
pub open spec fn is_holding(phase: PhaseView) -> bool {
    match phase {
        PhaseView::Checking { expected } => true,
        PhaseView::Loading { expected } => true,
        PhaseView::Judging => true,
        PhaseView::Restoring { outcome } => true,
        PhaseView::Discharging { output } => true,
        PhaseView::Clearing { output } => true,
        PhaseView::Finished { outcome } => outcome is Deliver,
        _ => false,
    }
}

/// Whether a hook holds the snapshot named `key`, as one or none.
pub open spec fn share(hook: Hook, key: Seq<char>) -> nat {
    if is_holding(hook.phase) && names(hook.held, key) {
        1
    } else {
        0
    }
}

/// How many hooks hold the snapshot named `key`.
pub open spec fn held_by(hooks: Seq<Hook>, key: Seq<char>) -> nat
    decreases hooks.len(),
{
    if hooks.len() == 0 {
        0
    } else {
        held_by(hooks.drop_last(), key) + share(hooks.last(), key)
    }
}

/// How many times the snapshot named `key` is on hand: in the marker, or with
/// a hook.
pub open spec fn on_hand(world: World, key: Seq<char>) -> nat {
    held_by(world.hooks, key) + (if names(world.marker, key) {
        1nat
    } else {
        0nat
    })
}

/// How many times `key` has been marked ready.
pub open spec fn times_published(published: Seq<Seq<char>>, key: Seq<char>) -> nat
    decreases published.len(),
{
    if published.len() == 0 {
        0
    } else {
        times_published(published.drop_last(), key) + (if published.last() == key {
            1nat
        } else {
            0nat
        })
    }
}

/// Whether a hook has delivered the snapshot named `key`.
pub open spec fn has_delivered(hook: Hook, key: Seq<char>) -> bool {
    hook.phase matches PhaseView::Finished { outcome } && outcome is Deliver && names(
        hook.held,
        key,
    )
}

/// How many hooks have delivered the snapshot named `key`.
pub open spec fn deliveries(hooks: Seq<Hook>, key: Seq<char>) -> nat
    decreases hooks.len(),
{
    if hooks.len() == 0 {
        0
    } else {
        deliveries(hooks.drop_last(), key) + (if has_delivered(hooks.last(), key) {
            1nat
        } else {
            0nat
        })
    }
}

/// The output of a hook that is about to deliver or has delivered.
pub open spec fn output_of(phase: PhaseView) -> Option<Seq<char>> {
    match phase {
        PhaseView::Discharging { output } => Some(output),
        PhaseView::Clearing { output } => Some(output),
        PhaseView::Finished { outcome: OutcomeView::Deliver(output) } => Some(output),
        _ => None,
    }
}

/// Whether `output` delivers a snapshot that the claimed marker names.
pub open spec fn delivers(hook: Hook, output: Seq<char>) -> bool {
    exists|row: RowView| #[trigger] is_owed(hook, row) && output == hook_output(
        hook.policy.event,
        row,
    )
}

/// Whether the marker that a hook claimed names the snapshot `row`.
pub open spec fn is_owed(hook: Hook, row: RowView) -> bool {
    row.amtr_key matches Some(key) && names(hook.held, key)
}

/// The deadline that a hook waits for.
pub open spec fn deadline_of(phase: PhaseView) -> Option<u64> {
    match phase {
        PhaseView::Unlinking { deadline, published: PublishedView::Ours } => Some(deadline),
        PhaseView::Watching { deadline } => Some(deadline),
        PhaseView::Timing { deadline } => Some(deadline),
        PhaseView::Napping { deadline, millis } => Some(deadline),
        _ => None,
    }
}

/// What holds of every hook at every time.
pub open spec fn is_sound(hook: Hook, world: World) -> bool {
    // The file that it claimed holds what the marker said, unless it is gone.
    &&& is_holding(hook.phase) && hook.pending is Some ==> hook.pending == hook.held
    // It delivers only what the claimed marker names.
    &&& hook.phase matches PhaseView::Loading { expected } ==> names(hook.held, expected)
    &&& output_of(hook.phase) matches Some(output) ==> delivers(hook, output)
    &&& hook.phase matches PhaseView::Restoring { outcome } ==> !(outcome is Deliver)
    &&& hook.phase matches PhaseView::Releasing { outcome } ==> !(outcome is Deliver)
    // It writes down the deadline that it would publish.
    &&& hook.phase matches PhaseView::Creating { deadline } ==> deadline == capped_sum(
        hook.opened_at,
        hook.policy.budget,
    )
    &&& hook.phase matches PhaseView::Linking { deadline } ==> deadline == capped_sum(
        hook.opened_at,
        hook.policy.budget,
    ) && (hook.candidate is Some ==> hook.candidate == Some(decimal(deadline as nat)))
    &&& hook.phase matches PhaseView::Unlinking { deadline, published } ==> deadline == capped_sum(
        hook.opened_at,
        hook.policy.budget,
    )
    // It waits for no longer than the budget, from when it began to wait.
    &&& deadline_of(hook.phase) matches Some(deadline) ==> deadline <= hook.opened_at
        + hook.policy.budget
    // While the wait that it joined lasts, its deadline is the published one.
    &&& hook.window matches Some(window) ==> window <= world.window
    &&& deadline_of(hook.phase) is Some ==> hook.window is Some
    &&& hook.phase matches PhaseView::Weighing { deadline } ==> hook.window is Some && (hook.window
        == Some(world.window) ==> is_published(world, deadline))
    &&& deadline_of(hook.phase) is Some && hook.window == Some(world.window) ==> is_published(
        world,
        deadline_of(hook.phase)->0,
    )
}

/// Whether the deadline file says `deadline`.
pub open spec fn is_published(world: World, deadline: u64) -> bool {
    world.deadline matches Some(text) && parsed_u64(text) == Some(deadline)
}

/// What holds at every time: every hook is sound, and no snapshot is on hand
/// more often than it was marked ready.
pub open spec fn is_lawful(world: World) -> bool {
    &&& forall|i: int| 0 <= i < world.hooks.len() ==> is_sound(#[trigger] world.hooks[i], world)
    &&& forall|key: Seq<char>| #[trigger]
        on_hand(world, key) <= times_published(world.published, key)
}

/// A session at which no hook is at work and to which nothing is ready to be
/// delivered, whatever else its files hold.
pub open spec fn is_quiet(world: World) -> bool {
    &&& world.hooks.len() == 0
    &&& forall|key: Seq<char>| !#[trigger] names(world.marker, key)
}

/// A quiet session is in order.
pub proof fn quiet_is_lawful(world: World)
    requires
        is_quiet(world),
    ensures
        is_lawful(world),
{
}

proof fn lemma_ready_states_are_distinct(a: Seq<char>, b: Seq<char>)
    requires
        ready_state(a) == ready_state(b),
    ensures
        a == b,
{
    assert(a =~= ready_state(a).skip("ready:"@.len() as int));
    assert(b =~= ready_state(b).skip("ready:"@.len() as int));
}

proof fn lemma_held_by_update(hooks: Seq<Hook>, at: int, hook: Hook, key: Seq<char>)
    requires
        0 <= at < hooks.len(),
    ensures
        held_by(hooks.update(at, hook), key) + share(hooks[at], key) == held_by(hooks, key) + share(
            hook,
            key,
        ),
    decreases hooks.len(),
{
    let new = hooks.update(at, hook);
    if at == hooks.len() - 1 {
        assert(new.drop_last() =~= hooks.drop_last());
    } else {
        lemma_held_by_update(hooks.drop_last(), at, hook, key);
        assert(new.drop_last() =~= hooks.drop_last().update(at, hook));
    }
}

proof fn lemma_act_keeps_count(world: World, at: int, reply: ReplyView, key: Seq<char>)
    requires
        is_lawful(world),
        can_happen(world, Happening::Act { at, reply }),
    ensures
        on_hand(world_after(world, Happening::Act { at, reply }), key) <= on_hand(world, key),
{
    let hook = world.hooks[at];
    assert(is_sound(hook, world));
    lemma_held_by_update(world.hooks, at, hook_after(world, hook, reply), key);
}

proof fn lemma_act_keeps_hook_sound(world: World, at: int, reply: ReplyView)
    requires
        is_lawful(world),
        can_happen(world, Happening::Act { at, reply }),
    ensures
        is_sound(
            hook_after(world, world.hooks[at], reply),
            world_after(world, Happening::Act { at, reply }),
        ),
{
    let hook = world.hooks[at];
    let after = hook_after(world, hook, reply);
    assert(is_sound(hook, world));
    match hook.phase {
        PhaseView::Loading { expected } => {
            if reply is Row && (reply->Row_0).amtr_key == Some(expected) {
                assert(is_owed(after, reply->Row_0));
            }
        },
        PhaseView::Discharging { output } => {
            let row = choose|row: RowView| #[trigger]
                is_owed(hook, row) && output == hook_output(hook.policy.event, row);
            assert(is_owed(after, row));
        },
        PhaseView::Clearing { output } => {
            let row = choose|row: RowView| #[trigger]
                is_owed(hook, row) && output == hook_output(hook.policy.event, row);
            assert(is_owed(after, row));
        },
        PhaseView::Linking { deadline } => {
            decimal_reads_back(deadline);
        },
        _ => {},
    }
}

proof fn lemma_others_stay_sound(world: World, at: int, reply: ReplyView, other: Hook)
    requires
        can_happen(world, Happening::Act { at, reply }),
        is_sound(other, world),
    ensures
        is_sound(other, world_after(world, Happening::Act { at, reply })),
{
}

/// Whatever happens, the session stays in order.
pub proof fn whatever_happens_is_lawful(world: World, happening: Happening)
    requires
        is_lawful(world),
        can_happen(world, happening),
    ensures
        is_lawful(world_after(world, happening)),
{
    let after = world_after(world, happening);
    assert forall|i: int| 0 <= i < after.hooks.len() implies is_sound(
        #[trigger] after.hooks[i],
        after,
    ) by {
        match happening {
            Happening::Act { at, reply } => {
                if i == at {
                    lemma_act_keeps_hook_sound(world, at, reply);
                } else {
                    assert(after.hooks[i] == world.hooks[i]);
                    assert(is_sound(world.hooks[i], world));
                    lemma_others_stay_sound(world, at, reply, world.hooks[i]);
                }
            },
            Happening::Arrive { policy } => {
                if i < world.hooks.len() {
                    assert(after.hooks[i] == world.hooks[i]);
                    assert(is_sound(world.hooks[i], world));
                }
            },
            Happening::Sweep { at, slot } => {
                let hook = world.hooks[i];
                assert(is_sound(hook, world));
                if i == at && output_of(hook.phase) is Some {
                    let output = output_of(hook.phase)->0;
                    let row = choose|row: RowView| #[trigger]
                        is_owed(hook, row) && output == hook_output(hook.policy.event, row);
                    assert(is_owed(swept(hook, slot), row));
                }
            },
            _ => {
                assert(after.hooks[i] == world.hooks[i]);
                assert(is_sound(world.hooks[i], world));
            },
        }
    }
    assert forall|key: Seq<char>| #[trigger]
        on_hand(after, key) <= times_published(after.published, key) by {
        assert(on_hand(world, key) <= times_published(world.published, key));
        match happening {
            Happening::Act { at, reply } => {
                lemma_act_keeps_count(world, at, reply, key);
            },
            Happening::Arrive { policy } => {
                assert(after.hooks.drop_last() =~= world.hooks);
            },
            Happening::Ready { key: ready } => {
                assert(after.published.drop_last() =~= world.published);
                if names(after.marker, key) {
                    lemma_ready_states_are_distinct(key, ready);
                }
            },
            Happening::Sweep { at, slot } => {
                lemma_held_by_update(world.hooks, at, swept(world.hooks[at], slot), key);
            },
            Happening::Debt => {
                lemma_ongoing_names_nothing(key);
            },
            _ => {},
        }
    }
}

proof fn lemma_ongoing_names_nothing(key: Seq<char>)
    ensures
        !names(Some(ongoing_state()), key),
{
    reveal_strlit("ongoing");
    reveal_strlit("ready:");
    solid_text_is_trimmed(ongoing_state());
    assert(ongoing_state()[0] == 'o');
    assert(ready_state(key)[0] == 'r');
}

/// The world after some happenings.
pub open spec fn after_all(world: World, happenings: Seq<Happening>) -> World
    decreases happenings.len(),
{
    if happenings.len() == 0 {
        world
    } else {
        world_after(after_all(world, happenings.drop_last()), happenings.last())
    }
}

/// Whether each of some happenings can follow on those before it.
pub open spec fn can_all_happen(world: World, happenings: Seq<Happening>) -> bool
    decreases happenings.len(),
{
    happenings.len() > 0 ==> can_all_happen(world, happenings.drop_last()) && can_happen(
        after_all(world, happenings.drop_last()),
        happenings.last(),
    )
}

/// In whatever order the hooks and the worker get to run, a session that was
/// quiet stays in order.
pub proof fn every_course_of_events_is_lawful(world: World, happenings: Seq<Happening>)
    requires
        is_quiet(world),
        can_all_happen(world, happenings),
    ensures
        is_lawful(after_all(world, happenings)),
    decreases happenings.len(),
{
    if happenings.len() == 0 {
        quiet_is_lawful(world);
    } else {
        every_course_of_events_is_lawful(world, happenings.drop_last());
        whatever_happens_is_lawful(
            after_all(world, happenings.drop_last()),
            happenings.last(),
        );
    }
}

proof fn lemma_deliveries_are_held(hooks: Seq<Hook>, key: Seq<char>)
    ensures
        deliveries(hooks, key) <= held_by(hooks, key),
    decreases hooks.len(),
{
    if hooks.len() > 0 {
        lemma_deliveries_are_held(hooks.drop_last(), key);
    }
}

proof fn lemma_published_once(published: Seq<Seq<char>>, key: Seq<char>)
    requires
        published.no_duplicates(),
    ensures
        times_published(published, key) <= 1,
        times_published(published, key) == 1 ==> published.contains(key),
    decreases published.len(),
{
    if published.len() > 0 {
        let front = published.drop_last();
        assert(front.no_duplicates()) by {
            assert forall|i: int, j: int|
                0 <= i < front.len() && 0 <= j < front.len() && i != j implies front[i]
                != front[j] by {
                assert(front[i] == published[i] && front[j] == published[j]);
            }
        }
        lemma_published_once(front, key);
        if times_published(front, key) == 1 {
            let i = choose|i: int| 0 <= i < front.len() && front[i] == key;
            assert(published[i] == key);
            assert(published[published.len() - 1] == published.last());
        } else if published.last() == key {
            assert(published[published.len() - 1] == key);
        }
    }
}

/// However many hooks run at once, and in whatever order, a snapshot is
/// delivered no more often than it was marked ready.
pub proof fn no_snapshot_is_delivered_twice(
    world: World,
    happenings: Seq<Happening>,
    key: Seq<char>,
)
    requires
        is_quiet(world),
        can_all_happen(world, happenings),
    ensures
        ({
            let after = after_all(world, happenings);
            &&& deliveries(after.hooks, key) <= times_published(after.published, key)
            &&& after.published.no_duplicates() ==> deliveries(after.hooks, key) <= 1
        }),
{
    let after = after_all(world, happenings);
    every_course_of_events_is_lawful(world, happenings);
    lemma_deliveries_are_held(after.hooks, key);
    assert(on_hand(after, key) <= times_published(after.published, key));
    if after.published.no_duplicates() {
        lemma_published_once(after.published, key);
    }
}

/// What a hook delivers is a snapshot that the marker it claimed named, written
/// out for its own event.
pub proof fn only_what_is_owed_is_delivered(world: World, happenings: Seq<Happening>, i: int)
    requires
        is_quiet(world),
        can_all_happen(world, happenings),
        0 <= i < after_all(world, happenings).hooks.len(),
    ensures
        ({
            let hook = after_all(world, happenings).hooks[i];
            hook.phase matches PhaseView::Finished { outcome: OutcomeView::Deliver(output) }
                ==> delivers(hook, output)
        }),
{
    every_course_of_events_is_lawful(world, happenings);
    let after = after_all(world, happenings);
    assert(is_sound(after.hooks[i], after));
}

/// No hook loses a snapshot that waits to be delivered. Whatever a hook does,
/// as long as it does not fail, each snapshot is on hand as before: in the
/// marker, or with a hook that delivers it or puts it back. This holds of a
/// hook that gives a debt up as of any other. The one exception is a marker
/// that says something newer already: then the older one is let go.
pub proof fn no_hook_discards_a_ready_snapshot(
    world: World,
    at: int,
    reply: ReplyView,
    key: Seq<char>,
)
    requires
        is_lawful(world),
        can_happen(world, Happening::Act { at, reply }),
        key.len() > 0,
        !(reply is Failed),
        !(reply is Exists && world.hooks[at].phase is Restoring),
        world.hooks[at].phase is Judging ==> world.hooks[at].pending is Some,
    ensures
        on_hand(world_after(world, Happening::Act { at, reply }), key) == on_hand(world, key),
{
    let hook = world.hooks[at];
    assert(is_sound(hook, world));
    lemma_held_by_update(world.hooks, at, hook_after(world, hook, reply), key);
    if hook.phase is Judging && names(hook.held, key) {
        let state = ready_state(key);
        let text = hook.held->0;
        reveal_strlit("ready:");
        reveal_strlit("ongoing");
        assert(state[0] == 'r');
        assert("ongoing"@[0] == 'o');
        assert(state.subrange(0, "ready:"@.len() as int) =~= "ready:"@);
        assert(begins_with(state, "ready:"@));
        assert(marker_in(text) is Ready);
    }
}

/// The hooks that wait for one debt wait for one deadline: all of them share
/// the one that the first has published.
pub proof fn hooks_of_one_wait_share_its_deadline(
    world: World,
    happenings: Seq<Happening>,
    i: int,
    j: int,
)
    requires
        is_quiet(world),
        can_all_happen(world, happenings),
        0 <= i < after_all(world, happenings).hooks.len(),
        0 <= j < after_all(world, happenings).hooks.len(),
    ensures
        ({
            let after = after_all(world, happenings);
            let a = after.hooks[i];
            let b = after.hooks[j];
            deadline_of(a.phase) is Some && deadline_of(b.phase) is Some && a.window == Some(
                after.window,
            ) && b.window == Some(after.window) ==> deadline_of(a.phase) == deadline_of(b.phase)
        }),
{
    every_course_of_events_is_lawful(world, happenings);
    let after = after_all(world, happenings);
    assert(is_sound(after.hooks[i], after));
    assert(is_sound(after.hooks[j], after));
}

/// No hook waits for longer than the budget, counted from when it opened or
/// joined the wait, and none sleeps past that moment.
pub proof fn no_hook_waits_past_the_budget(world: World, happenings: Seq<Happening>, i: int)
    requires
        is_quiet(world),
        can_all_happen(world, happenings),
        0 <= i < after_all(world, happenings).hooks.len(),
    ensures
        ({
            let after = after_all(world, happenings);
            let hook = after.hooks[i];
            let limit = hook.opened_at + hook.policy.budget;
            &&& deadline_of(hook.phase) matches Some(deadline) ==> deadline <= limit
            &&& hook.phase is Timing && after.clock < deadline_of(hook.phase)->0 ==> {
                let later = next(hook.policy, hook.phase, ReplyView::Seconds(after.clock));
                &&& later is Napping
                &&& after.clock * 1000 + later->Napping_millis <= limit * 1000
            }
        }),
{
    every_course_of_events_is_lawful(world, happenings);
    let after = after_all(world, happenings);
    let hook = after.hooks[i];
    assert(is_sound(hook, after));
    if hook.phase is Timing && after.clock < deadline_of(hook.phase)->0 {
        a_nap_never_passes_the_deadline(
            hook.policy,
            deadline_of(hook.phase)->0,
            after.clock,
        );
    }
}

/// A hook that is about to open the wait for a debt, or to join it.
pub open spec fn opener(policy: Policy) -> Hook {
    Hook { phase: PhaseView::Opening, ..fresh(policy) }
}

/// How many things a hook has yet to do before it waits, where it is about to
/// open or join a wait.
pub open spec fn to_open(phase: PhaseView) -> Option<nat> {
    match phase {
        PhaseView::Opening => Some(6),
        PhaseView::Creating { deadline } => Some(5),
        PhaseView::Linking { deadline } => Some(4),
        PhaseView::Unlinking { deadline, published } => Some(3),
        PhaseView::Joining => Some(2),
        PhaseView::Weighing { deadline } => Some(1),
        _ => None,
    }
}

/// Whether a happening leaves the wait to hooks that open or join it: none of
/// them fails, no other hook acts, and no deadline or candidate is removed by a
/// new compaction.
pub open spec fn only_opens(world: World, happening: Happening) -> bool {
    match happening {
        Happening::Act { at, reply } => to_open(world.hooks[at].phase) is Some && !(
        reply is Failed),
        Happening::Arrive { policy } => false,
        Happening::Clear => false,
        Happening::Sweep { at, slot } => false,
        _ => true,
    }
}

/// Whether each of some happenings leaves the wait to hooks that open or join it.
pub open spec fn all_open(world: World, happenings: Seq<Happening>) -> bool
    decreases happenings.len(),
{
    happenings.len() > 0 ==> all_open(world, happenings.drop_last()) && only_opens(
        after_all(world, happenings.drop_last()),
        happenings.last(),
    )
}

/// Whether a hook has published the deadline that stands in the file: the time
/// that it read when it began, and the budget.
pub open spec fn has_published(hook: Hook, world: World) -> bool {
    &&& deadline_of(hook.phase) is Some
    &&& world.deadline == Some(
        decimal(capped_sum(hook.opened_at, hook.policy.budget) as nat),
    )
}

/// How far a hook can have come that opens or joins a wait, and what holds of it
/// then.
pub open spec fn opens_well(hook: Hook, world: World) -> bool {
    &&& hook.opened_at <= world.clock
    &&& match hook.phase {
        PhaseView::Opening => hook.candidate is None,
        PhaseView::Creating { deadline } => hook.candidate is None && deadline == capped_sum(
            hook.opened_at,
            hook.policy.budget,
        ),
        PhaseView::Linking { deadline } => hook.candidate == Some(decimal(deadline as nat))
            && deadline == capped_sum(hook.opened_at, hook.policy.budget),
        PhaseView::Unlinking { deadline, published } => hook.candidate is Some && (match published {
            PublishedView::Ours => world.deadline == Some(decimal(deadline as nat)) && deadline
                == capped_sum(hook.opened_at, hook.policy.budget),
            PublishedView::Theirs => world.deadline is Some,
            PublishedView::Failed(_) => false,
        }),
        PhaseView::Joining => hook.candidate is None && world.deadline is Some,
        PhaseView::Weighing { deadline } => hook.candidate is None && world.deadline == Some(
            decimal(deadline as nat),
        ),
        PhaseView::Watching { deadline } => hook.candidate is None && world.deadline == Some(
            decimal(deadline as nat),
        ),
        _ => false,
    }
}

/// What holds while hooks open one wait: each of them has come so far in good
/// order, and where a deadline is published, one of them has published it.
pub open spec fn is_opening(world: World, budget: u64) -> bool {
    &&& forall|i: int|
        0 <= i < world.hooks.len() ==> (#[trigger] world.hooks[i]).policy.budget == budget
            && opens_well(world.hooks[i], world)
    &&& world.deadline is Some ==> exists|i: int|
        0 <= i < world.hooks.len() && #[trigger] has_published(world.hooks[i], world)
}

/// One thing that a hook does to open or join a wait brings it nearer to waiting
/// and rewrites no deadline.
pub proof fn opening_goes_on(world: World, happening: Happening, budget: u64)
    requires
        is_opening(world, budget),
        can_happen(world, happening),
        only_opens(world, happening),
    ensures
        is_opening(world_after(world, happening), budget),
        world.deadline is Some ==> world_after(world, happening).deadline == world.deadline,
        happening matches Happening::Act { at, reply } ==> ({
            let phase = world_after(world, happening).hooks[at].phase;
            phase is Watching || (to_open(phase) is Some && to_open(phase)->0 < to_open(
                world.hooks[at].phase,
            )->0)
        }),
{
    let after = world_after(world, happening);
    match happening {
        Happening::Act { at, reply } => {
            lemma_opening_act(world, at, reply, budget);
        },
        _ => {
            assert forall|i: int| 0 <= i < after.hooks.len() implies (
            #[trigger] after.hooks[i]).policy.budget == budget && opens_well(
                after.hooks[i],
                after,
            ) by {
                assert(world.hooks[i].policy.budget == budget);
            }
            if world.deadline is Some {
                let p = choose|p: int|
                    0 <= p < world.hooks.len() && #[trigger] has_published(world.hooks[p], world);
                assert(has_published(after.hooks[p], after));
            }
        },
    }
}

proof fn lemma_opening_act(world: World, at: int, reply: ReplyView, budget: u64)
    requires
        is_opening(world, budget),
        can_happen(world, Happening::Act { at, reply }),
        only_opens(world, Happening::Act { at, reply }),
    ensures
        ({
            let after = world_after(world, Happening::Act { at, reply });
            let phase = after.hooks[at].phase;
            &&& is_opening(after, budget)
            &&& world.deadline is Some ==> after.deadline == world.deadline
            &&& phase is Watching || (to_open(phase) is Some && to_open(phase)->0 < to_open(
                world.hooks[at].phase,
            )->0)
        }),
{
    let after = world_after(world, Happening::Act { at, reply });
    let hook = world.hooks[at];
    assert(hook.policy.budget == budget && opens_well(hook, world));
    if world.deadline is Some {
        let p = choose|p: int|
            0 <= p < world.hooks.len() && #[trigger] has_published(world.hooks[p], world);
        let publisher = world.hooks[p];
        assert(publisher.policy.budget == budget && opens_well(publisher, world));
        let published = capped_sum(publisher.opened_at, budget);
        decimal_reads_back(published);
        if hook.phase is Weighing {
            decimal_reads_back(hook.phase->Weighing_deadline);
        }
        assert(has_published(after.hooks[p], after));
    } else if hook.phase is Linking {
        assert(has_published(after.hooks[at], after));
    }
    assert forall|i: int| 0 <= i < after.hooks.len() implies (
    #[trigger] after.hooks[i]).policy.budget == budget && opens_well(after.hooks[i], after) by {
        assert(world.hooks[i].policy.budget == budget && opens_well(world.hooks[i], world));
    }
}

proof fn lemma_openers_keep_order(world: World, happenings: Seq<Happening>, budget: u64)
    requires
        is_opening(world, budget),
        can_all_happen(world, happenings),
        all_open(world, happenings),
    ensures
        is_opening(after_all(world, happenings), budget),
        after_all(world, happenings).hooks.len() == world.hooks.len(),
    decreases happenings.len(),
{
    if happenings.len() > 0 {
        let before = happenings.drop_last();
        lemma_openers_keep_order(world, before, budget);
        opening_goes_on(after_all(world, before), happenings.last(), budget);
    }
}

/// However many hooks open or join the wait for one debt, at once or one after
/// the other, all of them wait for the same deadline: the time that the one that
/// published it had read, and the budget. The file holds that number in decimal,
/// and no hook that waits has left a candidate behind. None of them refuses the
/// deadline or fails on the way.
pub proof fn openers_share_one_deadline(
    world: World,
    happenings: Seq<Happening>,
    budget: u64,
    i: int,
)
    requires
        world.deadline is None,
        forall|k: int|
            0 <= k < world.hooks.len() ==> (#[trigger] world.hooks[k]).policy.budget == budget
                && world.hooks[k] == opener(world.hooks[k].policy),
        can_all_happen(world, happenings),
        all_open(world, happenings),
        0 <= i < world.hooks.len(),
    ensures
        ({
            let after = after_all(world, happenings);
            let hook = after.hooks[i];
            &&& after.hooks.len() == world.hooks.len()
            &&& to_open(hook.phase) is Some || hook.phase is Watching
            &&& hook.phase matches PhaseView::Watching { deadline } ==> {
                &&& hook.candidate is None
                &&& after.deadline == Some(decimal(deadline as nat))
                &&& exists|p: int|
                    0 <= p < after.hooks.len() && #[trigger] has_published(after.hooks[p], after)
                        && deadline == capped_sum(after.hooks[p].opened_at, budget) && (
                    after.hooks[p].opened_at + budget <= u64::MAX ==> deadline
                        == after.hooks[p].opened_at + budget)
            }
        }),
{
    assert(is_opening(world, budget));
    lemma_openers_keep_order(world, happenings, budget);
    let after = after_all(world, happenings);
    let hook = after.hooks[i];
    assert(hook.policy.budget == budget && opens_well(hook, after));
    if hook.phase is Watching {
        let p = choose|p: int|
            0 <= p < after.hooks.len() && #[trigger] has_published(after.hooks[p], after);
        assert(after.hooks[p].policy.budget == budget);
        decimal_reads_back(hook.phase->Watching_deadline);
        decimal_reads_back(capped_sum(after.hooks[p].opened_at, budget));
    }
}

/// Whether nothing happens but that hooks arrive and act, none of them fails,
/// and time passes.
pub open spec fn only_delivers(happening: Happening) -> bool {
    match happening {
        Happening::Act { at, reply } => !(reply is Failed),
        Happening::Arrive { policy } => true,
        Happening::Tick { now } => true,
        _ => false,
    }
}

/// How far a hook can have come that finds the snapshot `row` ready, and what
/// holds of it then. `text` is what the marker said.
pub open spec fn delivers_well(hook: Hook, world: World, text: Seq<char>, row: RowView) -> bool {
    let output = hook_output(hook.policy.event, row);
    &&& hook.candidate is None
    &&& match hook.phase {
        PhaseView::Observing => hook.pending is None,
        PhaseView::Claiming { expected } => hook.pending is None && row.amtr_key == Some(expected),
        PhaseView::Checking { expected } => hook.pending == Some(text) && row.amtr_key == Some(
            expected,
        ),
        PhaseView::Loading { expected } => hook.pending == Some(text) && row.amtr_key == Some(
            expected,
        ),
        PhaseView::Discharging { output: out } => hook.pending == Some(text) && out == output,
        PhaseView::Clearing { output: out } => hook.pending is None && out == output,
        PhaseView::Finished { outcome: OutcomeView::Nothing } => hook.pending is None,
        PhaseView::Finished { outcome: OutcomeView::Deliver(out) } => hook.pending is None && out
            == output && world.deadline is None,
        _ => false,
    }
    &&& !(hook.phase is Observing) && !(hook.phase is Claiming) ==> world.marker is None
    &&& is_holding(hook.phase) ==> hook.held == Some(text)
}

/// What holds while hooks deliver the snapshot `row`: each of them has come so
/// far in good order, and the snapshot is on hand once.
pub open spec fn is_delivering(world: World, text: Seq<char>, row: RowView) -> bool {
    &&& row.amtr_key matches Some(key) && marker_in(text) == MarkerView::Ready(key) && on_hand(
        world,
        key,
    ) == 1
    &&& world.row == Some(row)
    &&& world.marker is None || world.marker == Some(text)
    &&& forall|i: int|
        0 <= i < world.hooks.len() ==> delivers_well(#[trigger] world.hooks[i], world, text, row)
}

proof fn lemma_ready_text(text: Seq<char>, key: Seq<char>)
    requires
        marker_in(text) == MarkerView::Ready(key),
    ensures
        names(Some(text), key),
{
    let state = trimmed(text);
    assert(state =~= ready_state(key)) by {
        assert(state.subrange(0, "ready:"@.len() as int) =~= state.take("ready:"@.len() as int));
    }
}

proof fn lemma_delivering_act(
    world: World,
    at: int,
    reply: ReplyView,
    text: Seq<char>,
    row: RowView,
)
    requires
        is_delivering(world, text, row),
        can_happen(world, Happening::Act { at, reply }),
        !(reply is Failed),
    ensures
        is_delivering(world_after(world, Happening::Act { at, reply }), text, row),
{
    let after = world_after(world, Happening::Act { at, reply });
    let hook = world.hooks[at];
    let key = row.amtr_key->0;
    lemma_ready_text(text, key);
    assert(delivers_well(hook, world, text, row));
    lemma_held_by_update(world.hooks, at, hook_after(world, hook, reply), key);
    assert forall|i: int| 0 <= i < after.hooks.len() implies delivers_well(
        #[trigger] after.hooks[i],
        after,
        text,
        row,
    ) by {
        assert(delivers_well(world.hooks[i], world, text, row));
    }
}

proof fn lemma_delivering_goes_on(
    world: World,
    happenings: Seq<Happening>,
    text: Seq<char>,
    row: RowView,
)
    requires
        is_delivering(world, text, row),
        can_all_happen(world, happenings),
        forall|k: int| 0 <= k < happenings.len() ==> only_delivers(#[trigger] happenings[k]),
    ensures
        is_delivering(after_all(world, happenings), text, row),
    decreases happenings.len(),
{
    if happenings.len() > 0 {
        let front = happenings.drop_last();
        assert forall|k: int| 0 <= k < front.len() implies only_delivers(#[trigger] front[k]) by {
            assert(front[k] == happenings[k]);
        }
        lemma_delivering_goes_on(world, front, text, row);
        let before = after_all(world, front);
        let last = happenings[happenings.len() - 1];
        let after = after_all(world, happenings);
        assert(only_delivers(last));
        match last {
            Happening::Act { at, reply } => {
                lemma_delivering_act(before, at, reply, text, row);
            },
            Happening::Arrive { policy } => {
                assert(after.hooks.drop_last() =~= before.hooks);
                assert forall|i: int| 0 <= i < after.hooks.len() implies delivers_well(
                    #[trigger] after.hooks[i],
                    after,
                    text,
                    row,
                ) by {
                    if i < before.hooks.len() {
                        assert(delivers_well(before.hooks[i], before, text, row));
                    }
                }
            },
            _ => {
                assert forall|i: int| 0 <= i < after.hooks.len() implies delivers_well(
                    #[trigger] after.hooks[i],
                    after,
                    text,
                    row,
                ) by {
                    assert(delivers_well(before.hooks[i], before, text, row));
                }
            },
        }
    }
}

proof fn lemma_all_finished(hooks: Seq<Hook>, key: Seq<char>)
    requires
        forall|i: int| 0 <= i < hooks.len() ==> (#[trigger] hooks[i]).phase is Finished,
    ensures
        deliveries(hooks, key) == held_by(hooks, key),
        deliveries(hooks, key) > 0 ==> exists|i: int|
            0 <= i < hooks.len() && has_delivered(#[trigger] hooks[i], key),
    decreases hooks.len(),
{
    if hooks.len() > 0 {
        let front = hooks.drop_last();
        assert forall|i: int| 0 <= i < front.len() implies (
        #[trigger] front[i]).phase is Finished by {
            assert(front[i] == hooks[i]);
        }
        lemma_all_finished(front, key);
        let last = hooks[hooks.len() - 1];
        assert(last.phase is Finished);
        if has_delivered(last, key) {
        } else if deliveries(front, key) > 0 {
            let i = choose|i: int| 0 <= i < front.len() && has_delivered(#[trigger] front[i], key);
            assert(hooks[i] == front[i]);
        }
    }
}

/// A ready snapshot is delivered exactly once. Where the marker names the row of
/// the session, and hooks arrive and act in whatever order with none of them
/// failing, then once all of them have finished, and there was one, exactly one
/// has delivered that row, written out for its own event. The others have
/// delivered nothing, no hook has left a file of its own behind, the marker and
/// the deadline are gone, and the row is as it was.
pub proof fn a_ready_snapshot_is_delivered_exactly_once(
    world: World,
    happenings: Seq<Happening>,
    text: Seq<char>,
    key: Seq<char>,
    row: RowView,
)
    requires
        world.hooks.len() == 0,
        world.marker == Some(text),
        marker_in(text) == MarkerView::Ready(key),
        world.row == Some(row),
        row.amtr_key == Some(key),
        can_all_happen(world, happenings),
        forall|k: int| 0 <= k < happenings.len() ==> only_delivers(#[trigger] happenings[k]),
        after_all(world, happenings).hooks.len() > 0,
        forall|i: int|
            0 <= i < after_all(world, happenings).hooks.len() ==> (#[trigger] after_all(
                world,
                happenings,
            ).hooks[i]).phase is Finished,
    ensures
        ({
            let after = after_all(world, happenings);
            &&& deliveries(after.hooks, key) == 1
            &&& forall|i: int|
                0 <= i < after.hooks.len() ==> {
                    let hook = #[trigger] after.hooks[i];
                    &&& hook.phase == finished(
                        if has_delivered(hook, key) {
                            OutcomeView::Deliver(hook_output(hook.policy.event, row))
                        } else {
                            OutcomeView::Nothing
                        },
                    )
                    &&& hook.candidate is None
                    &&& hook.pending is None
                }
            &&& after.marker is None
            &&& after.deadline is None
            &&& after.row == Some(row)
        }),
{
    let after = after_all(world, happenings);
    lemma_ready_text(text, key);
    assert(is_delivering(world, text, row));
    lemma_delivering_goes_on(world, happenings, text, row);
    lemma_all_finished(after.hooks, key);
    assert(delivers_well(after.hooks[0], after, text, row));
    assert(after.marker is None);
    let winner = choose|i: int|
        0 <= i < after.hooks.len() && has_delivered(#[trigger] after.hooks[i], key);
    assert(delivers_well(after.hooks[winner], after, text, row));
    assert forall|i: int| 0 <= i < after.hooks.len() implies {
        let hook = #[trigger] after.hooks[i];
        &&& hook.phase == finished(
            if has_delivered(hook, key) {
                OutcomeView::Deliver(hook_output(hook.policy.event, row))
            } else {
                OutcomeView::Nothing
            },
        )
        &&& hook.candidate is None
        &&& hook.pending is None
    } by {
        assert(delivers_well(after.hooks[i], after, text, row));
    }
}

/// A key that was minted can be named by a marker, and a hook reads it out of
/// the marker again.
pub proof fn minted_keys_can_be_marked(millis: i64, random: u64)
    ensures
        can_be_marked(key_of(millis, random)),
        marker_in(ready_state(key_of(millis, random))) == MarkerView::Ready(
            key_of(millis, random),
        ),
{
    let key = key_of(millis, random);
    keys_can_be_read_out(millis, random);
    reveal_strlit("ready:");
    reveal_strlit("ongoing");
    let state = ready_state(key);
    assert(state[0] == 'r');
    assert("ongoing"@[0] == 'o');
    assert(state.last() == key[key.len() - 1]);
    solid_text_is_trimmed(state);
    assert(state.subrange(0, "ready:"@.len() as int) =~= "ready:"@);
    assert(state.skip("ready:"@.len() as int) =~= key);
}

/// What one process captures another delivers. Once a synthesis has saved a
/// snapshot and marked it ready, the session's row is that snapshot, and a hook
/// that reads the marker and the row, and that nothing disturbs, prints it for
/// its event.
pub proof fn what_was_captured_is_delivered(
    disk: Disk,
    setting: Setting,
    handoff: Seq<char>,
    last_ts: Option<Seq<char>>,
    millis: i64,
    random: u64,
    now: Seq<char>,
    policy: Policy,
)
    ensures
        ({
            let key = key_of(millis, random);
            let row = new_row(setting, handoff, last_ts, key, now);
            let saved = crate::disk::after_all(disk, saving(setting.base, row, setting.pid));
            let announced = crate::disk::after_all(
                saved,
                marking(setting.base, setting.session_id, ready_state(key), setting.pid),
            );
            let marker = state_on(announced, setting.base, setting.session_id);
            let found = row_on(announced, setting.base, setting.session_id);
            &&& marker is Some
            &&& found == Some(row)
            &&& course(
                policy,
                PhaseView::Observing,
                seq![
                    ReplyView::Text(marker->0),
                    ReplyView::Done,
                    ReplyView::Text(marker->0),
                    ReplyView::Row(found->0),
                    ReplyView::Done,
                    ReplyView::Missing,
                ],
            ) == finished(OutcomeView::Deliver(hook_output(policy.event, row)))
        }),
{
    let key = key_of(millis, random);
    let row = new_row(setting, handoff, last_ts, key, now);
    what_is_announced_can_be_delivered(disk, setting, row, key);
    minted_keys_can_be_marked(millis, random);
    an_undisturbed_hook_delivers(policy, ready_state(key), key, row, ReplyView::Missing);
}

} // verus!
