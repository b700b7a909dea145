//! Capture: which journal belongs to a session, the debt that a compaction
//! begins, and the worker that pays it with a new snapshot.

use vstd::prelude::*;

use crate::detach::Role;
use crate::disk::{Disk, Step, StepView, after_all, step_views};
use crate::extract::{
    AgentRun, Failed, FailedView, compose, composed, failed_with, run_result,
};
use crate::fault::{Fault, FaultView, message_of};
use crate::journal::{Host, Window, WindowView};
use crate::order::{Named, sort, sorted};
use crate::recall::{Operation, claim_path};
use crate::store::{
    Row, RowRead, RowReadView, RowView, Store, TextRead, TextReadView, cortex_in, deadline_at,
    is_valid_id, joined, key_of, marking, mint_key, ongoing_state, path_join, prompt_note,
    prompt_steps, prompt_text, ready_state, saving, slug, slug_of, unmarking, validate_session_id,
};
use crate::store_laws::{marking_sets_the_state, row_on, saving_overwrites, state_on};
use crate::text::{
    begins_with, blank, contains, copied, ends_with, has_part, has_prefix, is_blank, opt_view,
    strip_suffix, views,
};

verus! {

/// What a host says when it is about to compact a session.
pub struct Request {
    pub session_id: String,
    pub transcript_path: Option<String>,
    pub rollout_path: Option<String>,
}

impl Request {
    /// The journal that the host points at: the first of the two paths that is
    /// a file. Where neither is, the journal has to be looked for.
    pub fn journal(&self, transcript_is_file: bool, rollout_is_file: bool) -> (path: Option<&str>)
        ensures
            match path {
                Some(path) => if self.transcript_path is Some && transcript_is_file {
                    path@ == self.transcript_path->0@
                } else {
                    self.rollout_path is Some && rollout_is_file && path@ == self.rollout_path->0@
                },
                None => !(self.transcript_path is Some && transcript_is_file) && !(
                self.rollout_path is Some && rollout_is_file),
            },
    {
        if transcript_is_file {
            if let Some(path) = &self.transcript_path {
                return Some(path.as_str());
            }
        }
        if rollout_is_file {
            if let Some(path) = &self.rollout_path {
                return Some(path.as_str());
            }
        }
        None
    }
}

/// What a directory entry is.
#[derive(Clone, Copy, Debug, PartialEq, Eq, Structural)]
pub enum FileKind {
    File,
    Directory,
    Symlink,
    /// Something else, or it could not be told.
    Other,
}

/// An entry of a directory.
pub struct DirEntry {
    pub name: String,
    pub kind: FileKind,
}

impl Named for DirEntry {
    open spec fn name(self) -> Seq<char> {
        self.name@
    }

    fn name_text(&self) -> (text: &str) {
        self.name.as_str()
    }
}

/// Whether a directory entry is the journal of a session: a file that is called
/// so, with the extension of a journal.
pub open spec fn is_journal(entry: DirEntry, session_id: Seq<char>) -> bool {
    &&& entry.kind == FileKind::File
    &&& ends_with(entry.name@, ".jsonl"@)
    &&& entry.name@.len() > ".jsonl"@.len()
    &&& contains(entry.name@, session_id)
}

/// The first journal of a session among `entries`.
pub open spec fn first_journal(entries: Seq<DirEntry>, session_id: Seq<char>) -> Option<Seq<char>>
    decreases entries.len(),
{
    if entries.len() == 0 {
        None
    } else if is_journal(entries[0], session_id) {
        Some(entries[0].name@)
    } else {
        first_journal(entries.skip(1), session_id)
    }
}

/// The entries that come before the first journal of a session.
pub open spec fn before_journal(entries: Seq<DirEntry>, session_id: Seq<char>) -> Seq<DirEntry>
    decreases entries.len(),
{
    if entries.len() == 0 || is_journal(entries[0], session_id) {
        Seq::empty()
    } else {
        seq![entries[0]] + before_journal(entries.skip(1), session_id)
    }
}

/// The directories among `entries`, below `dir`. Links are not followed.
pub open spec fn directories_in(dir: Seq<char>, entries: Seq<DirEntry>) -> Seq<Seq<char>>
    decreases entries.len(),
{
    if entries.len() == 0 {
        Seq::empty()
    } else {
        let before = directories_in(dir, entries.drop_last());
        if entries.last().kind == FileKind::Directory {
            before.push(joined(dir, entries.last().name@))
        } else {
            before
        }
    }
}

/// A search for the journal of a session, for hosts that do not say where it
/// is.
pub struct JournalSearch {
    session_id: String,
    pending: Vec<String>,
}

impl JournalSearch {
    /// The session.
    pub closed spec fn session_id(self) -> Seq<char> {
        self.session_id@
    }

    /// The directories that have yet to be looked into; the last comes next.
    pub closed spec fn pending(self) -> Seq<Seq<char>> {
        views(self.pending@)
    }

    /// A search below `root`.
    pub fn find_codex_journal_under(root: &str, session_id: &str) -> (search: JournalSearch)
        ensures
            search.session_id() == session_id@,
            search.pending() == seq![root@],
    {
        let mut pending: Vec<String> = Vec::new();
        pending.push(copied(root));
        assert(views(pending@) =~= seq![root@]);
        JournalSearch { session_id: copied(session_id), pending }
    }

    /// A search below the directory in which that host keeps its journals.
    pub fn find_codex_journal(home: &str, session_id: &str) -> (search: JournalSearch)
        ensures
            search.session_id() == session_id@,
            search.pending() == seq![joined(home@, ".codex/sessions"@)],
    {
        let root = path_join(home, ".codex/sessions");
        JournalSearch::find_codex_journal_under(root.as_str(), session_id)
    }

    /// The directory to look into next. The search is over where there is none.
    pub fn next(&mut self) -> (dir: Option<String>)
        ensures
            final(self).session_id() == old(self).session_id(),
            match dir {
                Some(dir) => {
                    &&& old(self).pending().len() > 0
                    &&& dir@ == old(self).pending().last()
                    &&& final(self).pending() == old(self).pending().drop_last()
                },
                None => old(self).pending().len() == 0 && final(self).pending() == old(
                    self,
                ).pending(),
            },
    {
        let ghost before = self.pending@;
        match self.pending.pop() {
            Some(dir) => {
                assert(views(before).last() == before.last()@);
                assert(views(self.pending@) =~= views(before).drop_last());
                Some(dir)
            },
            None => None,
        }
    }

    /// Takes in the entries of `dir`. Returns the journal if it is among them;
    /// else its directories are looked into as well. A directory that cannot be
    /// read is one without entries.
    pub fn visit(&mut self, dir: &str, entries: Vec<DirEntry>) -> (journal: Option<String>)
        ensures
            final(self).session_id() == old(self).session_id(),
            match first_journal(sorted(entries@), old(self).session_id()) {
                Some(name) => {
                    &&& journal matches Some(path)
                    &&& path@ == joined(dir@, name)
                    &&& final(self).pending() == old(self).pending() + directories_in(
                        dir@,
                        before_journal(sorted(entries@), old(self).session_id()),
                    )
                },
                None => {
                    &&& journal is None
                    &&& final(self).pending() == old(self).pending() + directories_in(
                        dir@,
                        sorted(entries@),
                    )
                },
            },
    {
        let listed = sort(entries);
        let ghost all = listed@;
        let ghost before = self.pending();
        let mut i: usize = 0;
        assert(all.skip(0) =~= all);
        assert(all.take(0) =~= Seq::empty());
        assert(before + Seq::<Seq<char>>::empty() =~= before);
        assert(all.take(0) + before_journal(all, self.session_id()) =~= before_journal(
            all,
            self.session_id(),
        ));
        while i < listed.len()
            invariant
                i <= listed.len(),
                listed@ == all,
                all == sorted(entries@),
                self.session_id() == old(self).session_id(),
                before == old(self).pending(),
                self.pending() == before + directories_in(dir@, all.take(i as int)),
                first_journal(all, self.session_id()) == first_journal(
                    all.skip(i as int),
                    self.session_id(),
                ),
                before_journal(all, self.session_id()) == all.take(i as int) + before_journal(
                    all.skip(i as int),
                    self.session_id(),
                ),
            decreases listed.len() - i,
        {
            assert(all.skip(i as int)[0] == all[i as int]);
            assert(all.skip(i as int).skip(1) =~= all.skip(i + 1));
            assert(all.take(i + 1).drop_last() =~= all.take(i as int));
            let entry = &listed[i];
            let ghost old_pending = self.pending@;
            if entry.kind == FileKind::Directory {
                let path = path_join(dir, entry.name.as_str());
                let ghost added = path@;
                self.pending.push(path);
                assert(views(self.pending@) =~= views(old_pending).push(added));
                let ghost dirs = directories_in(dir@, all.take(i as int));
                assert((before + dirs).push(added) =~= before + dirs.push(added));
            } else if entry.kind == FileKind::File {
                let is_named = match strip_suffix(entry.name.as_str(), ".jsonl") {
                    Some(stem) => !stem.as_str().is_empty(),
                    None => false,
                };
                if is_named && has_part(entry.name.as_str(), self.session_id.as_str()) {
                    assert(is_journal(all.skip(i as int)[0], self.session_id()));
                    assert(before_journal(all, self.session_id()) =~= all.take(i as int));
                    return Some(path_join(dir, entry.name.as_str()));
                }
            }
            proof {
                let rest = before_journal(all.skip(i + 1), self.session_id());
                assert(all.take(i as int) + (seq![all[i as int]] + rest) =~= all.take(i + 1)
                    + rest);
            }
            i = i + 1;
        }
        assert(all.take(i as int) =~= all);
        None
    }
}

/// The directories below a root that can be read, with their entries.
pub type DirTree = Map<Seq<char>, Seq<DirEntry>>;

/// The entries of a directory. One that cannot be read has none.
pub open spec fn entries_of(tree: DirTree, dir: Seq<char>) -> Seq<DirEntry> {
    if tree.dom().contains(dir) {
        sorted(tree[dir])
    } else {
        sorted(Seq::empty())
    }
}

/// Whether the directory `to` is found from `from` by going down `steps` times.
pub open spec fn leads_to(tree: DirTree, from: Seq<char>, to: Seq<char>, steps: nat) -> bool
    decreases steps,
{
    if steps == 0 {
        from == to
    } else {
        exists|below: Seq<char>| #[trigger]
            directories_in(from, entries_of(tree, from)).contains(below) && leads_to(
                tree,
                below,
                to,
                (steps - 1) as nat,
            )
    }
}

/// Whether none of the directories that were looked into holds the journal, and
/// each directory in them was looked into or is yet to be.
pub open spec fn is_thorough(
    tree: DirTree,
    session_id: Seq<char>,
    visited: Set<Seq<char>>,
    pending: Seq<Seq<char>>,
) -> bool {
    forall|dir: Seq<char>| #[trigger]
        visited.contains(dir) ==> {
            &&& first_journal(entries_of(tree, dir), session_id) is None
            &&& forall|below: Seq<char>| #[trigger]
                directories_in(dir, entries_of(tree, dir)).contains(below) ==> visited.contains(
                    below,
                ) || pending.contains(below)
        }
}

/// A search stays thorough as it goes on.
pub proof fn searching_stays_thorough(
    tree: DirTree,
    session_id: Seq<char>,
    visited: Set<Seq<char>>,
    pending: Seq<Seq<char>>,
)
    requires
        is_thorough(tree, session_id, visited, pending),
        pending.len() > 0,
        first_journal(entries_of(tree, pending.last()), session_id) is None,
    ensures
        is_thorough(
            tree,
            session_id,
            visited.insert(pending.last()),
            pending.drop_last() + directories_in(
                pending.last(),
                entries_of(tree, pending.last()),
            ),
        ),
{
    let next = pending.last();
    let found = directories_in(next, entries_of(tree, next));
    let later = pending.drop_last() + found;
    let now = visited.insert(next);
    assert forall|dir: Seq<char>| #[trigger] now.contains(dir) implies {
        &&& first_journal(entries_of(tree, dir), session_id) is None
        &&& forall|below: Seq<char>| #[trigger]
            directories_in(dir, entries_of(tree, dir)).contains(below) ==> now.contains(below)
                || later.contains(below)
    } by {
        assert forall|below: Seq<char>| #[trigger]
            directories_in(dir, entries_of(tree, dir)).contains(below) implies now.contains(below)
            || later.contains(below) by {
            if visited.contains(dir) {
                if pending.contains(below) && below != next {
                    let i = choose|i: int| 0 <= i < pending.len() && pending[i] == below;
                    assert(pending.drop_last()[i] == below);
                    assert(later[i] == below);
                }
            } else {
                let i = choose|i: int| 0 <= i < found.len() && found[i] == below;
                assert(later[pending.len() - 1 + i] == below);
            }
        }
    }
}

/// A search that has come to its end has missed nothing: no directory below the
/// root that can be reached holds the journal. One that could not be read has
/// hidden none of the others.
pub proof fn an_exhausted_search_has_missed_nothing(
    tree: DirTree,
    session_id: Seq<char>,
    visited: Set<Seq<char>>,
    root: Seq<char>,
    dir: Seq<char>,
    steps: nat,
)
    requires
        is_thorough(tree, session_id, visited, Seq::empty()),
        visited.contains(root),
        leads_to(tree, root, dir, steps),
    ensures
        visited.contains(dir),
        first_journal(entries_of(tree, dir), session_id) is None,
    decreases steps,
{
    if steps > 0 {
        let below = choose|below: Seq<char>| #[trigger]
            directories_in(root, entries_of(tree, root)).contains(below) && leads_to(
                tree,
                below,
                dir,
                (steps - 1) as nat,
            );
        assert(visited.contains(below));
        an_exhausted_search_has_missed_nothing(
            tree,
            session_id,
            visited,
            below,
            dir,
            (steps - 1) as nat,
        );
    }
}

/// Links lead nowhere: neither a journal nor a directory is found through one.
pub proof fn links_are_not_followed(dir: Seq<char>, entries: Seq<DirEntry>, session_id: Seq<char>)
    requires
        forall|i: int| 0 <= i < entries.len() ==> (#[trigger] entries[i]).kind == FileKind::Symlink,
    ensures
        first_journal(entries, session_id) is None,
        directories_in(dir, entries) == Seq::<Seq<char>>::empty(),
    decreases entries.len(),
{
    if entries.len() > 0 {
        let rest = entries.skip(1);
        let front = entries.drop_last();
        assert forall|i: int| 0 <= i < rest.len() implies (#[trigger] rest[i]).kind
            == FileKind::Symlink by {
            assert(rest[i] == entries[i + 1]);
        }
        assert forall|i: int| 0 <= i < front.len() implies (#[trigger] front[i]).kind
            == FileKind::Symlink by {
            assert(front[i] == entries[i]);
        }
        links_are_not_followed(dir, rest, session_id);
        links_are_not_followed(dir, front, session_id);
        assert(entries[0].kind == FileKind::Symlink);
        assert(entries[entries.len() - 1].kind == FileKind::Symlink);
    }
}

/// Whether a file of the store is left over from an earlier debt of a session:
/// a claim that was never finished.
pub open spec fn is_leftover(name: Seq<char>, session_id: Seq<char>) -> bool {
    let slug = slug_of(session_id);
    ||| begins_with(name, slug + ".marker.delivering."@)
    ||| begins_with(name, slug + ".marker.expiring."@)
    ||| begins_with(name, slug + ".deliver-deadline.publishing."@)
}

/// The steps that remove what is left over among `names`.
pub open spec fn sweeping(base: Seq<char>, session_id: Seq<char>, names: Seq<Seq<char>>) -> Seq<
    StepView,
>
    decreases names.len(),
{
    if names.len() == 0 {
        Seq::empty()
    } else {
        let before = sweeping(base, session_id, names.drop_last());
        if is_leftover(names.last(), session_id) {
            before.push(StepView::Remove(joined(cortex_in(base), names.last())))
        } else {
            before
        }
    }
}

/// What it takes to begin a debt. First comes `clear`, which has to succeed,
/// then `sweep`, of which every step is tried, then `mark`, which has to
/// succeed.
pub struct Debt {
    pub clear: Vec<Step>,
    pub sweep: Vec<Step>,
    pub mark: Vec<Step>,
}

/// Begins a new debt. Neither a deadline nor an unfinished claim of the debt
/// before it is carried into it, and its marker is there before the hook
/// returns. `names` are the files in the directory of rows and markers.
pub fn prepare_debt(store: &Store, session_id: &str, names: &Vec<String>, pid: u32) -> (debt: Debt)
    ensures
        step_views(debt.clear@) == seq![StepView::Remove(deadline_at(store@, session_id@))],
        step_views(debt.sweep@) == sweeping(store@, session_id@, views(names@)),
        step_views(debt.mark@) == marking(store@, session_id@, ongoing_state(), pid),
{
    let mut clear: Vec<Step> = Vec::new();
    clear.push(Step::Remove(store.deadline_path(session_id)));
    assert(step_views(clear@) =~= seq![StepView::Remove(deadline_at(store@, session_id@))]);
    let cortex = store.cortex();
    let mut delivering = slug(session_id);
    delivering.append(".marker.delivering.");
    let mut expiring = slug(session_id);
    expiring.append(".marker.expiring.");
    let mut publishing = slug(session_id);
    publishing.append(".deliver-deadline.publishing.");
    let mut sweep: Vec<Step> = Vec::new();
    let ghost all = views(names@);
    let mut i: usize = 0;
    assert(all.take(0) =~= Seq::empty());
    assert(step_views(sweep@) =~= Seq::empty());
    while i < names.len()
        invariant
            i <= names.len(),
            all == views(names@),
            cortex@ == cortex_in(store@),
            delivering@ == slug_of(session_id@) + ".marker.delivering."@,
            expiring@ == slug_of(session_id@) + ".marker.expiring."@,
            publishing@ == slug_of(session_id@) + ".deliver-deadline.publishing."@,
            step_views(sweep@) == sweeping(store@, session_id@, all.take(i as int)),
        decreases names.len() - i,
    {
        assert(all.take(i + 1).drop_last() =~= all.take(i as int));
        assert(all[i as int] == names@[i as int]@);
        let name = names[i].as_str();
        let ghost before = step_views(sweep@);
        if has_prefix(name, delivering.as_str()) || has_prefix(name, expiring.as_str())
            || has_prefix(name, publishing.as_str()) {
            sweep.push(Step::Remove(path_join(cortex.as_str(), name)));
            assert(step_views(sweep@) =~= before.push(
                StepView::Remove(joined(cortex_in(store@), name@)),
            ));
        }
        i = i + 1;
    }
    assert(all.take(i as int) =~= all);
    // What the marker said is let go: the new debt replaces the old one.
    let (_, mark) = store.mark_ongoing(session_id, TextRead::Missing, pid);
    Debt { clear, sweep, mark }
}

/// What a session's own files are called: neither its row nor its marker nor
/// its deadline is swept away.
pub proof fn sweeping_spares_the_session(session_id: Seq<char>)
    ensures
        !is_leftover(slug_of(session_id) + ".json"@, session_id),
        !is_leftover(slug_of(session_id) + ".marker"@, session_id),
        !is_leftover(slug_of(session_id) + ".deliver-deadline"@, session_id),
{
    reveal_strlit(".json");
    reveal_strlit(".marker");
    reveal_strlit(".deliver-deadline");
    reveal_strlit(".marker.delivering.");
    reveal_strlit(".marker.expiring.");
    reveal_strlit(".deliver-deadline.publishing.");
    let slug = slug_of(session_id);
    let n = slug.len() as int;
    lemma_prefix_agrees(slug + ".json"@, slug + ".marker.delivering."@, n + 1);
    lemma_prefix_agrees(slug + ".json"@, slug + ".marker.expiring."@, n + 1);
    lemma_prefix_agrees(slug + ".json"@, slug + ".deliver-deadline.publishing."@, n + 1);
    lemma_prefix_agrees(slug + ".deliver-deadline"@, slug + ".marker.delivering."@, n + 1);
    lemma_prefix_agrees(slug + ".deliver-deadline"@, slug + ".marker.expiring."@, n + 1);
    lemma_prefix_agrees(slug + ".marker"@, slug + ".deliver-deadline.publishing."@, n + 1);
}

proof fn lemma_prefix_agrees(text: Seq<char>, prefix: Seq<char>, i: int)
    requires
        0 <= i < prefix.len(),
    ensures
        begins_with(text, prefix) ==> i < text.len() && text[i] == prefix[i],
{
    if begins_with(text, prefix) {
        assert(text.subrange(0, prefix.len() as int)[i] == text[i]);
    }
}

/// Every claim file of a session is swept away by the next debt, so that none
/// of them is carried into it.
pub proof fn sweeping_takes_every_claim(session_id: Seq<char>, pid: u32, sequence: u64)
    ensures
        is_leftover(
            claim_path(slug_of(session_id) + ".marker"@, Operation::Delivering, pid, sequence),
            session_id,
        ),
        is_leftover(
            claim_path(slug_of(session_id) + ".marker"@, Operation::Expiring, pid, sequence),
            session_id,
        ),
        is_leftover(
            claim_path(
                slug_of(session_id) + ".deliver-deadline"@,
                Operation::Publishing,
                pid,
                sequence,
            ),
            session_id,
        ),
{
    reveal_strlit(".");
    reveal_strlit(".marker");
    reveal_strlit(".deliver-deadline");
    reveal_strlit("delivering");
    reveal_strlit("expiring");
    reveal_strlit("publishing");
    reveal_strlit(".marker.delivering.");
    reveal_strlit(".marker.expiring.");
    reveal_strlit(".deliver-deadline.publishing.");
    let slug = slug_of(session_id);
    let delivering = claim_path(slug + ".marker"@, Operation::Delivering, pid, sequence);
    let expiring = claim_path(slug + ".marker"@, Operation::Expiring, pid, sequence);
    let publishing = claim_path(slug + ".deliver-deadline"@, Operation::Publishing, pid, sequence);
    assert(".marker.delivering."@ =~= ".marker"@ + "."@ + "delivering"@ + "."@);
    assert(".marker.expiring."@ =~= ".marker"@ + "."@ + "expiring"@ + "."@);
    assert(".deliver-deadline.publishing."@ =~= ".deliver-deadline"@ + "."@ + "publishing"@ + "."@);
    assert(delivering.subrange(0, slug.len() as int + 19) =~= slug + ".marker.delivering."@);
    assert(expiring.subrange(0, slug.len() as int + 17) =~= slug + ".marker.expiring."@);
    assert(publishing.subrange(0, slug.len() as int + 29) =~= slug
        + ".deliver-deadline.publishing."@);
}

/// What a step of the synthesis brought.
pub enum Reply {
    /// It was done.
    Done,
    /// It failed.
    Failed(Fault),
    /// The names of the files in the directory of rows and markers.
    Names(Vec<String>),
    /// Which side of the detachment this is, and the process that it is.
    Role(Role, u32),
    /// The row of the session.
    Row(RowRead),
    /// The window of the journal.
    Window(Window),
    /// What the prompt file holds.
    Text(TextRead),
    /// What came of running the agent.
    Agent(AgentRun),
    /// The time in milliseconds, a random number, and the time as a stamp.
    Minted { millis: i64, random: u64, now: String },
}

/// What a step of the synthesis brought, as contracts speak of it.
pub enum ReplyView {
    Done,
    Failed(FaultView),
    Names(Seq<Seq<char>>),
    Role(Role, u32),
    Row(RowReadView),
    Window(WindowView),
    Text(TextReadView),
    Agent(Result<Seq<char>, FailedView>),
    Minted { millis: i64, random: u64, now: Seq<char> },
}

impl View for Reply {
    type V = ReplyView;

    open spec fn view(&self) -> ReplyView {
        match self {
            Reply::Done => ReplyView::Done,
            Reply::Failed(fault) => ReplyView::Failed(fault@),
            Reply::Names(names) => ReplyView::Names(views(names@)),
            Reply::Role(role, pid) => ReplyView::Role(*role, *pid),
            Reply::Row(read) => ReplyView::Row(read@),
            Reply::Window(window) => ReplyView::Window(window@),
            Reply::Text(read) => ReplyView::Text(read@),
            Reply::Agent(run) => ReplyView::Agent(run_result(*run)),
            Reply::Minted { millis, random, now } => ReplyView::Minted {
                millis: *millis,
                random: *random,
                now: now@,
            },
        }
    }
}

/// How a synthesis ends.
pub enum Ended {
    /// There is nothing to report to the caller.
    Quietly,
    /// It failed in a way that the caller hears of.
    Failed(Fault),
}

/// How a synthesis ends, as contracts speak of it.
pub enum EndedView {
    Quietly,
    Failed(FaultView),
}

impl View for Ended {
    type V = EndedView;

    open spec fn view(&self) -> EndedView {
        match self {
            Ended::Quietly => EndedView::Quietly,
            Ended::Failed(fault) => EndedView::Failed(fault@),
        }
    }
}

/// How far a synthesis has come.
pub enum Phase {
    /// Removing the deadline of the debt before.
    Clearing,
    /// Listing the files of the store.
    Listing,
    /// Removing what is left over from the debt before.
    Sweeping { names: Vec<String> },
    /// Marking the debt.
    Marking,
    /// Detaching from the host.
    Detaching,
    /// Leaving the directory that the session works in.
    Leaving,
    /// Reading the row of the session.
    Loading,
    /// Reading the journal since that row.
    Reading { prior: Option<Row> },
    /// Reading the prompt.
    Prompting { prior: Option<Row>, window: Window },
    /// Writing the prompt file.
    Writing { host: Host, input: String, last_ts: Option<String> },
    /// Making an empty directory for the agent.
    Scratching { host: Host, input: String, last_ts: Option<String> },
    /// Running the agent.
    Extracting { host: Host, input: String, last_ts: Option<String> },
    /// Naming the snapshot.
    Minting { handoff: String, last_ts: Option<String> },
    /// Saving the snapshot.
    Saving { row: Row, key: String },
    /// Marking the snapshot ready.
    Announcing { key: String },
    /// Withdrawing the debt.
    Dropping { ended: Ended },
    /// Done.
    Finished { ended: Ended },
}

/// How far a synthesis has come, as contracts speak of it.
pub enum PhaseView {
    Clearing,
    Listing,
    Sweeping { names: Seq<Seq<char>> },
    Marking,
    Detaching,
    Leaving,
    Loading,
    Reading { prior: Option<RowView> },
    Prompting { prior: Option<RowView>, window: WindowView },
    Writing { host: Host, input: Seq<char>, last_ts: Option<Seq<char>> },
    Scratching { host: Host, input: Seq<char>, last_ts: Option<Seq<char>> },
    Extracting { host: Host, input: Seq<char>, last_ts: Option<Seq<char>> },
    Minting { handoff: Seq<char>, last_ts: Option<Seq<char>> },
    Saving { row: RowView, key: Seq<char> },
    Announcing { key: Seq<char> },
    Dropping { ended: EndedView },
    Finished { ended: EndedView },
}

/// A row, if there is one, as contracts speak of it.
pub open spec fn row_view(row: Option<Row>) -> Option<RowView> {
    match row {
        Some(row) => Some(row@),
        None => None,
    }
}

impl View for Phase {
    type V = PhaseView;

    open spec fn view(&self) -> PhaseView {
        match self {
            Phase::Clearing => PhaseView::Clearing,
            Phase::Listing => PhaseView::Listing,
            Phase::Sweeping { names } => PhaseView::Sweeping { names: views(names@) },
            Phase::Marking => PhaseView::Marking,
            Phase::Detaching => PhaseView::Detaching,
            Phase::Leaving => PhaseView::Leaving,
            Phase::Loading => PhaseView::Loading,
            Phase::Reading { prior } => PhaseView::Reading { prior: row_view(*prior) },
            Phase::Prompting { prior, window } => PhaseView::Prompting {
                prior: row_view(*prior),
                window: window@,
            },
            Phase::Writing { host, input, last_ts } => PhaseView::Writing {
                host: *host,
                input: input@,
                last_ts: opt_view(*last_ts),
            },
            Phase::Scratching { host, input, last_ts } => PhaseView::Scratching {
                host: *host,
                input: input@,
                last_ts: opt_view(*last_ts),
            },
            Phase::Extracting { host, input, last_ts } => PhaseView::Extracting {
                host: *host,
                input: input@,
                last_ts: opt_view(*last_ts),
            },
            Phase::Minting { handoff, last_ts } => PhaseView::Minting {
                handoff: handoff@,
                last_ts: opt_view(*last_ts),
            },
            Phase::Saving { row, key } => PhaseView::Saving { row: row@, key: key@ },
            Phase::Announcing { key } => PhaseView::Announcing { key: key@ },
            Phase::Dropping { ended } => PhaseView::Dropping { ended: ended@ },
            Phase::Finished { ended } => PhaseView::Finished { ended: ended@ },
        }
    }
}

/// What there is to do.
pub enum Task {
    /// Perform the steps, up to the first that fails.
    Perform(Vec<Step>),
    /// Perform each of the steps, whatever becomes of the others.
    Attempt(Vec<Step>),
    /// List the directory of rows and markers.
    List,
    /// Detach from the host.
    Detach,
    /// Go to the directory of the store.
    Leave,
    /// Read the row of the session.
    Load,
    /// Read the window of the journal since this stamp.
    ReadWindow(Option<String>),
    /// Read the prompt file.
    ReadPrompt,
    /// Make an empty directory for the agent.
    MakeScratch,
    /// Run the agent of this host in that directory on this input.
    RunAgent(Host, String),
    /// Tell the time and draw a random number.
    Mint,
    /// There is nothing left to do.
    Finish,
}

/// What there is to do, as contracts speak of it.
pub enum TaskView {
    Perform(Seq<StepView>),
    Attempt(Seq<StepView>),
    List,
    Detach,
    Leave,
    Load,
    ReadWindow(Option<Seq<char>>),
    ReadPrompt,
    MakeScratch,
    RunAgent(Host, Seq<char>),
    Mint,
    Finish,
}

impl View for Task {
    type V = TaskView;

    open spec fn view(&self) -> TaskView {
        match self {
            Task::Perform(steps) => TaskView::Perform(step_views(steps@)),
            Task::Attempt(steps) => TaskView::Attempt(step_views(steps@)),
            Task::List => TaskView::List,
            Task::Detach => TaskView::Detach,
            Task::Leave => TaskView::Leave,
            Task::Load => TaskView::Load,
            Task::ReadWindow(since) => TaskView::ReadWindow(opt_view(*since)),
            Task::ReadPrompt => TaskView::ReadPrompt,
            Task::MakeScratch => TaskView::MakeScratch,
            Task::RunAgent(host, input) => TaskView::RunAgent(*host, input@),
            Task::Mint => TaskView::Mint,
            Task::Finish => TaskView::Finish,
        }
    }
}

/// What a synthesis goes by.
pub struct Setting {
    /// The directory of the store.
    pub base: Seq<char>,
    pub session_id: Seq<char>,
    /// The prompt for those who have not written their own.
    pub default_prompt: Seq<char>,
    pub pid: u32,
}

/// What there is to do in each phase.
pub open spec fn task_in(setting: Setting, phase: PhaseView) -> TaskView {
    match phase {
        PhaseView::Clearing => TaskView::Perform(
            seq![StepView::Remove(deadline_at(setting.base, setting.session_id))],
        ),
        PhaseView::Listing => TaskView::List,
        PhaseView::Sweeping { names } => TaskView::Attempt(
            sweeping(setting.base, setting.session_id, names),
        ),
        PhaseView::Marking => TaskView::Perform(
            marking(setting.base, setting.session_id, ongoing_state(), setting.pid),
        ),
        PhaseView::Detaching => TaskView::Detach,
        PhaseView::Leaving => TaskView::Leave,
        PhaseView::Loading => TaskView::Load,
        PhaseView::Reading { prior } => TaskView::ReadWindow(
            match prior {
                Some(row) => Some(row.compacted_at),
                None => None,
            },
        ),
        PhaseView::Prompting { prior, window } => TaskView::ReadPrompt,
        PhaseView::Writing { host, input, last_ts } => TaskView::Perform(
            prompt_steps(
                setting.base,
                TextReadView::Missing,
                setting.default_prompt,
                setting.pid,
            ),
        ),
        PhaseView::Scratching { host, input, last_ts } => TaskView::MakeScratch,
        PhaseView::Extracting { host, input, last_ts } => TaskView::RunAgent(host, input),
        PhaseView::Minting { handoff, last_ts } => TaskView::Mint,
        PhaseView::Saving { row, key } => TaskView::Perform(
            saving(setting.base, row, setting.pid),
        ),
        PhaseView::Announcing { key } => TaskView::Perform(
            marking(setting.base, setting.session_id, ready_state(key), setting.pid),
        ),
        PhaseView::Dropping { ended } => TaskView::Perform(
            unmarking(setting.base, setting.session_id),
        ),
        PhaseView::Finished { ended } => TaskView::Finish,
    }
}

/// The error of a reply that says no more than that something is wrong.
pub open spec fn fault_in(reply: ReplyView) -> FaultView {
    match reply {
        ReplyView::Failed(fault) => fault,
        _ => FaultView::Other("unexpected reply"@),
    }
}

/// A synthesis that has failed: its debt is withdrawn.
pub open spec fn dropping() -> PhaseView {
    PhaseView::Dropping { ended: EndedView::Quietly }
}

/// The row of the session as far as it is carried on. One that cannot be read
/// counts as none: the next row heals the store.
pub open spec fn carried(reply: ReplyView) -> Option<RowView> {
    match reply {
        ReplyView::Row(RowReadView::Found(row)) => Some(row),
        _ => None,
    }
}

/// What reading the prompt file brought.
pub open spec fn prompt_read(reply: ReplyView) -> TextReadView {
    match reply {
        ReplyView::Text(read) => read,
        _ => TextReadView::Failed(fault_in(reply)),
    }
}

/// What the agent is asked.
pub open spec fn agent_input(
    setting: Setting,
    prior: Option<RowView>,
    window: WindowView,
    reply: ReplyView,
) -> Seq<char> {
    composed(
        prompt_text(prompt_read(reply), setting.default_prompt),
        match prior {
            Some(row) => Some(row.handoff),
            None => None,
        },
        window.text,
    )
}

/// The snapshot that a synthesis makes. Its boundary is where the window ended.
pub open spec fn new_row(
    setting: Setting,
    handoff: Seq<char>,
    last_ts: Option<Seq<char>>,
    key: Seq<char>,
    now: Seq<char>,
) -> RowView {
    RowView {
        session_id: setting.session_id,
        amtr_key: Some(key),
        handoff,
        compacted_at: match last_ts {
            Some(at) => at,
            None => now,
        },
    }
}

/// How a synthesis goes on from `phase` once what there was to do has brought
/// `reply`.
pub open spec fn next(setting: Setting, phase: PhaseView, reply: ReplyView) -> PhaseView {
    match phase {
        PhaseView::Clearing => match reply {
            ReplyView::Done => PhaseView::Listing,
            _ => PhaseView::Finished { ended: EndedView::Failed(fault_in(reply)) },
        },
        PhaseView::Listing => match reply {
            ReplyView::Names(names) => PhaseView::Sweeping { names },
            _ => PhaseView::Sweeping { names: Seq::empty() },
        },
        PhaseView::Sweeping { names } => PhaseView::Marking,
        PhaseView::Marking => match reply {
            ReplyView::Done => PhaseView::Detaching,
            _ => PhaseView::Finished { ended: EndedView::Failed(fault_in(reply)) },
        },
        PhaseView::Detaching => match reply {
            ReplyView::Role(Role::Caller, _) => PhaseView::Finished { ended: EndedView::Quietly },
            ReplyView::Role(Role::Worker, _) => PhaseView::Leaving,
            _ => dropping(),
        },
        PhaseView::Leaving => PhaseView::Loading,
        PhaseView::Loading => PhaseView::Reading { prior: carried(reply) },
        PhaseView::Reading { prior } => match reply {
            ReplyView::Window(window) if !is_blank(window.text) => PhaseView::Prompting {
                prior,
                window,
            },
            _ => dropping(),
        },
        PhaseView::Prompting { prior, window } => {
            let input = agent_input(setting, prior, window, reply);
            if prompt_read(reply) is Missing {
                PhaseView::Writing { host: window.host, input, last_ts: window.last_ts }
            } else {
                PhaseView::Scratching { host: window.host, input, last_ts: window.last_ts }
            }
        },
        PhaseView::Writing { host, input, last_ts } => PhaseView::Scratching {
            host,
            input,
            last_ts,
        },
        PhaseView::Scratching { host, input, last_ts } => match reply {
            ReplyView::Done => PhaseView::Extracting { host, input, last_ts },
            _ => dropping(),
        },
        PhaseView::Extracting { host, input, last_ts } => match reply {
            ReplyView::Agent(Ok(handoff)) => PhaseView::Minting { handoff, last_ts },
            _ => dropping(),
        },
        PhaseView::Minting { handoff, last_ts } => match reply {
            ReplyView::Minted { millis, random, now } => PhaseView::Saving {
                row: new_row(setting, handoff, last_ts, key_of(millis, random), now),
                key: key_of(millis, random),
            },
            _ => dropping(),
        },
        PhaseView::Saving { row, key } => match reply {
            ReplyView::Done => PhaseView::Announcing { key },
            _ => dropping(),
        },
        PhaseView::Announcing { key } => match reply {
            ReplyView::Done => PhaseView::Finished { ended: EndedView::Quietly },
            _ => PhaseView::Dropping { ended: EndedView::Failed(fault_in(reply)) },
        },
        PhaseView::Dropping { ended } => PhaseView::Finished { ended },
        PhaseView::Finished { ended } => phase,
    }
}

/// What a synthesis goes by once `reply` has come in `phase`: the worker is a
/// process of its own.
pub open spec fn setting_after(setting: Setting, phase: PhaseView, reply: ReplyView) -> Setting {
    match (phase, reply) {
        (PhaseView::Detaching, ReplyView::Role(Role::Worker, pid)) => Setting { pid, ..setting },
        _ => setting,
    }
}

/// What the log says of a failure.
pub open spec fn failure(why: Seq<char>) -> Option<Seq<char>> {
    Some("no snapshot written: "@ + why)
}

/// What the log says, if anything, when `reply` has come in `phase`.
pub open spec fn note_on(setting: Setting, phase: PhaseView, reply: ReplyView) -> Option<
    Seq<char>,
> {
    match phase {
        PhaseView::Detaching => match reply {
            ReplyView::Role(Role::Caller, _) => None,
            ReplyView::Role(Role::Worker, _) => None,
            _ => Some("could not detach; giving up this window"@),
        },
        PhaseView::Leaving => match reply {
            ReplyView::Done => None,
            _ => Some(
                "could not move the detached parent to the store directory before scratch setup: "@
                    + message_of(fault_in(reply)),
            ),
        },
        PhaseView::Loading => match reply {
            ReplyView::Row(RowReadView::Missing) => None,
            ReplyView::Row(RowReadView::Found(_)) => None,
            ReplyView::Row(RowReadView::Failed(fault)) => Some(
                "prior handoff unreadable, carrying nothing: "@ + message_of(fault),
            ),
            ReplyView::Row(RowReadView::Garbled(why)) => Some(
                "prior handoff unreadable, carrying nothing: "@ + (
                "stored row is not readable: "@ + why),
            ),
            _ => Some(
                "prior handoff unreadable, carrying nothing: "@ + message_of(fault_in(reply)),
            ),
        },
        PhaseView::Reading { prior } => match reply {
            ReplyView::Window(window) => if is_blank(window.text) {
                Some("nothing new since the previous compaction"@)
            } else {
                None
            },
            _ => failure("could not read the journal: "@ + message_of(fault_in(reply))),
        },
        PhaseView::Prompting { prior, window } => prompt_note(setting.base, prompt_read(reply)),
        PhaseView::Writing { host, input, last_ts } => match reply {
            ReplyView::Done => None,
            _ => Some(
                "could not write "@ + joined(setting.base, "prompt.md"@) + ": "@ + message_of(
                    fault_in(reply),
                ),
            ),
        },
        PhaseView::Scratching { host, input, last_ts } => match reply {
            ReplyView::Done => None,
            _ => failure("could not make a working directory: "@ + message_of(fault_in(reply))),
        },
        PhaseView::Extracting { host, input, last_ts } => match reply {
            ReplyView::Agent(Ok(_)) => None,
            ReplyView::Agent(Err(FailedView::Vacuous)) => Some(
                "nothing new since the previous compaction"@,
            ),
            ReplyView::Agent(Err(FailedView::Failed(why))) => failure(why),
            _ => failure(message_of(fault_in(reply))),
        },
        PhaseView::Minting { handoff, last_ts } => match reply {
            ReplyView::Minted { millis, random, now } => None,
            _ => failure(message_of(fault_in(reply))),
        },
        PhaseView::Saving { row, key } => match reply {
            ReplyView::Done => None,
            _ => failure("could not store the snapshot: "@ + message_of(fault_in(reply))),
        },
        PhaseView::Announcing { key } => match reply {
            ReplyView::Done => None,
            _ => Some(
                "extracted, but could not mark deliverable — the row at "@ + setting.session_id
                    + " is stranded until the next compaction: "@ + message_of(fault_in(reply)),
            ),
        },
        PhaseView::Dropping { ended } => match reply {
            ReplyView::Done => None,
            _ => Some(
                "could not clear the marker for "@ + setting.session_id
                    + "; later hooks may wait out the delivery budget until it is gone: "@
                    + message_of(fault_in(reply)),
            ),
        },
        _ => None,
    }
}

fn fault_of(reply: Reply) -> (fault: Fault)
    ensures
        fault@ == fault_in(reply@),
{
    match reply {
        Reply::Failed(fault) => fault,
        _ => Fault::Other(copied("unexpected reply")),
    }
}

fn said(what: &str, fault: &Fault) -> (note: Option<String>)
    ensures
        opt_view(note) == Some(what@ + message_of(fault@)),
{
    let mut note = copied(what);
    note.append(fault.message().as_str());
    Some(note)
}

fn give_up(what: &str, reply: Reply) -> (given_up: (Phase, Option<String>))
    ensures
        given_up.0@ == dropping(),
        opt_view(given_up.1) == failure(what@ + message_of(fault_in(reply@))),
{
    let failed = failed_with(what, &fault_of(reply));
    (Phase::Dropping { ended: Ended::Quietly }, Some(failed.message()))
}

fn carry(reply: Reply) -> (carried: (Option<Row>, Option<String>))
    ensures
        row_view(carried.0) == self::carried(reply@),
        forall|setting: Setting|
            opt_view(carried.1) == #[trigger] note_on(setting, PhaseView::Loading, reply@),
{
    let read = match reply {
        Reply::Row(read) => read,
        other => RowRead::Failed(fault_of(other)),
    };
    match Store::load(read) {
        Ok(row) => (row, None),
        Err(fault) => (None, said("prior handoff unreadable, carrying nothing: ", &fault)),
    }
}

/// A synthesis at work.
pub struct Synthesis {
    store: Store,
    session_id: String,
    default_prompt: String,
    pid: u32,
    phase: Phase,
}

impl Synthesis {
    /// What the synthesis goes by.
    pub closed spec fn setting(self) -> Setting {
        Setting {
            base: self.store@,
            session_id: self.session_id@,
            default_prompt: self.default_prompt@,
            pid: self.pid,
        }
    }

    /// How far it has come.
    pub closed spec fn phase(self) -> PhaseView {
        self.phase@
    }

    /// A synthesis for a session that is about to be compacted.
    pub fn synthesize(store: Store, session_id: &str, default_prompt: &str, pid: u32) -> (synthesis:
        Synthesis)
        ensures
            synthesis.setting() == (Setting {
                base: store@,
                session_id: session_id@,
                default_prompt: default_prompt@,
                pid,
            }),
            synthesis.phase() == PhaseView::Clearing,
    {
        Synthesis {
            store,
            session_id: copied(session_id),
            default_prompt: copied(default_prompt),
            pid,
            phase: Phase::Clearing,
        }
    }

    /// What there is to do.
    pub fn task(&self) -> (task: Task)
        ensures
            task@ == task_in(self.setting(), self.phase()),
    {
        let session_id = self.session_id.as_str();
        match &self.phase {
            Phase::Clearing => {
                let none: Vec<String> = Vec::new();
                Task::Perform(prepare_debt(&self.store, session_id, &none, self.pid).clear)
            },
            Phase::Listing => Task::List,
            Phase::Sweeping { names } => Task::Attempt(
                prepare_debt(&self.store, session_id, names, self.pid).sweep,
            ),
            Phase::Marking => {
                let none: Vec<String> = Vec::new();
                Task::Perform(prepare_debt(&self.store, session_id, &none, self.pid).mark)
            },
            Phase::Detaching => Task::Detach,
            Phase::Leaving => Task::Leave,
            Phase::Loading => Task::Load,
            Phase::Reading { prior } => Task::ReadWindow(
                match prior {
                    Some(row) => Some(copied(row.compacted_at.as_str())),
                    None => None,
                },
            ),
            Phase::Prompting { prior, window } => Task::ReadPrompt,
            Phase::Writing { host, input, last_ts } => Task::Perform(
                self.store.extraction_prompt(
                    TextRead::Missing,
                    self.default_prompt.as_str(),
                    self.pid,
                ).steps,
            ),
            Phase::Scratching { host, input, last_ts } => Task::MakeScratch,
            Phase::Extracting { host, input, last_ts } => Task::RunAgent(
                *host,
                copied(input.as_str()),
            ),
            Phase::Minting { handoff, last_ts } => Task::Mint,
            Phase::Saving { row, key } => Task::Perform(self.store.save(row.copy(), self.pid)),
            Phase::Announcing { key } => Task::Perform(
                self.store.mark_ready(session_id, key.as_str(), self.pid),
            ),
            Phase::Dropping { ended } => Task::Perform(self.store.unmark(session_id)),
            Phase::Finished { ended } => Task::Finish,
        }
    }

    fn ask(&self, prior: Option<Row>, window: Window, reply: Reply) -> (asked: (
        Phase,
        Option<String>,
    ))
        ensures
            asked.0@ == next(
                self.setting(),
                PhaseView::Prompting { prior: row_view(prior), window: window@ },
                reply@,
            ),
            opt_view(asked.1) == note_on(
                self.setting(),
                PhaseView::Prompting { prior: row_view(prior), window: window@ },
                reply@,
            ),
    {
        let read = match reply {
            Reply::Text(read) => read,
            other => TextRead::Failed(fault_of(other)),
        };
        let is_missing = match &read {
            TextRead::Missing => true,
            _ => false,
        };
        let prompt = self.store.extraction_prompt(read, self.default_prompt.as_str(), self.pid);
        let handoff = match &prior {
            Some(row) => Some(row.handoff.as_str()),
            None => None,
        };
        let input = compose(prompt.text.as_str(), handoff, window.text.as_str());
        let host = window.host;
        let last_ts = window.last_ts;
        let phase = if is_missing {
            Phase::Writing { host, input, last_ts }
        } else {
            Phase::Scratching { host, input, last_ts }
        };
        (phase, prompt.note)
    }

    fn name_snapshot(&self, handoff: String, last_ts: Option<String>, reply: Reply) -> (named: (
        Phase,
        Option<String>,
    ))
        ensures
            named.0@ == next(
                self.setting(),
                PhaseView::Minting { handoff: handoff@, last_ts: opt_view(last_ts) },
                reply@,
            ),
            opt_view(named.1) == note_on(
                self.setting(),
                PhaseView::Minting { handoff: handoff@, last_ts: opt_view(last_ts) },
                reply@,
            ),
    {
        match reply {
            Reply::Minted { millis, random, now } => {
                let key = mint_key(millis, random);
                let row = Row {
                    session_id: copied(self.session_id.as_str()),
                    amtr_key: Some(copied(key.as_str())),
                    handoff,
                    compacted_at: match last_ts {
                        Some(at) => at,
                        None => now,
                    },
                };
                (Phase::Saving { row, key }, None)
            },
            other => {
                proof {
                    reveal_strlit("");
                    assert(""@ + message_of(fault_in(other@)) =~= message_of(fault_in(other@)));
                }
                give_up("", other)
            },
        }
    }

    fn take_answer(&self, last_ts: Option<String>, reply: Reply) -> (taken: (
        Phase,
        Option<String>,
    ))
        ensures
            forall|host: Host, input: Seq<char>|
                #![trigger next(
                    self.setting(),
                    PhaseView::Extracting { host, input, last_ts: opt_view(last_ts) },
                    reply@,
                )]
                taken.0@ == next(
                    self.setting(),
                    PhaseView::Extracting { host, input, last_ts: opt_view(last_ts) },
                    reply@,
                ),
            forall|host: Host, input: Seq<char>|
                #![trigger note_on(
                    self.setting(),
                    PhaseView::Extracting { host, input, last_ts: opt_view(last_ts) },
                    reply@,
                )]
                opt_view(taken.1) == note_on(
                    self.setting(),
                    PhaseView::Extracting { host, input, last_ts: opt_view(last_ts) },
                    reply@,
                ),
    {
        match reply {
            Reply::Agent(run) => match crate::extract::run(run) {
                Ok(handoff) => (Phase::Minting { handoff, last_ts }, None),
                Err(failed) => (
                    Phase::Dropping { ended: Ended::Quietly },
                    Some(failed.message()),
                ),
            },
            other => {
                proof {
                    reveal_strlit("");
                    assert(""@ + message_of(fault_in(other@)) =~= message_of(fault_in(other@)));
                }
                give_up("", other)
            },
        }
    }

    fn step(&self, phase: Phase, reply: Reply) -> (after: (Phase, Option<String>))
        ensures
            after.0@ == next(self.setting(), phase@, reply@),
            opt_view(after.1) == note_on(self.setting(), phase@, reply@),
    {
        match phase {
            Phase::Clearing => match reply {
                Reply::Done => (Phase::Listing, None),
                other => (Phase::Finished { ended: Ended::Failed(fault_of(other)) }, None),
            },
            Phase::Listing => match reply {
                Reply::Names(names) => (Phase::Sweeping { names }, None),
                _ => {
                    let names: Vec<String> = Vec::new();
                    assert(views(names@) =~= Seq::empty());
                    (Phase::Sweeping { names }, None)
                },
            },
            Phase::Sweeping { names } => (Phase::Marking, None),
            Phase::Marking => match reply {
                Reply::Done => (Phase::Detaching, None),
                other => (Phase::Finished { ended: Ended::Failed(fault_of(other)) }, None),
            },
            Phase::Detaching => match reply {
                Reply::Role(Role::Caller, _) => (Phase::Finished { ended: Ended::Quietly }, None),
                Reply::Role(Role::Worker, _) => (Phase::Leaving, None),
                _ => (
                    Phase::Dropping { ended: Ended::Quietly },
                    Some(copied("could not detach; giving up this window")),
                ),
            },
            Phase::Leaving => match reply {
                Reply::Done => (Phase::Loading, None),
                other => (
                    Phase::Loading,
                    said(
                        "could not move the detached parent to the store directory before scratch setup: ",
                        &fault_of(other),
                    ),
                ),
            },
            Phase::Loading => {
                let (prior, note) = carry(reply);
                proof {
                    let _ = note_on(self.setting(), PhaseView::Loading, reply@);
                }
                (Phase::Reading { prior }, note)
            },
            Phase::Reading { prior } => match reply {
                Reply::Window(window) => if blank(window.text.as_str()) {
                    let vacuous = Failed::Vacuous;
                    (Phase::Dropping { ended: Ended::Quietly }, Some(vacuous.message()))
                } else {
                    (Phase::Prompting { prior, window }, None)
                },
                other => give_up("could not read the journal: ", other),
            },
            Phase::Prompting { prior, window } => self.ask(prior, window, reply),
            Phase::Writing { host, input, last_ts } => {
                let note = match reply {
                    Reply::Done => None,
                    other => {
                        let mut what = copied("could not write ");
                        what.append(self.store.prompt_path().as_str());
                        what.append(": ");
                        said(what.as_str(), &fault_of(other))
                    },
                };
                (Phase::Scratching { host, input, last_ts }, note)
            },
            Phase::Scratching { host, input, last_ts } => match reply {
                Reply::Done => (Phase::Extracting { host, input, last_ts }, None),
                other => give_up("could not make a working directory: ", other),
            },
            Phase::Extracting { host, input, last_ts } => self.take_answer(last_ts, reply),
            Phase::Minting { handoff, last_ts } => self.name_snapshot(handoff, last_ts, reply),
            Phase::Saving { row, key } => match reply {
                Reply::Done => (Phase::Announcing { key }, None),
                other => give_up("could not store the snapshot: ", other),
            },
            Phase::Announcing { key } => match reply {
                Reply::Done => (Phase::Finished { ended: Ended::Quietly }, None),
                other => {
                    let mut what = copied(
                        "extracted, but could not mark deliverable — the row at ",
                    );
                    what.append(self.session_id.as_str());
                    what.append(" is stranded until the next compaction: ");
                    let fault = fault_of(other);
                    let note = said(what.as_str(), &fault);
                    (Phase::Dropping { ended: Ended::Failed(fault) }, note)
                },
            },
            Phase::Dropping { ended } => {
                let note = match reply {
                    Reply::Done => None,
                    other => {
                        let mut what = copied("could not clear the marker for ");
                        what.append(self.session_id.as_str());
                        what.append(
                            "; later hooks may wait out the delivery budget until it is gone: ",
                        );
                        said(what.as_str(), &fault_of(other))
                    },
                };
                (Phase::Finished { ended }, note)
            },
            Phase::Finished { ended } => (Phase::Finished { ended }, None),
        }
    }

    /// Takes in what the last task brought. The second result is a line for the
    /// log.
    pub fn advance(self, reply: Reply) -> (after: (Synthesis, Option<String>))
        ensures
            after.0.setting() == setting_after(self.setting(), self.phase(), reply@),
            after.0.phase() == next(self.setting(), self.phase(), reply@),
            opt_view(after.1) == note_on(self.setting(), self.phase(), reply@),
    {
        let Synthesis { store, session_id, default_prompt, pid, phase } = self;
        let own_pid: u32 = match (&phase, &reply) {
            (Phase::Detaching, Reply::Role(Role::Worker, worker)) => *worker,
            _ => pid,
        };
        let idle = Synthesis {
            store,
            session_id,
            default_prompt,
            pid,
            phase: Phase::Finished { ended: Ended::Quietly },
        };
        let (phase, note) = idle.step(phase, reply);
        let Synthesis { store, session_id, default_prompt, pid: _, phase: _ } = idle;
        (Synthesis { store, session_id, default_prompt, pid: own_pid, phase }, note)
    }

    /// How the synthesis ended, once it has.
    pub fn finish(self) -> (ended: Option<Ended>)
        ensures
            match (self.phase(), ended) {
                (PhaseView::Finished { ended }, Some(out)) => out@ == ended,
                (PhaseView::Finished { ended }, None) => false,
                (_, None) => true,
                _ => false,
            },
    {
        match self.phase {
            Phase::Finished { ended } => Some(ended),
            _ => None,
        }
    }
}

/// Begins a synthesis for what a host says. `journal` is the journal that was
/// found for it. The second result is that journal.
pub fn run(
    request: &Request,
    journal: Option<String>,
    store: Store,
    default_prompt: &str,
    pid: u32,
) -> (begun: Result<(Synthesis, String), Fault>)
    ensures
        match begun {
            Ok((synthesis, path)) => {
                &&& is_valid_id(request.session_id@)
                &&& journal is Some
                &&& path@ == journal->0@
                &&& synthesis.setting() == (Setting {
                    base: store@,
                    session_id: request.session_id@,
                    default_prompt: default_prompt@,
                    pid,
                })
                &&& synthesis.phase() == PhaseView::Clearing
            },
            Err(fault) => if !is_valid_id(request.session_id@) {
                fault@ == FaultView::InvalidInput("invalid session id"@)
            } else {
                journal is None && fault@ == FaultView::NotFound("host payload names no journal"@)
            },
        },
{
    let session_id = request.session_id.as_str();
    match validate_session_id(session_id) {
        Ok(()) => match journal {
            Some(path) => Ok((Synthesis::synthesize(store, session_id, default_prompt, pid), path)),
            None => Err(Fault::NotFound(copied("host payload names no journal"))),
        },
        Err(fault) => Err(fault),
    }
}

/// Whether the debt is marked `ongoing` and this process answers for it.
pub open spec fn answers_for_debt(phase: PhaseView) -> bool {
    match phase {
        PhaseView::Clearing => false,
        PhaseView::Listing => false,
        PhaseView::Sweeping { names } => false,
        PhaseView::Marking => false,
        PhaseView::Finished { ended } => false,
        _ => true,
    }
}

/// No synthesis leaves a debt behind that nobody will pay. Once the debt is
/// marked, the synthesis ends in one of three ways: the hook's own process
/// hands over to the worker, the snapshot is marked ready, or the debt has been
/// withdrawn.
pub proof fn no_debt_is_left_behind(setting: Setting, phase: PhaseView, reply: ReplyView)
    requires
        answers_for_debt(phase),
        next(setting, phase, reply) is Finished,
    ensures
        ({
            ||| phase is Detaching && (reply matches ReplyView::Role(Role::Caller, _))
            ||| phase is Announcing && reply is Done
            ||| phase is Dropping
        }),
        phase is Dropping ==> task_in(setting, phase) == TaskView::Perform(
            unmarking(setting.base, setting.session_id),
        ),
{
}

/// The debt is marked before the process detaches, so that a hook that runs
/// before the worker does finds it.
pub proof fn the_debt_is_marked_first(setting: Setting, phase: PhaseView, reply: ReplyView)
    requires
        next(setting, phase, reply) is Detaching,
    ensures
        phase is Marking,
        reply is Done,
        task_in(setting, phase) == TaskView::Perform(
            marking(setting.base, setting.session_id, ongoing_state(), setting.pid),
        ),
{
}

/// A snapshot is marked ready only once it has been saved, under the name that
/// it was saved with.
pub proof fn only_saved_snapshots_are_announced(
    setting: Setting,
    phase: PhaseView,
    reply: ReplyView,
)
    ensures
        next(setting, phase, reply) matches PhaseView::Announcing { key } ==> reply is Done
            && (phase matches PhaseView::Saving { row, key: saved } && saved == key),
        next(setting, phase, reply) matches PhaseView::Saving { row, key } ==> row.amtr_key == Some(
            key,
        ) && row.session_id == setting.session_id,
{
}

/// Where the journal holds nothing new, no agent is run.
pub proof fn an_empty_window_runs_no_agent(
    setting: Setting,
    prior: Option<RowView>,
    window: WindowView,
)
    requires
        is_blank(window.text),
    ensures
        next(setting, PhaseView::Reading { prior }, ReplyView::Window(window)) == dropping(),
{
}

/// Where a synthesis is after some replies.
pub open spec fn course(setting: Setting, phase: PhaseView, replies: Seq<ReplyView>) -> PhaseView
    decreases replies.len(),
{
    if replies.len() == 0 {
        phase
    } else {
        next(setting, course(setting, phase, replies.drop_last()), replies.last())
    }
}

/// A worker that nothing disturbs saves a snapshot of what the agent made of
/// the window, whose boundary is where the window ended, and marks it ready.
pub proof fn an_undisturbed_worker_saves_and_announces(
    setting: Setting,
    prior: RowView,
    window: WindowView,
    prompt: Seq<char>,
    handoff: Seq<char>,
    millis: i64,
    random: u64,
    now: Seq<char>,
)
    requires
        !is_blank(window.text),
        !is_blank(prompt),
    ensures
        ({
            let replies = seq![
                ReplyView::Row(RowReadView::Found(prior)),
                ReplyView::Window(window),
                ReplyView::Text(TextReadView::Text(prompt)),
                ReplyView::Done,
                ReplyView::Agent(Ok(handoff)),
                ReplyView::Minted { millis, random, now },
                ReplyView::Done,
                ReplyView::Done,
            ];
            let start = PhaseView::Loading;
            let key = key_of(millis, random);
            &&& task_in(setting, course(setting, start, replies.take(1))) == TaskView::ReadWindow(
                Some(prior.compacted_at),
            )
            &&& task_in(setting, course(setting, start, replies.take(4))) == TaskView::RunAgent(
                window.host,
                composed(prompt, Some(prior.handoff), window.text),
            )
            &&& course(setting, start, replies.take(6)) == (PhaseView::Saving {
                row: new_row(setting, handoff, window.last_ts, key, now),
                key,
            })
            &&& course(setting, start, replies.take(7)) == (PhaseView::Announcing { key })
            &&& course(setting, start, replies) == (PhaseView::Finished {
                ended: EndedView::Quietly,
            })
        }),
{
    let replies = seq![
        ReplyView::Row(RowReadView::Found(prior)),
        ReplyView::Window(window),
        ReplyView::Text(TextReadView::Text(prompt)),
        ReplyView::Done,
        ReplyView::Agent(Ok(handoff)),
        ReplyView::Minted { millis, random, now },
        ReplyView::Done,
        ReplyView::Done,
    ];
    assert(replies.take(8) =~= replies);
    assert(replies.take(8).drop_last() =~= replies.take(7));
    assert(replies.take(7).drop_last() =~= replies.take(6));
    assert(replies.take(6).drop_last() =~= replies.take(5));
    assert(replies.take(5).drop_last() =~= replies.take(4));
    assert(replies.take(4).drop_last() =~= replies.take(3));
    assert(replies.take(3).drop_last() =~= replies.take(2));
    assert(replies.take(2).drop_last() =~= replies.take(1));
    assert(replies.take(1).drop_last() =~= replies.take(0));
    let start = PhaseView::Loading;
    let key = key_of(millis, random);
    let host = window.host;
    let last_ts = window.last_ts;
    let input = composed(prompt, Some(prior.handoff), window.text);
    assert(course(setting, start, replies.take(0)) == start);
    assert(course(setting, start, replies.take(1)) == (PhaseView::Reading { prior: Some(prior) }));
    assert(course(setting, start, replies.take(2)) == (PhaseView::Prompting {
        prior: Some(prior),
        window,
    }));
    assert(course(setting, start, replies.take(3)) == (PhaseView::Scratching {
        host,
        input,
        last_ts,
    }));
    assert(course(setting, start, replies.take(4)) == (PhaseView::Extracting {
        host,
        input,
        last_ts,
    }));
    assert(course(setting, start, replies.take(5)) == (PhaseView::Minting { handoff, last_ts }));
    assert(course(setting, start, replies.take(6)) == (PhaseView::Saving {
        row: new_row(setting, handoff, last_ts, key, now),
        key,
    }));
    assert(course(setting, start, replies.take(7)) == (PhaseView::Announcing { key }));
}

/// What a synthesis announces can be delivered: once the snapshot is saved and
/// marked ready, the row of the session is that snapshot, and the marker names
/// it.
pub proof fn what_is_announced_can_be_delivered(
    disk: Disk,
    setting: Setting,
    row: RowView,
    key: Seq<char>,
)
    requires
        row.session_id == setting.session_id,
        row.amtr_key == Some(key),
    ensures
        ({
            let saved = after_all(disk, saving(setting.base, row, setting.pid));
            let announced = after_all(
                saved,
                marking(setting.base, setting.session_id, ready_state(key), setting.pid),
            );
            &&& row_on(announced, setting.base, setting.session_id) == Some(row)
            &&& state_on(announced, setting.base, setting.session_id) == Some(ready_state(key))
        }),
{
    let saved = after_all(disk, saving(setting.base, row, setting.pid));
    saving_overwrites(disk, setting.base, row, setting.session_id, setting.pid);
    marking_sets_the_state(
        saved,
        setting.base,
        setting.session_id,
        ready_state(key),
        setting.session_id,
        setting.pid,
    );
}

} // verus!
