//! Cuts the window since the last compaction out of a host's session journal.
//!
//! Transcripts and rollouts are both lines of JSON with a top-level RFC 3339
//! `timestamp`, so one rule serves both; the host is told apart only to know
//! which of them can read the journal back.

use std::collections::VecDeque;
use vstd::prelude::*;

use crate::clock::{Instant, instant_of, is_not_after, not_after, parse_instant};
use crate::fault::Fault;
use crate::json::{Json, Tree, field, parse_json, parsed_tree, text_in};
use crate::lines::{
    BoundedLines, Fill, Pulled, bounded_lines, chunks_do_not_matter, drained, line_text,
};
use crate::text::{
    chars_of, contains, copied, copy_range, is_space, join, lines, lines_of, occurs_at, opt_view,
    push_chars, same, solid_text_is_trimmed, text_of, trim_chars, trimmed, trimming_is_stable,
    views,
};

verus! {

/// Which host wrote a journal, hence which one can read it back.
#[derive(Clone, Copy, Debug, PartialEq, Eq, Structural)]
pub enum Host {
    Claude,
    Codex,
}

/// A cut of a journal.
#[derive(Debug)]
pub struct Window {
    pub host: Host,
    /// Flattened transcript of the window, oldest first.
    pub text: String,
    /// Timestamp of the last record in the window. It is the boundary of the
    /// next one, which starts exactly where this one ended.
    pub last_ts: Option<String>,
}

/// The most characters that one entry is rendered with.
pub const MAX_ENTRY_CHARS: usize = 4_000;

/// The most characters of transcript in a window. The tail is what still
/// matters at a context boundary.
pub const MAX_WINDOW_CHARS: usize = 300_000;

/// The most characters of transcript that are held while a journal is read.
pub const MAX_HELD_CHARS: usize = 600_000;

/// The part of a record that holds its prose: a rollout wraps it in `payload`.
pub open spec fn body_of(record: Tree) -> Tree {
    match field(record, "payload"@) {
        Some(body) => body,
        None => record,
    }
}

/// Who speaks in a record.
pub open spec fn role_of(record: Tree) -> Seq<char> {
    let body = body_of(record);
    let inner = match field(body, "message"@) {
        Some(message) => field(message, "role"@),
        None => None,
    };
    let role = match inner {
        Some(role) => Some(role),
        None => field(body, "role"@),
    };
    match text_in(role) {
        Some(role) => role,
        None => match text_in(field(body, "type"@)) {
            Some(kind) => kind,
            None => match text_in(field(record, "type"@)) {
                Some(kind) => kind,
                None => "entry"@,
            },
        },
    }
}

/// The names of the fields whose text is prose.
pub open spec fn is_prose_key(key: Seq<char>) -> bool {
    ||| key == "text"@
    ||| key == "content"@
    ||| key == "command"@
    ||| key == "description"@
    ||| key == "reasoning"@
}

/// The prose in a value, piece by piece, each without the white space around
/// it. Text under any other name is not prose: identifiers, paths and encoded
/// blobs stay out.
pub open spec fn pieces(value: Tree) -> Seq<Seq<char>>
    decreases value,
{
    match value {
        Tree::Object(fields) => {
            proof {
                assert(decreases_to!(value => value->Object_0));
            }
            field_pieces(fields)
        },
        Tree::Array(items) => {
            proof {
                assert(decreases_to!(value => value->Array_0));
            }
            item_pieces(items)
        },
        _ => Seq::empty(),
    }
}

/// The prose in the fields of an object, in their order.
pub open spec fn field_pieces(fields: Seq<(Seq<char>, Tree)>) -> Seq<Seq<char>>
    decreases fields,
{
    if fields.len() == 0 {
        Seq::empty()
    } else {
        let last = fields[fields.len() - 1];
        proof {
            assert(decreases_to!(fields => fields[fields.len() - 1]));
            assert(decreases_to!(fields[fields.len() - 1] => fields[fields.len() - 1].1));
        }
        field_pieces(fields.subrange(0, fields.len() - 1)) + (if last.1 is Text && is_prose_key(
            last.0,
        ) {
            solid(last.1->Text_0)
        } else {
            pieces(fields[fields.len() - 1].1)
        })
    }
}

/// The prose in the items of an array, in their order.
pub open spec fn item_pieces(items: Seq<Tree>) -> Seq<Seq<char>>
    decreases items,
{
    if items.len() == 0 {
        Seq::empty()
    } else {
        proof {
            assert(decreases_to!(items => items[items.len() - 1]));
        }
        item_pieces(items.subrange(0, items.len() - 1)) + pieces(items[items.len() - 1])
    }
}

/// One piece of prose, or none where `text` is blank.
pub open spec fn solid(text: Seq<char>) -> Seq<Seq<char>> {
    if trimmed(text).len() == 0 {
        Seq::empty()
    } else {
        seq![trimmed(text)]
    }
}

/// `text` with each of `more` on a line of its own below it.
pub open spec fn with_lines(text: Seq<char>, more: Seq<Seq<char>>) -> Seq<char>
    decreases more.len(),
{
    if more.len() == 0 {
        text
    } else {
        let above = with_lines(text, more.drop_last());
        if above.len() == 0 {
            more.last()
        } else {
            above + "\n"@ + more.last()
        }
    }
}

/// `text`, cut after `max` characters with a note that it was cut.
pub open spec fn truncated(text: Seq<char>, max: int) -> Seq<char> {
    if text.len() <= max {
        text
    } else {
        text.take(max) + "…[truncated]"@
    }
}

/// What a record contributes to the transcript, if it holds any prose.
pub open spec fn entry_of(record: Tree) -> Option<Seq<char>> {
    let prose = trimmed(with_lines(Seq::empty(), pieces(body_of(record))));
    if prose.len() == 0 {
        None
    } else {
        Some("["@ + role_of(record) + "] "@ + truncated(prose, MAX_ENTRY_CHARS as int))
    }
}

proof fn lemma_with_lines_append(text: Seq<char>, a: Seq<Seq<char>>, b: Seq<Seq<char>>)
    ensures
        with_lines(text, a + b) == with_lines(with_lines(text, a), b),
    decreases b.len(),
{
    if b.len() == 0 {
        assert(a + b =~= a);
    } else {
        lemma_with_lines_append(text, a, b.drop_last());
        assert((a + b).drop_last() =~= a + b.drop_last());
    }
}

fn is_prose(key: &str) -> (prose: bool)
    ensures
        prose == is_prose_key(key@),
{
    same(key, "text") || same(key, "content") || same(key, "command") || same(key, "description")
        || same(key, "reasoning")
}

fn push_line(out: &mut Vec<char>, text: &str)
    ensures
        final(out)@ == with_lines(old(out)@, solid(text@)),
{
    let piece = trim_chars(text);
    let ghost before = out@;
    if piece.len() > 0 {
        assert(seq![piece@].drop_last() =~= Seq::empty());
        assert(with_lines(before, seq![piece@]) == (if before.len() == 0 {
            piece@
        } else {
            before + "\n"@ + piece@
        })) by {
            assert(with_lines(before, Seq::empty()) == before);
        }
        proof {
            reveal_strlit("\n");
        }
        if out.len() > 0 {
            out.push('\n');
        }
        let ghost head = out@;
        push_chars(out, &piece);
        assert(before.len() > 0 ==> head =~= before + "\n"@);
        assert(out@ =~= with_lines(before, seq![piece@]));
    }
}

/// Collects the prose of a value, a piece to a line.
fn harvest(value: &Json, out: &mut Vec<char>)
    ensures
        final(out)@ == with_lines(old(out)@, pieces(value.tree())),
    decreases value.tree(),
{
    let ghost start = out@;
    match value {
        Json::Object(fields) => {
            let ghost trees = value.tree()->Object_0;
            let mut i: usize = 0;
            while i < fields.len()
                invariant
                    i <= fields.len(),
                    *value == Json::Object(*fields),
                    trees == value.tree()->Object_0,
                    trees.len() == fields.len(),
                    out@ == with_lines(start, field_pieces(trees.subrange(0, i as int))),
                decreases fields.len() - i,
            {
                let ghost before = out@;
                let (key, inner) = &fields[i];
                let ghost upto = trees.subrange(0, i + 1);
                proof {
                    assert(trees[i as int] == (key@, inner.tree()));
                    assert(upto.subrange(0, i as int) =~= trees.subrange(0, i as int));
                    assert(decreases_to!(value.tree() => value.tree()->Object_0));
                    assert(decreases_to!(trees => trees[i as int]));
                    assert(decreases_to!(trees[i as int] => trees[i as int].1));
                }
                match inner {
                    Json::Text(text) if is_prose(key.as_str()) => {
                        push_line(out, text.as_str());
                        proof {
                            lemma_with_lines_append(
                                start,
                                field_pieces(trees.subrange(0, i as int)),
                                solid(text@),
                            );
                        }
                    },
                    _ => {
                        harvest(inner, out);
                        proof {
                            lemma_with_lines_append(
                                start,
                                field_pieces(trees.subrange(0, i as int)),
                                pieces(inner.tree()),
                            );
                        }
                    },
                }
                i = i + 1;
            }
            assert(trees.subrange(0, i as int) =~= trees);
        },
        Json::Array(items) => {
            let ghost trees = value.tree()->Array_0;
            let mut i: usize = 0;
            while i < items.len()
                invariant
                    i <= items.len(),
                    *value == Json::Array(*items),
                    trees == value.tree()->Array_0,
                    trees.len() == items.len(),
                    out@ == with_lines(start, item_pieces(trees.subrange(0, i as int))),
                decreases items.len() - i,
            {
                let ghost upto = trees.subrange(0, i + 1);
                proof {
                    assert(trees[i as int] == items@[i as int].tree());
                    assert(upto.subrange(0, i as int) =~= trees.subrange(0, i as int));
                    assert(decreases_to!(value.tree() => value.tree()->Array_0));
                    assert(decreases_to!(trees => trees[i as int]));
                    lemma_with_lines_append(
                        start,
                        item_pieces(trees.subrange(0, i as int)),
                        pieces(items@[i as int].tree()),
                    );
                }
                harvest(&items[i], out);
                i = i + 1;
            }
            assert(trees.subrange(0, i as int) =~= trees);
        },
        _ => {},
    }
}

/// Cuts `text` after `max` characters.
pub fn truncate(text: &Vec<char>, max: usize) -> (out: Vec<char>)
    ensures
        out@ == truncated(text@, max as int),
{
    if text.len() <= max {
        let whole = copy_range(text, 0, text.len());
        assert(whole@ =~= text@);
        return whole;
    }
    let mut out = copy_range(text, 0, max);
    push_chars(&mut out, &chars_of("…[truncated]"));
    assert(text@.subrange(0, max as int) =~= text@.take(max as int));
    out
}

fn role(record: &Json, body: &Json) -> (role: String)
    requires
        body.tree() == body_of(record.tree()),
    ensures
        role@ == role_of(record.tree()),
{
    let inner = match body.get("message") {
        Some(message) => message.get("role"),
        None => None,
    };
    let named = match inner {
        Some(role) => Some(role),
        None => body.get("role"),
    };
    if let Some(named) = named {
        if let Some(role) = named.as_str() {
            return copied(role);
        }
    }
    if let Some(kind) = body.get("type") {
        if let Some(kind) = kind.as_str() {
            return copied(kind);
        }
    }
    if let Some(kind) = record.get("type") {
        if let Some(kind) = kind.as_str() {
            return copied(kind);
        }
    }
    copied("entry")
}

/// Flattens one record to its role and its prose. Both hosts nest their prose
/// in objects of different shapes, so it is found by field name.
pub fn render(record: &Json) -> (entry: Option<Vec<char>>)
    ensures
        match entry {
            Some(entry) => entry_of(record.tree()) == Some(entry@),
            None => entry_of(record.tree()) is None,
        },
{
    let body = match record.get("payload") {
        Some(body) => body,
        None => record,
    };
    let role = role(record, body);
    let mut prose: Vec<char> = Vec::new();
    harvest(body, &mut prose);
    let prose = trim_chars(text_of(prose.as_slice()).as_str());
    if prose.len() == 0 {
        return None;
    }
    let mut entry = chars_of("[");
    push_chars(&mut entry, &chars_of(role.as_str()));
    push_chars(&mut entry, &chars_of("] "));
    push_chars(&mut entry, &truncate(&prose, MAX_ENTRY_CHARS));
    Some(entry)
}

/// Which host a record shows, if it shows one. Rollout lines wrap everything
/// in `payload`; transcript lines carry `sessionId` at the top.
pub open spec fn detected(record: Tree) -> Option<Host> {
    if field(record, "payload"@) matches Some(body) && body is Object {
        Some(Host::Codex)
    } else if field(record, "sessionId"@) is Some {
        Some(Host::Claude)
    } else {
        None
    }
}

/// Tells which host wrote a record, where the record shows it.
pub fn detect(record: &Json) -> (host: Option<Host>)
    ensures
        host == detected(record.tree()),
{
    if let Some(body) = record.get("payload") {
        if body.is_object() {
            return Some(Host::Codex);
        }
    }
    match record.get("sessionId") {
        Some(_) => Some(Host::Claude),
        None => None,
    }
}

/// The record in a line of a journal, if there is one.
pub open spec fn record_in(line: Seq<char>) -> Option<Tree> {
    if trimmed(line).len() == 0 {
        None
    } else {
        parsed_tree(trimmed(line))
    }
}

/// The timestamp of a record, where it has one that can be read.
pub open spec fn stamp_in(record: Tree) -> Option<Seq<char>> {
    match text_in(field(record, "timestamp"@)) {
        Some(stamp) => if instant_of(stamp) is Some {
            Some(stamp)
        } else {
            None
        },
        None => None,
    }
}

/// Whether an instant lies after the boundary.
pub open spec fn is_newer(at: Instant, since: Option<Instant>) -> bool {
    match since {
        Some(boundary) => !not_after(at, boundary),
        None => true,
    }
}

/// The record in a line, where it belongs to the window: it has a time, and
/// that time lies after the boundary.
pub open spec fn is_in_window(line: Seq<char>, since: Option<Instant>) -> bool {
    match record_in(line) {
        Some(record) => match stamp_in(record) {
            Some(stamp) => is_newer(instant_of(stamp)->0, since),
            None => false,
        },
        None => false,
    }
}

/// What has been found in a journal so far.
pub struct Cut {
    /// The host that the first telling record shows.
    pub host: Option<Host>,
    /// The timestamp of the last record in the window.
    pub last_ts: Option<Seq<char>>,
    /// What the records in the window contribute, oldest first.
    pub entries: Seq<Seq<char>>,
}

/// What has been found once `line` has been read too.
pub open spec fn with_line(cut: Cut, line: Seq<char>, since: Option<Instant>) -> Cut {
    match record_in(line) {
        None => cut,
        Some(record) => Cut {
            host: match cut.host {
                Some(host) => Some(host),
                None => detected(record),
            },
            last_ts: if is_in_window(line, since) {
                stamp_in(record)
            } else {
                cut.last_ts
            },
            entries: match entry_of(record) {
                Some(entry) if is_in_window(line, since) => cut.entries.push(entry),
                _ => cut.entries,
            },
        },
    }
}

/// What is found in the lines of a journal.
pub open spec fn cut_of(lines: Seq<Seq<char>>, since: Option<Instant>) -> Cut
    decreases lines.len(),
{
    if lines.len() == 0 {
        Cut { host: None, last_ts: None, entries: Seq::empty() }
    } else {
        with_line(cut_of(lines.drop_last(), since), lines.last(), since)
    }
}

/// How many characters `entries` have together.
pub open spec fn total(entries: Seq<Seq<char>>) -> nat
    decreases entries.len(),
{
    if entries.len() == 0 {
        0
    } else {
        entries[0].len() + total(entries.skip(1))
    }
}

/// The longest tail of `entries` with at most `max` characters.
pub open spec fn tail(entries: Seq<Seq<char>>, max: nat) -> Seq<Seq<char>>
    decreases entries.len(),
{
    if entries.len() == 0 || total(entries) <= max {
        entries
    } else {
        tail(entries.skip(1), max)
    }
}

/// The note in place of what was dropped.
pub open spec fn dropped_note() -> Seq<char> {
    "[... earlier entries dropped ...]\n"@
}

/// The transcript of a window: the entries that are still held, with a blank
/// line between them, and of those the last characters. A note says when
/// something is missing.
pub open spec fn transcript(entries: Seq<Seq<char>>) -> Seq<char> {
    let held = tail(entries, MAX_HELD_CHARS as nat);
    let joined = join(held, "\n\n"@);
    if joined.len() > MAX_WINDOW_CHARS {
        dropped_note() + joined.skip(joined.len() - MAX_WINDOW_CHARS)
    } else if held.len() < entries.len() {
        dropped_note() + joined
    } else {
        joined
    }
}

/// A window, as contracts speak of it.
pub struct WindowView {
    pub host: Host,
    pub text: Seq<char>,
    pub last_ts: Option<Seq<char>>,
}

impl View for Window {
    type V = WindowView;

    open spec fn view(&self) -> WindowView {
        WindowView { host: self.host, text: self.text@, last_ts: opt_view(self.last_ts) }
    }
}

/// The window that a journal comes to. A journal that shows no host is taken
/// for a transcript.
pub open spec fn window_of(cut: Cut) -> WindowView {
    WindowView {
        host: match cut.host {
            Some(host) => host,
            None => Host::Claude,
        },
        text: transcript(cut.entries),
        last_ts: cut.last_ts,
    }
}

/// The boundary that a text stands for. One that cannot be read is none.
pub open spec fn boundary(since: Option<&str>) -> Option<Instant> {
    match since {
        Some(since) => instant_of(since@),
        None => None,
    }
}

proof fn lemma_total_push(entries: Seq<Seq<char>>, entry: Seq<char>)
    ensures
        total(entries.push(entry)) == total(entries) + entry.len(),
    decreases entries.len(),
{
    if entries.len() == 0 {
        assert(entries.push(entry).skip(1) =~= Seq::empty());
        assert(total(Seq::<Seq<char>>::empty()) == 0);
    } else {
        lemma_total_push(entries.skip(1), entry);
        assert(entries.push(entry).skip(1) =~= entries.skip(1).push(entry));
    }
}

proof fn lemma_tail_push(entries: Seq<Seq<char>>, entry: Seq<char>, max: nat)
    ensures
        tail(entries.push(entry), max) == tail(tail(entries, max).push(entry), max),
    decreases entries.len(),
{
    if entries.len() > 0 && total(entries) > max {
        lemma_total_push(entries, entry);
        lemma_tail_push(entries.skip(1), entry, max);
        assert(entries.push(entry).skip(1) =~= entries.skip(1).push(entry));
    }
}

pub(crate) proof fn lemma_tail(entries: Seq<Seq<char>>, max: nat)
    ensures
        tail(entries, max).len() <= entries.len(),
        tail(entries, max) == entries.skip(entries.len() - tail(entries, max).len()),
        total(tail(entries, max)) <= max,
    decreases entries.len(),
{
    if entries.len() > 0 && total(entries) > max {
        lemma_tail(entries.skip(1), max);
        let held = tail(entries, max);
        assert(entries.skip(1).skip(entries.len() - 1 - held.len()) =~= entries.skip(
            entries.len() - held.len(),
        ));
    } else {
        assert(entries.skip(0) =~= entries);
    }
}

proof fn lemma_tail_of_long_entry(entries: Seq<Seq<char>>, entry: Seq<char>, max: nat)
    requires
        entry.len() > max,
    ensures
        tail(entries.push(entry), max) == Seq::<Seq<char>>::empty(),
    decreases entries.len(),
{
    lemma_total_push(entries, entry);
    if entries.len() == 0 {
        assert(entries.push(entry).skip(1) =~= Seq::empty());
        assert(tail(Seq::<Seq<char>>::empty(), max) == Seq::<Seq<char>>::empty());
    } else {
        lemma_tail_of_long_entry(entries.skip(1), entry, max);
        assert(entries.push(entry).skip(1) =~= entries.skip(1).push(entry));
    }
}

/// What the entries hold.
pub open spec fn entry_views(entries: Seq<Vec<char>>) -> Seq<Seq<char>> {
    entries.map_values(|entry: Vec<char>| entry@)
}

/// Collects the window while the lines of a journal go by. Only the tail that
/// can still matter is held, however long the journal is.
pub struct WindowBuilder {
    since: Option<Instant>,
    host: Option<Host>,
    held: VecDeque<Vec<char>>,
    held_chars: usize,
    dropped: bool,
    last_ts: Option<String>,
    entries: Ghost<Seq<Seq<char>>>,
}

impl WindowBuilder {
    /// The boundary of the window.
    pub closed spec fn since(self) -> Option<Instant> {
        self.since
    }

    /// What has been found so far.
    pub closed spec fn cut(self) -> Cut {
        Cut { host: self.host, last_ts: opt_view(self.last_ts), entries: self.entries@ }
    }

    /// What is held is the tail of what was found, and its size is known.
    pub closed spec fn well_formed(self) -> bool {
        let held = entry_views(self.held@);
        &&& held == tail(self.entries@, MAX_HELD_CHARS as nat)
        &&& self.held_chars == total(held)
        &&& self.held_chars <= MAX_HELD_CHARS
        &&& self.dropped == (held.len() < self.entries@.len())
    }

    /// A builder that has seen no line yet.
    pub fn new(since: Option<&str>) -> (builder: WindowBuilder)
        ensures
            builder.well_formed(),
            builder.since() == boundary(since),
            builder.cut() == cut_of(Seq::empty(), boundary(since)),
    {
        let since = match since {
            Some(since) => parse_instant(since),
            None => None,
        };
        let builder = WindowBuilder {
            since,
            host: None,
            held: VecDeque::new(),
            held_chars: 0,
            dropped: false,
            last_ts: None,
            entries: Ghost(Seq::empty()),
        };
        assert(entry_views(builder.held@) =~= Seq::empty());
        builder
    }

    fn hold(&mut self, entry: Vec<char>)
        requires
            old(self).well_formed(),
        ensures
            final(self).well_formed(),
            final(self).since() == old(self).since(),
            final(self).cut() == (Cut {
                entries: old(self).cut().entries.push(entry@),
                ..old(self).cut()
            }),
    {
        let ghost all = self.entries@.push(entry@);
        let ghost before = entry_views(self.held@);
        proof {
            lemma_tail_push(self.entries@, entry@, MAX_HELD_CHARS as nat);
            lemma_total_push(before, entry@);
            lemma_tail(self.entries@, MAX_HELD_CHARS as nat);
            lemma_tail(all, MAX_HELD_CHARS as nat);
            self.entries@ = all;
        }
        if entry.len() > MAX_HELD_CHARS {
            proof {
                lemma_tail_of_long_entry(all.drop_last(), entry@, MAX_HELD_CHARS as nat);
                assert(all.drop_last().push(entry@) =~= all);
            }
            self.held = VecDeque::new();
            self.held_chars = 0;
            self.dropped = true;
            assert(entry_views(self.held@) =~= Seq::empty());
            return;
        }
        self.held_chars = self.held_chars + entry.len();
        self.held.push_back(entry);
        assert(entry_views(self.held@) =~= before.push(entry@));
        while self.held_chars > MAX_HELD_CHARS
            invariant
                self.entries@ == all,
                self.since == old(self).since,
                self.host == old(self).host,
                self.last_ts == old(self).last_ts,
                tail(all, MAX_HELD_CHARS as nat) == tail(
                    entry_views(self.held@),
                    MAX_HELD_CHARS as nat,
                ),
                self.held_chars == total(entry_views(self.held@)),
                self.held@.len() <= all.len(),
                self.dropped == (self.held@.len() < all.len()),
            decreases self.held@.len(),
        {
            let ghost held = entry_views(self.held@);
            match self.held.pop_front() {
                Some(front) => {
                    assert(held[0] == front@);
                    assert(entry_views(self.held@) =~= held.skip(1));
                    self.held_chars = self.held_chars - front.len();
                    self.dropped = true;
                },
                None => {
                    assert(false);
                },
            }
        }
    }

    /// Takes in the next line. A line that cannot be read is passed over.
    pub fn push_line(&mut self, line: &str)
        requires
            old(self).well_formed(),
        ensures
            final(self).well_formed(),
            final(self).since() == old(self).since(),
            final(self).cut() == with_line(old(self).cut(), line@, old(self).since()),
    {
        let line = trim_chars(line);
        if line.len() == 0 {
            return;
        }
        let record = match parse_json(text_of(line.as_slice()).as_str()) {
            Some(record) => record,
            None => {
                return;
            },
        };
        if self.host.is_none() {
            self.host = detect(&record);
        }
        let stamp = match record.get("timestamp") {
            Some(stamp) => match stamp.as_str() {
                Some(stamp) => stamp,
                None => {
                    return;
                },
            },
            None => {
                return;
            },
        };
        let at = match parse_instant(stamp) {
            Some(at) => at,
            None => {
                return;
            },
        };
        if let Some(boundary) = self.since {
            if is_not_after(at, boundary) {
                return;
            }
        }
        self.last_ts = Some(copied(stamp));
        if let Some(entry) = render(&record) {
            self.hold(entry);
        }
    }

    /// The window, once every line has gone by.
    pub fn finish(self) -> (window: Window)
        requires
            self.well_formed(),
        ensures
            window@ == window_of(self.cut()),
    {
        let ghost held = entry_views(self.held@);
        let mut joined: Vec<char> = Vec::new();
        let blank = chars_of("\n\n");
        let mut i: usize = 0;
        assert(held.take(0) =~= Seq::empty());
        while i < self.held.len()
            invariant
                i <= self.held.len(),
                held == entry_views(self.held@),
                blank@ == "\n\n"@,
                joined@ == join(held.take(i as int), "\n\n"@),
            decreases self.held.len() - i,
        {
            assert(held.take(i + 1).drop_last() =~= held.take(i as int));
            assert(held[i as int] == self.held@[i as int]@);
            if i > 0 {
                push_chars(&mut joined, &blank);
            } else {
                assert(joined@ =~= Seq::empty());
            }
            push_chars(&mut joined, &self.held[i]);
            assert(i == 0 ==> joined@ =~= held[0]);
            i = i + 1;
        }
        assert(held.take(i as int) =~= held);
        let mut text: Vec<char> = Vec::new();
        if joined.len() > MAX_WINDOW_CHARS {
            push_chars(&mut text, &chars_of("[... earlier entries dropped ...]\n"));
            push_chars(
                &mut text,
                &copy_range(&joined, joined.len() - MAX_WINDOW_CHARS, joined.len()),
            );
            assert(text@ =~= transcript(self.entries@));
        } else {
            if self.dropped {
                push_chars(&mut text, &chars_of("[... earlier entries dropped ...]\n"));
            }
            push_chars(&mut text, &joined);
            assert(text@ =~= transcript(self.entries@));
        }
        Window {
            host: match self.host {
                Some(host) => host,
                None => Host::Claude,
            },
            text: text_of(text.as_slice()),
            last_ts: self.last_ts,
        }
    }
}

/// How a list of lines came out: the lines, or the first error among them.
pub open spec fn first_error(lines: Seq<Result<String, Fault>>) -> Option<int>
    decreases lines.len(),
{
    if lines.len() == 0 {
        None
    } else if lines[0] is Err {
        Some(0)
    } else {
        match first_error(lines.skip(1)) {
            Some(at) => Some(at + 1),
            None => None,
        }
    }
}

/// The lines that did not fail.
pub open spec fn good_lines(lines: Seq<Result<String, Fault>>) -> Seq<Seq<char>> {
    lines.map_values(|line: Result<String, Fault>| (line->Ok_0)@)
}

/// Cuts the window out of the lines of a journal. An error among the lines is
/// the result: a window that silently lacks its tail would be worse.
pub fn slice_lines(lines: Vec<Result<String, Fault>>, since: Option<&str>) -> (window: Result<
    Window,
    Fault,
>)
    ensures
        match window {
            Ok(window) => {
                &&& first_error(lines@) is None
                &&& window@ == window_of(cut_of(good_lines(lines@), boundary(since)))
            },
            Err(fault) => {
                &&& first_error(lines@) matches Some(at)
                &&& 0 <= at < lines@.len()
                &&& lines@[at] == Err::<String, Fault>(fault)
            },
        },
{
    let ghost all = lines@;
    let ghost good = good_lines(all);
    let mut builder = WindowBuilder::new(since);
    assert(good.take(0) =~= Seq::empty());
    assert(all.skip(0) =~= all);
    for line in it: lines
        invariant
            it.seq() == all,
            all == lines@,
            good == good_lines(all),
            first_error(all) == (match first_error(all.skip(it.index() as int)) {
                Some(at) => Some(at + it.index()),
                None => None,
            }),
            builder.well_formed(),
            builder.since() == boundary(since),
            builder.cut() == cut_of(good.take(it.index() as int), boundary(since)),
    {
        let ghost at = it.index() as int;
        assert(all.skip(at).skip(1) =~= all.skip(at + 1));
        assert(good.take(at + 1).drop_last() =~= good.take(at));
        match line {
            Ok(line) => builder.push_line(line.as_str()),
            Err(fault) => {
                return Err(fault);
            },
        }
    }
    assert(good.take(good.len() as int) =~= good);
    Ok(builder.finish())
}

/// Cuts the window out of a journal that is held as one text.
pub fn slice(raw: &str, since: Option<&str>) -> (window: Window)
    ensures
        window@ == window_of(cut_of(lines(raw@), boundary(since))),
{
    let all = lines_of(raw);
    let ghost texts = lines(raw@);
    let mut builder = WindowBuilder::new(since);
    let mut i: usize = 0;
    assert(texts.take(0) =~= Seq::empty());
    while i < all.len()
        invariant
            i <= all.len(),
            views(all@) == texts,
            builder.well_formed(),
            builder.since() == boundary(since),
            builder.cut() == cut_of(texts.take(i as int), boundary(since)),
        decreases all.len() - i,
    {
        assert(texts.take(i + 1).drop_last() =~= texts.take(i as int));
        assert(texts[i as int] == all@[i as int]@);
        builder.push_line(all[i].as_str());
        i = i + 1;
    }
    assert(texts.take(i as int) =~= texts);
    builder.finish()
}

/// The texts of the lines of a journal that can be read at all.
pub open spec fn readable(lines: Seq<Seq<u8>>) -> Seq<Seq<char>>
    decreases lines.len(),
{
    if lines.len() == 0 {
        Seq::empty()
    } else {
        let before = readable(lines.drop_last());
        match line_text(lines.last()) {
            Some(text) => before.push(text),
            None => before,
        }
    }
}

/// The lines of a journal: those that end in a newline, and a last one that
/// does not.
pub open spec fn byte_lines(bytes: Seq<u8>) -> Seq<Seq<u8>> {
    let cut = drained(Seq::empty(), bytes);
    if cut.1.len() == 0 {
        cut.0
    } else {
        cut.0.push(cut.1)
    }
}

/// How far the reading of a journal has come.
#[derive(Clone, Copy, Debug, PartialEq, Eq, Structural)]
pub enum Progress {
    /// There may be more to read.
    More,
    /// The journal has been read to its end.
    Done,
    /// The journal cannot be read.
    Failed,
}

/// Reads the window out of a journal while its bytes go by.
pub struct WindowReader {
    lines: BoundedLines,
    builder: WindowBuilder,
    progress: Progress,
    fault: Option<Fault>,
    complete: Ghost<Seq<Seq<u8>>>,
}

impl WindowReader {
    /// The lines that have been read to their end.
    pub closed spec fn complete(self) -> Seq<Seq<u8>> {
        self.complete@
    }

    /// The start of the line that is being read.
    pub closed spec fn begun(self) -> Seq<u8> {
        self.lines.seen()
    }

    /// The boundary of the window.
    pub closed spec fn since(self) -> Option<Instant> {
        self.builder.since()
    }

    /// How far the reading has come.
    pub closed spec fn progress(self) -> Progress {
        self.progress
    }

    /// Why the journal cannot be read, once the reading has failed.
    pub closed spec fn fault(self) -> Option<Fault> {
        self.fault
    }

    /// What has been found is what the lines so far hold.
    pub closed spec fn well_formed(self) -> bool {
        &&& self.lines.well_formed()
        &&& self.builder.well_formed()
        &&& self.lines.done() == (self.progress != Progress::More)
        &&& self.fault is Some == (self.progress == Progress::Failed)
        &&& self.builder.cut() == cut_of(readable(self.complete@), self.builder.since())
    }
}

/// A reader of the window after `since`, before the first byte.
pub fn read_window(since: Option<&str>) -> (reader: WindowReader)
    ensures
        reader.well_formed(),
        reader.complete() == Seq::<Seq<u8>>::empty(),
        reader.begun() == Seq::<u8>::empty(),
        reader.since() == boundary(since),
        reader.progress() == Progress::More,
{
    WindowReader {
        lines: bounded_lines(),
        builder: WindowBuilder::new(since),
        progress: Progress::More,
        fault: None,
        complete: Ghost(Seq::empty()),
    }
}

proof fn lemma_readable_push(lines: Seq<Seq<u8>>, line: Seq<u8>)
    ensures
        readable(lines.push(line)) == (match line_text(line) {
            Some(text) => readable(lines).push(text),
            None => readable(lines),
        }),
{
    assert(lines.push(line).drop_last() =~= lines);
}

/// A journal that goes by chunk after chunk comes to its lines: what two chunks
/// complete, and the line that they leave begun at the end of the stream, are
/// the lines of both together.
pub proof fn a_stream_comes_to_its_lines(a: Seq<u8>, b: Seq<u8>)
    ensures
        ({
            let first = drained(Seq::empty(), a);
            let second = drained(first.1, b);
            let complete = first.0 + second.0;
            byte_lines(a + b) == (if second.1.len() == 0 {
                complete
            } else {
                complete.push(second.1)
            })
        }),
{
    chunks_do_not_matter(Seq::empty(), a, b);
}

impl WindowReader {
    /// Takes in what one attempt to fill the buffer brought, and returns how
    /// many bytes of the chunk are used up and how far the reading has come. An
    /// empty chunk ends the line that is being read, and where there is none,
    /// the reading. An interrupted attempt is made again; a failed one ends the
    /// reading.
    pub fn feed(&mut self, fill: Fill<'_>) -> (step: (usize, Progress))
        requires
            old(self).well_formed(),
            old(self).progress() == Progress::More,
        ensures
            final(self).well_formed(),
            final(self).since() == old(self).since(),
            step.1 == final(self).progress(),
            match fill {
                Fill::Chunk(chunk) => if chunk@.len() > 0 {
                    let lines = drained(old(self).begun(), chunk@.take(step.0 as int));
                    &&& 0 < step.0 <= chunk@.len()
                    &&& final(self).complete() == old(self).complete() + lines.0
                    &&& final(self).begun() == lines.1
                    &&& step.1 == Progress::More
                } else if old(self).begun().len() > 0 {
                    &&& step.0 == 0
                    &&& final(self).complete() == old(self).complete().push(old(self).begun())
                    &&& final(self).begun() == Seq::<u8>::empty()
                    &&& step.1 == Progress::More
                } else {
                    &&& step.0 == 0
                    &&& final(self).complete() == old(self).complete()
                    &&& step.1 == Progress::Done
                },
                Fill::Interrupted => {
                    &&& step.0 == 0
                    &&& final(self).complete() == old(self).complete()
                    &&& final(self).begun() == old(self).begun()
                    &&& step.1 == Progress::More
                },
                Fill::Failed(fault) => {
                    &&& step.0 == 0
                    &&& final(self).complete() == old(self).complete()
                    &&& step.1 == Progress::Failed
                    &&& final(self).fault() == Some(fault)
                },
            },
    {
        let ghost begun = self.lines.seen();
        let ghost before = self.complete@;
        let (used, pulled) = self.lines.pull(fill);
        proof {
            let read = readable(before);
            if fill is Chunk {
                let chunk = (fill->Chunk_0)@;
                if chunk.len() > 0 {
                    let more = drained(begun, chunk.take(used as int)).0;
                    self.complete@ = before + more;
                    if more.len() == 1 {
                        assert(before + more =~= before.push(more[0]));
                        lemma_readable_push(before, more[0]);
                    } else {
                        assert(before + more =~= before);
                    }
                } else if begun.len() > 0 {
                    self.complete@ = before.push(begun);
                    lemma_readable_push(before, begun);
                }
            }
            if pulled is Line {
                assert(read.push((pulled->Line_0)@).drop_last() =~= read);
            }
        }
        match pulled {
            Pulled::More => {},
            Pulled::Line(text) => self.builder.push_line(text.as_str()),
            Pulled::Failed(fault) => {
                self.progress = Progress::Failed;
                self.fault = Some(fault);
            },
            Pulled::End => {
                self.progress = Progress::Done;
            },
        }
        (used, self.progress)
    }

    /// The window, once the journal has been read to its end, or the error that
    /// ended the reading. A window that silently lacks its tail would be worse.
    pub fn finish(self) -> (window: Option<Result<Window, Fault>>)
        requires
            self.well_formed(),
        ensures
            match (self.progress(), window) {
                (Progress::More, None) => true,
                (Progress::Done, Some(Ok(window))) => window@ == window_of(
                    cut_of(readable(self.complete()), self.since()),
                ),
                (Progress::Failed, Some(Err(fault))) => self.fault() == Some(fault),
                _ => false,
            },
    {
        match self.progress {
            Progress::More => None,
            Progress::Done => Some(Ok(self.builder.finish())),
            Progress::Failed => match self.fault {
                Some(fault) => Some(Err(fault)),
                None => None,
            },
        }
    }
}

/// A transcript has at most the tail's worth of characters, and the note.
pub proof fn transcript_is_bounded(entries: Seq<Seq<char>>)
    ensures
        transcript(entries).len() <= MAX_WINDOW_CHARS + dropped_note().len(),
        dropped_note().len() == 34,
{
    reveal_strlit("[... earlier entries dropped ...]\n");
}

/// The transcript that a reader would make who holds every entry to the end.
pub open spec fn unshed_transcript(entries: Seq<Seq<char>>) -> Seq<char> {
    let joined = join(entries, "\n\n"@);
    if joined.len() > MAX_WINDOW_CHARS {
        dropped_note() + joined.skip(joined.len() - MAX_WINDOW_CHARS)
    } else {
        joined
    }
}

proof fn lemma_join_first(parts: Seq<Seq<char>>, between: Seq<char>)
    requires
        parts.len() >= 2,
    ensures
        join(parts, between) == parts[0] + between + join(parts.skip(1), between),
    decreases parts.len(),
{
    let rest = parts.skip(1);
    let front = parts.drop_last();
    if parts.len() == 2 {
        assert(front =~= seq![parts[0]]);
        assert(join(front, between) == parts[0]);
        assert(join(rest, between) == parts[1]);
    } else {
        lemma_join_first(front, between);
        assert(front.skip(1) =~= rest.drop_last());
        assert(join(parts, between) =~= parts[0] + between + (join(rest.drop_last(), between)
            + between + rest.last()));
    }
}

proof fn lemma_join_suffix(parts: Seq<Seq<char>>, from: int, between: Seq<char>)
    requires
        0 <= from <= parts.len(),
    ensures
        join(parts.skip(from), between).len() <= join(parts, between).len(),
        join(parts.skip(from), between) == join(parts, between).skip(
            join(parts, between).len() - join(parts.skip(from), between).len(),
        ),
    decreases parts.len(),
{
    let all = join(parts, between);
    if from == 0 {
        assert(parts.skip(0) =~= parts);
        assert(all.skip(0) =~= all);
    } else if from == parts.len() {
        assert(parts.skip(from) =~= Seq::empty());
        assert(all.skip(all.len() as int) =~= Seq::empty());
    } else {
        lemma_join_first(parts, between);
        lemma_join_suffix(parts.skip(1), from - 1, between);
        assert(parts.skip(1).skip(from - 1) =~= parts.skip(from));
        let rest = join(parts.skip(1), between);
        let end = join(parts.skip(from), between);
        assert(all.skip(all.len() - end.len()) =~= rest.skip(rest.len() - end.len()));
    }
}

pub(crate) proof fn lemma_join_total(parts: Seq<Seq<char>>, between: Seq<char>)
    ensures
        total(parts) <= join(parts, between).len(),
    decreases parts.len(),
{
    if parts.len() == 1 {
        assert(parts.skip(1) =~= Seq::empty());
        assert(total(Seq::<Seq<char>>::empty()) == 0);
    } else if parts.len() > 1 {
        lemma_join_first(parts, between);
        lemma_join_total(parts.skip(1), between);
    }
}

/// Shedding old entries while a journal is read does not show in the window:
/// the transcript is the one that would have been made from all of them. This
/// leaves out only the case in which what is still held no longer fills the
/// window, which takes an entry that is itself longer than the window.
pub proof fn shedding_does_not_show(entries: Seq<Seq<char>>)
    requires
        ({
            let held = tail(entries, MAX_HELD_CHARS as nat);
            held.len() == entries.len() || join(held, "\n\n"@).len() >= MAX_WINDOW_CHARS
        }),
    ensures
        transcript(entries) == unshed_transcript(entries),
{
    let held = tail(entries, MAX_HELD_CHARS as nat);
    lemma_tail(entries, MAX_HELD_CHARS as nat);
    if held.len() == entries.len() {
        assert(entries.skip(0) =~= entries);
    } else {
        let from = entries.len() - held.len();
        let all = join(entries, "\n\n"@);
        let joined = join(held, "\n\n"@);
        lemma_join_total(entries, "\n\n"@);
        lemma_join_suffix(entries, from, "\n\n"@);
        assert(total(entries) > MAX_HELD_CHARS);
        assert(all.skip(all.len() - MAX_WINDOW_CHARS) =~= joined.skip(
            joined.len() - MAX_WINDOW_CHARS,
        ));
        assert(joined.skip(0) =~= joined);
    }
}

/// While no entry is longer than the window, what is held always fills it.
pub proof fn held_entries_fill_the_window(entries: Seq<Seq<char>>)
    requires
        forall|i: int| 0 <= i < entries.len() ==> (#[trigger] entries[i]).len() <= MAX_WINDOW_CHARS,
    ensures
        ({
            let held = tail(entries, MAX_HELD_CHARS as nat);
            held.len() == entries.len() || join(held, "\n\n"@).len() >= MAX_WINDOW_CHARS
        }),
    decreases entries.len(),
{
    if entries.len() > 0 && total(entries) > MAX_HELD_CHARS {
        let rest = entries.skip(1);
        assert forall|i: int| 0 <= i < rest.len() implies (#[trigger] rest[i]).len()
            <= MAX_WINDOW_CHARS by {
            assert(rest[i] == entries[i + 1]);
        }
        held_entries_fill_the_window(rest);
        let held = tail(entries, MAX_HELD_CHARS as nat);
        if held.len() == rest.len() {
            lemma_tail(rest, MAX_HELD_CHARS as nat);
            assert(rest.skip(0) =~= rest);
            lemma_join_total(held, "\n\n"@);
            assert(entries[0].len() <= MAX_WINDOW_CHARS);
        }
    }
}

/// The time of the record in a line.
pub open spec fn time_of(line: Seq<char>) -> Option<Instant> {
    match record_in(line) {
        Some(record) => match stamp_in(record) {
            Some(stamp) => instant_of(stamp),
            None => None,
        },
        None => None,
    }
}

/// A line that cannot be read changes nothing.
pub proof fn unreadable_lines_change_nothing(cut: Cut, line: Seq<char>, since: Option<Instant>)
    requires
        record_in(line) is None,
    ensures
        with_line(cut, line, since) == cut,
{
}

/// A record without a time, or at or before the boundary, is not in the window.
pub proof fn old_records_are_not_replayed(cut: Cut, line: Seq<char>, since: Option<Instant>)
    requires
        match time_of(line) {
            Some(at) => !is_newer(at, since),
            None => true,
        },
    ensures
        with_line(cut, line, since).entries == cut.entries,
        with_line(cut, line, since).last_ts == cut.last_ts,
{
}

/// The boundary that a window leaves behind can be read and lies after the one
/// that it was cut with.
pub proof fn boundaries_move_forward(lines: Seq<Seq<char>>, since: Option<Instant>)
    ensures
        match cut_of(lines, since).last_ts {
            Some(stamp) => instant_of(stamp) matches Some(at) && is_newer(at, since),
            None => true,
        },
    decreases lines.len(),
{
    if lines.len() > 0 {
        boundaries_move_forward(lines.drop_last(), since);
    }
}

/// The boundary of the window after the one of `lines`.
pub open spec fn next_boundary(lines: Seq<Seq<char>>, since: Option<Instant>) -> Option<Instant> {
    match cut_of(lines, since).last_ts {
        Some(stamp) => instant_of(stamp),
        None => since,
    }
}

/// Whether no record of `lines` lies after the boundary.
pub open spec fn is_past(lines: Seq<Seq<char>>, since: Option<Instant>) -> bool {
    forall|i: int|
        0 <= i < lines.len() ==> match time_of(#[trigger] lines[i]) {
            Some(at) => !is_newer(at, since),
            None => true,
        }
}

proof fn lemma_nothing_newer(lines: Seq<Seq<char>>, since: Option<Instant>)
    requires
        is_past(lines, since),
    ensures
        cut_of(lines, since).entries == Seq::<Seq<char>>::empty(),
        cut_of(lines, since).last_ts is None,
    decreases lines.len(),
{
    if lines.len() > 0 {
        let front = lines.drop_last();
        assert forall|i: int| 0 <= i < front.len() implies match time_of(#[trigger] front[i]) {
            Some(at) => !is_newer(at, since),
            None => true,
        } by {
            assert(front[i] == lines[i]);
        }
        lemma_nothing_newer(front, since);
        assert(lines[lines.len() - 1] == lines.last());
    }
}

proof fn lemma_host_ignores_boundary(
    lines: Seq<Seq<char>>,
    a: Option<Instant>,
    b: Option<Instant>,
)
    ensures
        cut_of(lines, a).host == cut_of(lines, b).host,
    decreases lines.len(),
{
    if lines.len() > 0 {
        lemma_host_ignores_boundary(lines.drop_last(), a, b);
    }
}

/// Whether every record of `more` that lies after the old boundary lies after
/// the new one too.
pub open spec fn goes_on(
    more: Seq<Seq<char>>,
    since: Option<Instant>,
    next: Option<Instant>,
) -> bool {
    forall|i: int|
        0 <= i < more.len() ==> match time_of(#[trigger] more[i]) {
            Some(at) => is_newer(at, since) ==> is_newer(at, next),
            None => true,
        }
}

/// Two windows in a row meet: a journal that has grown from `first` by `more`
/// holds, after the old boundary, what the first window held, followed by what
/// the next one holds. Nothing is lost between them and nothing is told twice.
/// The next window is that of the new lines alone: its text, and the boundary
/// that it leaves behind, which is also the one that a single window over the
/// whole journal would have left. Only the host may be one that the lines before
/// have shown. This asks that the journal is in the order of
/// time, and that no record that came later bears the very time at which the
/// first window ended.
pub proof fn windows_meet(first: Seq<Seq<char>>, more: Seq<Seq<char>>, since: Option<Instant>)
    requires
        is_past(first, next_boundary(first, since)),
        goes_on(more, since, next_boundary(first, since)),
    ensures
        ({
            let next = next_boundary(first, since);
            let whole = cut_of(first + more, since);
            let later = cut_of(first + more, next);
            let alone = cut_of(more, since);
            &&& whole.entries == cut_of(first, since).entries + later.entries
            &&& later.entries == alone.entries
            &&& later.last_ts == alone.last_ts
            &&& window_of(later).text == window_of(alone).text
            &&& window_of(later).last_ts == window_of(alone).last_ts
            &&& next_boundary(first + more, next) == next_boundary(first + more, since)
            &&& later.host == (match cut_of(first, since).host {
                Some(host) => Some(host),
                None => alone.host,
            })
        }),
    decreases more.len(),
{
    let next = next_boundary(first, since);
    if more.len() == 0 {
        assert(first + more =~= first);
        lemma_nothing_newer(first, next);
        lemma_host_ignores_boundary(first, since, next);
        assert(cut_of(first, since).entries + Seq::<Seq<char>>::empty() =~= cut_of(
            first,
            since,
        ).entries);
    } else {
        let front = more.drop_last();
        assert forall|i: int| 0 <= i < front.len() implies match time_of(#[trigger] front[i]) {
            Some(at) => is_newer(at, since) ==> is_newer(at, next),
            None => true,
        } by {
            assert(front[i] == more[i]);
        }
        windows_meet(first, front, since);
        assert((first + more).drop_last() =~= first + front);
        boundaries_move_forward(first, since);
        assert(more[more.len() - 1] == more.last());
        let old = cut_of(first, since).entries;
        let new = cut_of(first + front, next).entries;
        if entry_of(record_in(more.last())->0) is Some {
            let entry = entry_of(record_in(more.last())->0)->0;
            assert((old + new).push(entry) =~= old + new.push(entry));
        }
    }
}

/// Whether each of `parts` holds something, and no white space around it.
pub open spec fn all_solid(parts: Seq<Seq<char>>) -> bool {
    forall|i: int|
        0 <= i < parts.len() ==> trimmed(#[trigger] parts[i]).len() > 0 && trimmed(parts[i])
            == parts[i]
}

proof fn lemma_all_solid_append(a: Seq<Seq<char>>, b: Seq<Seq<char>>)
    requires
        all_solid(a),
        all_solid(b),
    ensures
        all_solid(a + b),
{
    assert forall|i: int| 0 <= i < (a + b).len() implies trimmed(#[trigger] (a + b)[i]).len() > 0
        && trimmed((a + b)[i]) == (a + b)[i] by {
        if i < a.len() {
            assert((a + b)[i] == a[i]);
        } else {
            assert((a + b)[i] == b[i - a.len()]);
        }
    }
}

pub(crate) proof fn lemma_pieces_are_solid(value: Tree)
    ensures
        all_solid(pieces(value)),
    decreases value,
{
    match value {
        Tree::Object(fields) => {
            assert(decreases_to!(value => value->Object_0));
            lemma_field_pieces_are_solid(value->Object_0);
            assert(pieces(value) == field_pieces(value->Object_0));
        },
        Tree::Array(items) => {
            assert(decreases_to!(value => value->Array_0));
            lemma_item_pieces_are_solid(value->Array_0);
            assert(pieces(value) == item_pieces(value->Array_0));
        },
        _ => {},
    }
}

proof fn lemma_field_pieces_are_solid(fields: Seq<(Seq<char>, Tree)>)
    ensures
        all_solid(field_pieces(fields)),
    decreases fields,
{
    if fields.len() > 0 {
        assert(decreases_to!(fields => fields[fields.len() - 1]));
        assert(decreases_to!(fields[fields.len() - 1] => fields[fields.len() - 1].1));
        let last = fields[fields.len() - 1];
        let front = fields.subrange(0, fields.len() - 1);
        lemma_field_pieces_are_solid(front);
        lemma_pieces_are_solid(fields[fields.len() - 1].1);
        if last.1 is Text && is_prose_key(last.0) {
            trimming_is_stable(last.1->Text_0);
            lemma_all_solid_append(field_pieces(front), solid(last.1->Text_0));
        } else {
            lemma_all_solid_append(field_pieces(front), pieces(last.1));
        }
    }
}

proof fn lemma_item_pieces_are_solid(items: Seq<Tree>)
    ensures
        all_solid(item_pieces(items)),
    decreases items,
{
    if items.len() > 0 {
        assert(decreases_to!(items => items[items.len() - 1]));
        let front = items.subrange(0, items.len() - 1);
        lemma_item_pieces_are_solid(front);
        lemma_pieces_are_solid(items[items.len() - 1]);
        lemma_all_solid_append(item_pieces(front), pieces(items[items.len() - 1]));
    }
}

pub(crate) proof fn lemma_with_lines_solid(more: Seq<Seq<char>>)
    requires
        more.len() > 0,
        all_solid(more),
    ensures
        ({
            let text = with_lines(Seq::empty(), more);
            &&& text.len() > 0
            &&& !is_space(text.first())
            &&& !is_space(text.last())
        }),
    decreases more.len(),
{
    let front = more.drop_last();
    trimming_is_stable(more.last());
    assert(more[more.len() - 1] == more.last());
    if front.len() > 0 {
        assert forall|i: int| 0 <= i < front.len() implies trimmed(#[trigger] front[i]).len() > 0
            && trimmed(front[i]) == front[i] by {
            assert(front[i] == more[i]);
        }
        lemma_with_lines_solid(front);
    } else {
        assert(with_lines(Seq::empty(), front) == Seq::<char>::empty());
    }
}

pub(crate) proof fn lemma_with_lines_holds(more: Seq<Seq<char>>, i: int)
    requires
        0 <= i < more.len(),
    ensures
        contains(with_lines(Seq::empty(), more), more[i]),
    decreases more.len(),
{
    let text = with_lines(Seq::empty(), more);
    let above = with_lines(Seq::empty(), more.drop_last());
    if i == more.len() - 1 {
        let at = text.len() - more[i].len();
        assert(text.subrange(at, at + more[i].len()) =~= more[i]);
        assert(occurs_at(text, more[i], at));
    } else {
        lemma_with_lines_holds(more.drop_last(), i);
        let at = choose|at: int| #[trigger] occurs_at(above, more[i], at);
        if above.len() == 0 {
            assert(more[i] =~= Seq::empty());
            assert(text.subrange(0, 0) =~= more[i]);
            assert(occurs_at(text, more[i], 0));
        } else {
            assert(text.subrange(at, at + more[i].len()) =~= above.subrange(
                at,
                at + more[i].len(),
            ));
            assert(occurs_at(text, more[i], at));
        }
    }
}

proof fn lemma_with_lines_prefix(more: Seq<Seq<char>>, upto: int)
    requires
        0 <= upto <= more.len(),
    ensures
        ({
            let part = with_lines(Seq::empty(), more.take(upto));
            let all = with_lines(Seq::empty(), more);
            part.len() <= all.len() && part == all.take(part.len() as int)
        }),
    decreases more.len() - upto,
{
    let part = with_lines(Seq::empty(), more.take(upto));
    let all = with_lines(Seq::empty(), more);
    if upto == more.len() {
        assert(more.take(upto) =~= more);
        assert(all.take(all.len() as int) =~= all);
    } else {
        lemma_with_lines_prefix(more, upto + 1);
        let longer = with_lines(Seq::empty(), more.take(upto + 1));
        assert(more.take(upto + 1).drop_last() =~= more.take(upto));
        assert(part =~= longer.take(part.len() as int));
        assert(all.take(longer.len() as int).take(part.len() as int) =~= all.take(
            part.len() as int,
        ));
    }
}

proof fn lemma_truncated_keeps_the_front(
    text: Seq<char>,
    front: Seq<char>,
    head: Seq<char>,
    part: Seq<char>,
)
    requires
        head.len() <= text.len(),
        head.len() <= MAX_ENTRY_CHARS,
        head == text.take(head.len() as int),
        contains(head, part),
    ensures
        contains(front + truncated(text, MAX_ENTRY_CHARS as int), part),
{
    let shown = truncated(text, MAX_ENTRY_CHARS as int);
    let entry = front + shown;
    let at = choose|at: int| #[trigger] occurs_at(head, part, at);
    let from = front.len() + at;
    assert(head =~= shown.take(head.len() as int));
    assert(entry.subrange(from, from + part.len()) =~= head.subrange(at, at + part.len()));
    assert(occurs_at(entry, part, from));
}

/// What a record says goes into the window as it stands, tool output too:
/// every piece of prose that ends within the bound of an entry is a part of the
/// entry, unmarked.
pub proof fn prose_goes_through_unannotated(record: Tree, i: int)
    requires
        0 <= i < pieces(body_of(record)).len(),
        with_lines(Seq::empty(), pieces(body_of(record)).take(i + 1)).len() <= MAX_ENTRY_CHARS,
    ensures
        entry_of(record) matches Some(entry) && contains(entry, pieces(body_of(record))[i]),
{
    let parts = pieces(body_of(record));
    let text = with_lines(Seq::empty(), parts);
    let head = with_lines(Seq::empty(), parts.take(i + 1));
    lemma_pieces_are_solid(body_of(record));
    lemma_with_lines_solid(parts);
    lemma_with_lines_holds(parts.take(i + 1), i);
    lemma_with_lines_prefix(parts, i + 1);
    solid_text_is_trimmed(text);
    assert(parts.take(i + 1)[i] == parts[i]);
    lemma_truncated_keeps_the_front(
        text,
        "["@ + role_of(record) + "] "@,
        head,
        parts[i],
    );
}

} // verus!
