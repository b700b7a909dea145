//! One row per session, and markers. No database, no lock, no history.
//!
//! The methods of [`Store`] say where things are and what is to be done to
//! them. Reading and writing are the caller's part.

use vstd::prelude::*;

use crate::clock::{format_millis, stamp_of};
use crate::disk::{
    Body, BodyView, Step, StepView, atomic_write, before_last_dot, step_views, write_atomic,
};
use crate::fault::{Fault, FaultView, message_of};
use crate::numeral::{numeral, numeral_of};
use crate::text::{
    blank, chars_of, copied, copy_range, is_blank, opt_view, same, text_of, trim,
    trimmed, views,
};

verus! {

/// A snapshot of replacement memory for one session. There is at most one row
/// per session, and it is overwritten in place.
#[derive(Clone, Debug, PartialEq)]
pub struct Row {
    pub session_id: String,
    /// Name of this snapshot, minted at every synthesize. A clone has none: it
    /// is not the product of a synthesize and must not seed further chaining.
    pub amtr_key: Option<String>,
    pub handoff: String,
    /// Boundary of the last window that went into `handoff`. The next
    /// synthesize reads the journal strictly after it.
    pub compacted_at: String,
}

/// A snapshot, as contracts speak of it.
pub struct RowView {
    pub session_id: Seq<char>,
    pub amtr_key: Option<Seq<char>>,
    pub handoff: Seq<char>,
    pub compacted_at: Seq<char>,
}

impl View for Row {
    type V = RowView;

    open spec fn view(&self) -> RowView {
        RowView {
            session_id: self.session_id@,
            amtr_key: opt_view(self.amtr_key),
            handoff: self.handoff@,
            compacted_at: self.compacted_at@,
        }
    }
}

impl Row {
    /// The same snapshot again.
    pub fn copy(&self) -> (row: Row)
        ensures
            row@ == self@,
    {
        Row {
            session_id: copied(self.session_id.as_str()),
            amtr_key: copy_option(&self.amtr_key),
            handoff: copied(self.handoff.as_str()),
            compacted_at: copied(self.compacted_at.as_str()),
        }
    }

    /// Whether this snapshot goes by the name `key`.
    pub fn is_named(&self, key: &str) -> (named: bool)
        ensures
            named == (self@.amtr_key == Some(key@)),
    {
        match &self.amtr_key {
            Some(name) => same(name.as_str(), key),
            None => false,
        }
    }
}

fn copy_option(text: &Option<String>) -> (copy: Option<String>)
    ensures
        opt_view(copy) == opt_view(*text),
{
    match text {
        Some(text) => Some(copied(text.as_str())),
        None => None,
    }
}

/// The characters that a session id may hold: ASCII letters and digits, and
/// `.`, `_` and `-`.
pub open spec fn is_plain(c: char) -> bool {
    ||| 'a' <= c && c <= 'z'
    ||| 'A' <= c && c <= 'Z'
    ||| '0' <= c && c <= '9'
    ||| c == '.'
    ||| c == '_'
    ||| c == '-'
}

/// What a byte of a session id becomes in a file name.
pub open spec fn plain_char(byte: u8) -> char {
    if byte < 0x80 && is_plain(byte as char) {
        byte as char
    } else {
        '_'
    }
}

/// `text` without the dots at its start.
pub open spec fn trim_dots_start(text: Seq<char>) -> Seq<char>
    decreases text.len(),
{
    if text.len() > 0 && text.first() == '.' {
        trim_dots_start(text.skip(1))
    } else {
        text
    }
}

/// `text` without the dots at its end.
pub open spec fn trim_dots_end(text: Seq<char>) -> Seq<char>
    decreases text.len(),
{
    if text.len() > 0 && text.last() == '.' {
        trim_dots_end(text.drop_last())
    } else {
        text
    }
}

/// What each byte of a session id becomes, in order.
pub open spec fn cleaned(session_id: Seq<char>) -> Seq<char> {
    vstd::utf8::encode_utf8(session_id).map_values(|byte: u8| plain_char(byte))
}

/// The part of a file name that stands for a session. Substitution is by byte,
/// so that a reader who knows nothing of encodings finds the same name.
pub open spec fn slug_of(session_id: Seq<char>) -> Seq<char> {
    let inner = trim_dots_end(trim_dots_start(cleaned(session_id)));
    if inner.len() == 0 {
        "_"@
    } else {
        inner
    }
}

fn plain(byte: u8) -> (c: char)
    ensures
        c == plain_char(byte),
{
    if (byte >= 0x61 && byte <= 0x7a) || (byte >= 0x41 && byte <= 0x5a) || (byte >= 0x30 && byte
        <= 0x39) || byte == 0x2e || byte == 0x5f || byte == 0x2d {
        byte as char
    } else {
        '_'
    }
}

/// The part of a file name that stands for a session. It guards against an
/// exotic id leaving the directory of the store.
pub fn slug(session_id: &str) -> (slug: String)
    ensures
        slug@ == slug_of(session_id@),
{
    let bytes = session_id.as_bytes();
    let mut chars: Vec<char> = Vec::new();
    let mut i: usize = 0;
    while i < bytes.len()
        invariant
            i <= bytes.len(),
            bytes@ == vstd::utf8::encode_utf8(session_id@),
            chars@ == cleaned(session_id@).take(i as int),
        decreases bytes.len() - i,
    {
        chars.push(plain(bytes[i]));
        i = i + 1;
    }
    let ghost all = cleaned(session_id@);
    assert(chars@ =~= all);
    let mut start: usize = 0;
    assert(all.skip(0) =~= all);
    while start < chars.len() && chars[start] == '.'
        invariant
            start <= chars.len(),
            chars@ == all,
            trim_dots_start(all) == trim_dots_start(all.skip(start as int)),
        decreases chars.len() - start,
    {
        assert(all.skip(start as int).skip(1) =~= all.skip(start + 1));
        start = start + 1;
    }
    let ghost inner = trim_dots_start(all);
    assert(inner == all.skip(start as int));
    let mut kept = copy_range(&chars, start, chars.len());
    assert(kept@ =~= inner);
    while kept.len() > 0 && kept[kept.len() - 1] == '.'
        invariant
            trim_dots_end(inner) == trim_dots_end(kept@),
        decreases kept.len(),
    {
        let ghost before = kept@;
        kept.pop();
        assert(kept@ =~= before.drop_last());
    }
    if kept.len() == 0 {
        copied("_")
    } else {
        text_of(kept.as_slice())
    }
}

/// Whether a session id is one that a host may hand over.
pub open spec fn is_valid_id(session_id: Seq<char>) -> bool {
    session_id.len() > 0 && forall|i: int|
        0 <= i < session_id.len() ==> is_plain(#[trigger] session_id[i])
}

/// Refuses a session id that could name anything but a session.
pub fn validate_session_id(session_id: &str) -> (valid: Result<(), Fault>)
    ensures
        valid is Ok <==> is_valid_id(session_id@),
        valid matches Err(fault) ==> fault@ == FaultView::InvalidInput("invalid session id"@),
{
    let chars = chars_of(session_id);
    if chars.len() == 0 {
        return Err(Fault::InvalidInput(copied("invalid session id")));
    }
    let mut i: usize = 0;
    while i < chars.len()
        invariant
            i <= chars.len(),
            chars@ == session_id@,
            forall|j: int| 0 <= j < i ==> is_plain(#[trigger] session_id@[j]),
        decreases chars.len() - i,
    {
        let c = chars[i];
        if !(('a' <= c && c <= 'z') || ('A' <= c && c <= 'Z') || ('0' <= c && c <= '9') || c == '.'
            || c == '_' || c == '-') {
            assert(!is_plain(session_id@[i as int]));
            return Err(Fault::InvalidInput(copied("invalid session id")));
        }
        i = i + 1;
    }
    Ok(())
}

/// A path followed by a name, with one separator between them.
pub open spec fn joined(base: Seq<char>, name: Seq<char>) -> Seq<char> {
    if base.len() == 0 || base.last() == '/' {
        base + name
    } else {
        base + "/"@ + name
    }
}

/// Puts a name behind a path.
pub fn path_join(base: &str, name: &str) -> (path: String)
    ensures
        path@ == joined(base@, name@),
{
    let chars = chars_of(base);
    let mut path = copied(base);
    if chars.len() > 0 && chars[chars.len() - 1] != '/' {
        path.append("/");
    }
    path.append(name);
    path
}

/// Where the store is, given the home directory and which of `~/.amtr` and
/// `~/.local` are directories in it. A store that exists stays where it is.
pub open spec fn base_in(home: Seq<char>, has_amtr: bool, has_local: bool) -> Seq<char> {
    if has_amtr || !has_local {
        joined(home, ".amtr"@)
    } else {
        joined(home, ".local/share/amtr"@)
    }
}

/// The directory of rows and markers, apart from the files that are the user's.
pub open spec fn cortex_in(base: Seq<char>) -> Seq<char> {
    joined(base, "prefrontal-cortex"@)
}

/// The file that holds the row of a session.
pub open spec fn row_at(base: Seq<char>, session_id: Seq<char>) -> Seq<char> {
    joined(cortex_in(base), slug_of(session_id) + ".json"@)
}

/// The file that says what is owed to a session.
pub open spec fn marker_at(base: Seq<char>, session_id: Seq<char>) -> Seq<char> {
    joined(cortex_in(base), slug_of(session_id) + ".marker"@)
}

/// The file that says until when a debt is waited for.
pub open spec fn deadline_at(base: Seq<char>, session_id: Seq<char>) -> Seq<char> {
    joined(cortex_in(base), slug_of(session_id) + ".deliver-deadline"@)
}

/// The state of a debt whose extraction is in flight.
pub open spec fn ongoing_state() -> Seq<char> {
    "ongoing"@
}

/// The state of a debt whose snapshot waits to be delivered.
pub open spec fn ready_state(key: Seq<char>) -> Seq<char> {
    "ready:"@ + key
}

/// What reading a file brought.
pub enum TextRead {
    /// There is no such file.
    Missing,
    /// The file is there and cannot be read.
    Failed(Fault),
    /// What the file holds.
    Text(String),
}

/// What reading a file brought, as contracts speak of it.
pub enum TextReadView {
    Missing,
    Failed(FaultView),
    Text(Seq<char>),
}

impl View for TextRead {
    type V = TextReadView;

    open spec fn view(&self) -> TextReadView {
        match self {
            TextRead::Missing => TextReadView::Missing,
            TextRead::Failed(fault) => TextReadView::Failed(fault@),
            TextRead::Text(text) => TextReadView::Text(text@),
        }
    }
}

/// What reading a row brought.
pub enum RowRead {
    /// There is no row.
    Missing,
    /// The row is there and cannot be read.
    Failed(Fault),
    /// The row is no row; the text says what is wrong with it.
    Garbled(String),
    /// The row.
    Found(Row),
}

/// What reading a row brought, as contracts speak of it.
pub enum RowReadView {
    Missing,
    Failed(FaultView),
    Garbled(Seq<char>),
    Found(RowView),
}

impl View for RowRead {
    type V = RowReadView;

    open spec fn view(&self) -> RowReadView {
        match self {
            RowRead::Missing => RowReadView::Missing,
            RowRead::Failed(fault) => RowReadView::Failed(fault@),
            RowRead::Garbled(why) => RowReadView::Garbled(why@),
            RowRead::Found(row) => RowReadView::Found(row@),
        }
    }
}

/// The prompt that the extraction runs with.
pub struct Prompt {
    pub text: String,
    /// What is to be done to the prompt file.
    pub steps: Vec<Step>,
    /// What there is to say about the prompt file.
    pub note: Option<String>,
}

/// What follows from one attempt to mark a snapshot deliverable.
pub enum Retry {
    /// It is marked.
    Done,
    /// Try again after so many milliseconds.
    Again(u64),
    /// Give up after so many milliseconds, for this reason.
    Failed(u64, Fault),
}

/// The files of one installation, all below one directory.
pub struct Store {
    base: String,
}

impl View for Store {
    type V = Seq<char>;

    closed spec fn view(&self) -> Seq<char> {
        self.base@
    }
}

impl Store {
    /// Where the store is. `home` is the home directory, if there is one;
    /// `has_amtr` and `has_local` say whether `~/.amtr` and `~/.local` are
    /// directories.
    pub fn base_dir(home: Option<&str>, has_amtr: bool, has_local: bool) -> (base: Result<
        String,
        Fault,
    >)
        ensures
            match (home, base) {
                (Some(home), Ok(base)) => base@ == base_in(home@, has_amtr, has_local),
                (None, Err(fault)) => fault@ == FaultView::Other(
                    "cannot determine home directory"@,
                ),
                _ => false,
            },
    {
        match home {
            Some(home) => if has_amtr || !has_local {
                Ok(path_join(home, ".amtr"))
            } else {
                Ok(path_join(home, ".local/share/amtr"))
            },
            None => Err(Fault::Other(copied("cannot determine home directory"))),
        }
    }

    /// The store of this user.
    pub fn open(home: Option<&str>, has_amtr: bool, has_local: bool) -> (store: Result<
        Store,
        Fault,
    >)
        ensures
            match (home, store) {
                (Some(home), Ok(store)) => store@ == base_in(home@, has_amtr, has_local),
                (None, Err(fault)) => fault@ == FaultView::Other(
                    "cannot determine home directory"@,
                ),
                _ => false,
            },
    {
        match Store::base_dir(home, has_amtr, has_local) {
            Ok(base) => Ok(Store::at(base)),
            Err(fault) => Err(fault),
        }
    }

    /// The store of this user, if there is one: `exists` says whether its
    /// directory is there. Looking at a store does not make one.
    pub fn open_existing(
        home: Option<&str>,
        has_amtr: bool,
        has_local: bool,
        exists: bool,
    ) -> (store: Result<Option<Store>, Fault>)
        ensures
            match (home, store) {
                (Some(home), Ok(Some(store))) => exists && store@ == base_in(
                    home@,
                    has_amtr,
                    has_local,
                ),
                (Some(home), Ok(None)) => !exists,
                (None, Err(fault)) => fault@ == FaultView::Other(
                    "cannot determine home directory"@,
                ),
                _ => false,
            },
    {
        match Store::open(home, has_amtr, has_local) {
            Ok(store) => if exists {
                Ok(Some(store))
            } else {
                Ok(None)
            },
            Err(fault) => Err(fault),
        }
    }

    /// The store below `base`.
    pub fn at(base: String) -> (store: Store)
        ensures
            store@ == base@,
    {
        Store { base }
    }

    /// The directories of the store. They are made in this order, for their
    /// owner only, before anything is written.
    pub fn directories(&self) -> (dirs: Vec<String>)
        ensures
            views(dirs@) == seq![self@, cortex_in(self@)],
    {
        let mut dirs: Vec<String> = Vec::new();
        dirs.push(copied(self.base.as_str()));
        dirs.push(self.cortex());
        assert(views(dirs@) =~= seq![self@, cortex_in(self@)]);
        dirs
    }

    /// The directory of the store itself.
    pub fn base(&self) -> (base: &str)
        ensures
            base@ == self@,
    {
        self.base.as_str()
    }

    /// The directory of rows and markers.
    pub fn cortex(&self) -> (path: String)
        ensures
            path@ == cortex_in(self@),
    {
        path_join(self.base.as_str(), "prefrontal-cortex")
    }

    /// The prompt file, which is the user's to edit.
    pub fn prompt_path(&self) -> (path: String)
        ensures
            path@ == joined(self@, "prompt.md"@),
    {
        path_join(self.base.as_str(), "prompt.md")
    }

    fn path_of(&self, session_id: &str, suffix: &str) -> (path: String)
        ensures
            path@ == joined(cortex_in(self@), slug_of(session_id@) + suffix@),
    {
        let mut name = slug(session_id);
        name.append(suffix);
        path_join(self.cortex().as_str(), name.as_str())
    }

    /// The file that holds the row of a session.
    pub fn row_path(&self, session_id: &str) -> (path: String)
        ensures
            path@ == row_at(self@, session_id@),
    {
        self.path_of(session_id, ".json")
    }

    /// The file that says what is owed to a session. It lies beside the row: a
    /// debt is a property of the session.
    pub fn marker_path(&self, session_id: &str) -> (path: String)
        ensures
            path@ == marker_at(self@, session_id@),
    {
        self.path_of(session_id, ".marker")
    }

    /// The file that says until when a debt is waited for.
    pub fn deadline_path(&self, session_id: &str) -> (path: String)
        ensures
            path@ == deadline_at(self@, session_id@),
    {
        self.path_of(session_id, ".deliver-deadline")
    }

    /// What became of reading the row of a session. No row is the ordinary
    /// state before a first compaction; a row that cannot be read is an error,
    /// lest a damaged snapshot pass for none.
    pub fn load(read: RowRead) -> (row: Result<Option<Row>, Fault>)
        ensures
            match (read@, row) {
                (RowReadView::Missing, Ok(None)) => true,
                (RowReadView::Found(found), Ok(Some(row))) => row@ == found,
                (RowReadView::Failed(fault), Err(out)) => out@ == fault,
                (RowReadView::Garbled(why), Err(out)) => out@ == FaultView::Other(
                    "stored row is not readable: "@ + why,
                ),
                _ => false,
            },
    {
        match read {
            RowRead::Missing => Ok(None),
            RowRead::Found(row) => Ok(Some(row)),
            RowRead::Failed(fault) => Err(fault),
            RowRead::Garbled(why) => {
                let mut message = copied("stored row is not readable: ");
                message.append(why.as_str());
                Err(Fault::Other(message))
            },
        }
    }

    /// Writes a row in place of the one that the session had.
    pub fn save(&self, row: Row, pid: u32) -> (steps: Vec<Step>)
        ensures
            step_views(steps@) == saving(self@, row@, pid),
    {
        let path = self.row_path(row.session_id.as_str());
        write_atomic(path.as_str(), Body::Row(row), pid)
    }

    /// Removes the row of a session.
    pub fn forget(&self, session_id: &str) -> (steps: Vec<Step>)
        ensures
            step_views(steps@) == seq![StepView::Remove(row_at(self@, session_id@))],
    {
        let mut steps: Vec<Step> = Vec::new();
        steps.push(Step::Remove(self.row_path(session_id)));
        assert(step_views(steps@) =~= seq![StepView::Remove(row_at(self@, session_id@))]);
        steps
    }
}

/// The steps that save a row.
pub open spec fn saving(base: Seq<char>, row: RowView, pid: u32) -> Seq<StepView> {
    atomic_write(row_at(base, row.session_id), BodyView::Row(row), pid)
}

/// Whether a file name has the extension `json`.
pub open spec fn is_row_name(name: Seq<char>) -> bool {
    match before_last_dot(name) {
        Some(stem) => stem.len() > 0 && name.skip(stem.len() as int + 1) == "json"@,
        None => false,
    }
}

/// An entry of the directory of rows and markers: its name, and what reading
/// it as a row brought.
pub type Entry = (String, RowRead);

/// The first row among `entries` that goes by the name `key`.
pub open spec fn first_named(entries: Seq<Entry>, key: Seq<char>) -> Option<RowView>
    decreases entries.len(),
{
    if entries.len() == 0 {
        None
    } else if names_row(entries[0], key) {
        Some((entries[0].1@)->Found_0)
    } else {
        first_named(entries.skip(1), key)
    }
}

/// Whether an entry is a row that goes by the name `key`.
pub open spec fn names_row(entry: Entry, key: Seq<char>) -> bool {
    &&& is_row_name(entry.0@)
    &&& entry.1@ matches RowReadView::Found(row)
    &&& row.amtr_key == Some(key)
}

/// What there is to say about an entry that should be a row and is not.
pub open spec fn complaint(cortex: Seq<char>, entry: Entry) -> Option<Seq<char>> {
    if !is_row_name(entry.0@) {
        None
    } else {
        match entry.1 {
            RowRead::Failed(fault) => Some(
                "cannot read "@ + joined(cortex, entry.0@) + ": "@ + message_of(fault@),
            ),
            RowRead::Garbled(why) => Some(
                joined(cortex, entry.0@) + " is not readable: "@ + why@,
            ),
            _ => None,
        }
    }
}

/// What there is to say about the entries that were looked at before a row of
/// the name was found.
pub open spec fn complaints(cortex: Seq<char>, entries: Seq<Entry>, key: Seq<char>) -> Seq<
    Seq<char>,
>
    decreases entries.len(),
{
    if entries.len() == 0 || names_row(entries[0], key) {
        Seq::empty()
    } else {
        let rest = complaints(cortex, entries.skip(1), key);
        match complaint(cortex, entries[0]) {
            Some(text) => seq![text] + rest,
            None => rest,
        }
    }
}

/// Whether a file name has the extension `json`.
pub fn is_row_file(name: &str) -> (yes: bool)
    ensures
        yes == is_row_name(name@),
{
    let chars = chars_of(name);
    let mut end: usize = chars.len();
    assert(name@.take(end as int) =~= name@);
    while end > 0 && chars[end - 1] != '.'
        invariant
            end <= chars.len(),
            chars@ == name@,
            before_last_dot(name@) == before_last_dot(name@.take(end as int)),
        decreases end,
    {
        assert(name@.take(end as int).drop_last() =~= name@.take(end - 1));
        end = end - 1;
    }
    if end < 2 {
        assert(end == 1 ==> name@.take(1).drop_last() =~= Seq::empty());
        return false;
    }
    assert(name@.take(end as int).drop_last() =~= name@.take(end - 1));
    let extension = text_of(copy_range(&chars, end, chars.len()).as_slice());
    assert(extension@ =~= name@.skip(end as int));
    same(extension.as_str(), "json")
}

impl Store {
    /// Looks for the row that goes by the name `key`. A row that cannot be read
    /// is reported instead of passed over: "no such key" and "the row with that
    /// key is damaged" call for different next steps.
    pub fn find_by_key(&self, entries: Vec<Entry>, key: &str) -> (found: (
        Option<Row>,
        Vec<String>,
    ))
        ensures
            match (first_named(entries@, key@), found.0) {
                (Some(row), Some(out)) => out@ == row,
                (None, None) => true,
                _ => false,
            },
            views(found.1@) == complaints(cortex_in(self@), entries@, key@),
    {
        let ghost all = entries@;
        let cortex = self.cortex();
        let mut notes: Vec<String> = Vec::new();
        assert(all.skip(0) =~= all);
        assert(views(notes@) + complaints(cortex@, all, key@) =~= complaints(
            cortex@,
            all,
            key@,
        ));
        for entry in it: entries
            invariant
                it.seq() == all,
                cortex@ == cortex_in(self@),
                first_named(all, key@) == first_named(all.skip(it.index() as int), key@),
                complaints(cortex@, all, key@) == views(notes@) + complaints(
                    cortex@,
                    all.skip(it.index() as int),
                    key@,
                ),
        {
            let ghost at = it.index() as int;
            let ghost before = views(notes@);
            assert(all.skip(at).skip(1) =~= all.skip(at + 1));
            assert(all.skip(at)[0] == entry);
            let (name, read) = entry;
            if is_row_file(name.as_str()) {
                match read {
                    RowRead::Found(row) => {
                        if row.is_named(key) {
                            assert(before + Seq::<Seq<char>>::empty() =~= before);
                            return (Some(row), notes);
                        }
                    },
                    RowRead::Missing => {},
                    RowRead::Failed(fault) => {
                        let mut note = copied("cannot read ");
                        note.append(path_join(cortex.as_str(), name.as_str()).as_str());
                        note.append(": ");
                        note.append(fault.message().as_str());
                        let ghost said = note@;
                        notes.push(note);
                        assert(views(notes@) =~= before.push(said));
                        assert forall|rest: Seq<Seq<char>>| #[trigger]
                            (before.push(said) + rest) == before + (seq![said] + rest) by {
                            assert(before.push(said) + rest =~= before + (seq![said] + rest));
                        }
                    },
                    RowRead::Garbled(why) => {
                        let mut note = path_join(cortex.as_str(), name.as_str());
                        note.append(" is not readable: ");
                        note.append(why.as_str());
                        let ghost said = note@;
                        notes.push(note);
                        assert(views(notes@) =~= before.push(said));
                        assert forall|rest: Seq<Seq<char>>| #[trigger]
                            (before.push(said) + rest) == before + (seq![said] + rest) by {
                            assert(before.push(said) + rest =~= before + (seq![said] + rest));
                        }
                    },
                }
            }
        }
        assert(all.skip(all.len() as int) =~= Seq::empty());
        assert(views(notes@) + Seq::<Seq<char>>::empty() =~= views(
            notes@,
        ));
        (None, notes)
    }
}

/// The rows among `entries` that can be read.
pub open spec fn readable_rows(entries: Seq<Entry>) -> Seq<RowView>
    decreases entries.len(),
{
    if entries.len() == 0 {
        Seq::empty()
    } else {
        let before = readable_rows(entries.drop_last());
        match entries.last().1@ {
            RowReadView::Found(row) if is_row_name(entries.last().0@) => before.push(row),
            _ => before,
        }
    }
}

/// What `rows` hold.
pub open spec fn row_views(rows: Seq<Row>) -> Seq<RowView> {
    rows.map_values(|row: Row| row@)
}

impl Store {
    /// The rows of the store. One that cannot be read is passed over.
    pub fn rows(entries: Vec<Entry>) -> (rows: Vec<Row>)
        ensures
            row_views(rows@) == readable_rows(entries@),
    {
        let ghost all = entries@;
        let mut rows: Vec<Row> = Vec::new();
        assert(all.take(0) =~= Seq::empty());
        assert(row_views(rows@) =~= Seq::empty());
        for entry in it: entries
            invariant
                it.seq() == all,
                row_views(rows@) == readable_rows(all.take(it.index() as int)),
        {
            let ghost at = it.index() as int;
            let ghost before = row_views(rows@);
            assert(all.take(at + 1).drop_last() =~= all.take(at));
            let (name, read) = entry;
            if is_row_file(name.as_str()) {
                if let RowRead::Found(row) = read {
                    let ghost found = row@;
                    rows.push(row);
                    assert(row_views(rows@) =~= before.push(found));
                }
            }
        }
        assert(all.take(all.len() as int) =~= all);
        rows
    }
}

/// A row as it is once another session has taken it over.
pub open spec fn moved(row: RowView, session_id: Seq<char>) -> RowView {
    RowView { session_id, ..row }
}

/// A row as it is once it has been copied to another session.
pub open spec fn cloned(row: RowView, session_id: Seq<char>, at: Seq<char>) -> RowView {
    RowView { session_id, amtr_key: None, handoff: row.handoff, compacted_at: at }
}

/// The steps that move a row: it is saved under the new session first, and
/// only then forgotten under the old one.
pub open spec fn taking(base: Seq<char>, row: RowView, session_id: Seq<char>, pid: u32) -> Seq<
    StepView,
> {
    let save = saving(base, moved(row, session_id), pid);
    if slug_of(row.session_id) == slug_of(session_id) {
        save
    } else {
        save.push(StepView::Remove(row_at(base, row.session_id)))
    }
}

impl Store {
    /// Moves a row to another session. The giving session forgets it, so its
    /// next synthesize is a first compaction.
    pub fn take(&self, row: &Row, new_session_id: &str, pid: u32) -> (taken: (Row, Vec<Step>))
        ensures
            taken.0@ == moved(row@, new_session_id@),
            step_views(taken.1@) == taking(self@, row@, new_session_id@, pid),
    {
        let mut moved = row.copy();
        moved.session_id = copied(new_session_id);
        let mut steps = self.save(moved.copy(), pid);
        let ghost saved = step_views(steps@);
        if !same(slug(row.session_id.as_str()).as_str(), slug(new_session_id).as_str()) {
            steps.push(Step::Remove(self.row_path(row.session_id.as_str())));
            assert(step_views(steps@) =~= saved.push(
                StepView::Remove(row_at(self@, row@.session_id)),
            ));
        }
        (moved, steps)
    }

    /// Copies a row to another session. The source stays as it is; the copy has
    /// no key, and its boundary is the time of the copy.
    pub fn clone_to(&self, row: &Row, new_session_id: &str, at: &str, pid: u32) -> (copy: (
        Row,
        Vec<Step>,
    ))
        ensures
            copy.0@ == cloned(row@, new_session_id@, at@),
            step_views(copy.1@) == saving(self@, cloned(row@, new_session_id@, at@), pid),
    {
        let copy = Row {
            session_id: copied(new_session_id),
            amtr_key: None,
            handoff: copied(row.handoff.as_str()),
            compacted_at: copied(at),
        };
        let steps = self.save(copy.copy(), pid);
        (copy, steps)
    }

    /// Writes the marker.
    fn mark(&self, session_id: &str, state: String, pid: u32) -> (steps: Vec<Step>)
        ensures
            step_views(steps@) == marking(self@, session_id@, state@, pid),
    {
        let path = self.marker_path(session_id);
        write_atomic(path.as_str(), Body::Text(state), pid)
    }

    /// Says that an extraction is in flight. The marker as it was before, which
    /// `prior` holds, is handed back: it cannot be found out afterwards.
    pub fn mark_ongoing(&self, session_id: &str, prior: TextRead, pid: u32) -> (marked: (
        Option<String>,
        Vec<Step>,
    ))
        ensures
            opt_view(marked.0) == (match prior {
                TextRead::Text(text) => Some(text@),
                _ => None::<Seq<char>>,
            }),
            step_views(marked.1@) == marking(self@, session_id@, ongoing_state(), pid),
    {
        let prior = match prior {
            TextRead::Text(text) => Some(text),
            _ => None,
        };
        (prior, self.mark(session_id, copied("ongoing"), pid))
    }

    /// Says that the snapshot named `amtr_key` waits to be delivered. The key
    /// is part of the state: without it the debt of this run and one that an
    /// earlier run left would look the same.
    pub fn mark_ready(&self, session_id: &str, amtr_key: &str, pid: u32) -> (steps: Vec<Step>)
        ensures
            step_views(steps@) == marking(self@, session_id@, ready_state(amtr_key@), pid),
    {
        let mut state = copied("ready:");
        state.append(amtr_key);
        self.mark(session_id, state, pid)
    }

    /// Decides what follows from an attempt to mark a snapshot deliverable.
    /// `attempt` counts from zero. A row that is written and not marked cannot
    /// be reached, so there are three attempts, a little further apart each
    /// time.
    pub fn mark_ready_retrying(attempt: u64, outcome: Result<(), Fault>) -> (next: Retry)
        requires
            attempt < 3,
        ensures
            match (outcome, next) {
                (Ok(()), Retry::Done) => true,
                (Err(_), Retry::Again(millis)) => attempt < 2 && millis == 50 * (attempt + 1),
                (Err(fault), Retry::Failed(millis, last)) => attempt == 2 && millis == 150 && last
                    == fault,
                _ => false,
            },
    {
        match outcome {
            Ok(()) => Retry::Done,
            Err(fault) => if attempt < 2 {
                Retry::Again(50 * (attempt + 1))
            } else {
                Retry::Failed(150, fault)
            },
        }
    }

    /// Puts back what the marker said before a synthesize claimed it.
    pub fn restore_marker(&self, session_id: &str, prior: Option<&str>, pid: u32) -> (steps: Vec<
        Step,
    >)
        ensures
            step_views(steps@) == (match prior {
                Some(state) => marking(self@, session_id@, state@, pid),
                None => unmarking(self@, session_id@),
            }),
    {
        match prior {
            Some(state) => self.mark(session_id, copied(state), pid),
            None => self.unmark(session_id),
        }
    }

    /// What the marker says, without the white space around it.
    pub fn marker_state(read: TextRead) -> (state: Option<String>)
        ensures
            opt_view(state) == (match read {
                TextRead::Text(text) => Some(trimmed(text@)),
                _ => None::<Seq<char>>,
            }),
    {
        match read {
            TextRead::Text(text) => Some(trim(text.as_str())),
            _ => None,
        }
    }

    /// Says that nothing is owed.
    pub fn unmark(&self, session_id: &str) -> (steps: Vec<Step>)
        ensures
            step_views(steps@) == unmarking(self@, session_id@),
    {
        let mut steps: Vec<Step> = Vec::new();
        steps.push(Step::Remove(self.marker_path(session_id)));
        assert(step_views(steps@) =~= unmarking(self@, session_id@));
        steps
    }

    /// The prompt for the extraction: what the prompt file holds, or `default`.
    /// The file is the user's to edit, so it is written only where it is
    /// missing. One that is blank is a slip of the editor and not a choice.
    pub fn extraction_prompt(&self, read: TextRead, default: &str, pid: u32) -> (prompt: Prompt)
        ensures
            prompt.text@ == prompt_text(read@, default@),
            step_views(prompt.steps@) == prompt_steps(self@, read@, default@, pid),
            opt_view(prompt.note) == prompt_note(self@, read@),
    {
        let path = self.prompt_path();
        match read {
            TextRead::Missing => {
                let steps = write_atomic(path.as_str(), Body::Text(copied(default)), pid);
                Prompt { text: copied(default), steps, note: None }
            },
            TextRead::Text(text) => {
                let steps: Vec<Step> = Vec::new();
                assert(step_views(steps@) =~= Seq::empty());
                if blank(text.as_str()) {
                    let mut note = path;
                    note.append(" is empty; using the built-in prompt");
                    Prompt { text: copied(default), steps, note: Some(note) }
                } else {
                    Prompt { text, steps, note: None }
                }
            },
            TextRead::Failed(fault) => {
                let steps: Vec<Step> = Vec::new();
                assert(step_views(steps@) =~= Seq::empty());
                let mut note = copied("cannot read ");
                note.append(path.as_str());
                note.append(", using the built-in prompt: ");
                note.append(fault.message().as_str());
                Prompt { text: copied(default), steps, note: Some(note) }
            },
        }
    }
}

/// The prompt that the extraction runs with.
pub open spec fn prompt_text(read: TextReadView, default: Seq<char>) -> Seq<char> {
    match read {
        TextReadView::Text(text) if !is_blank(text) => text,
        _ => default,
    }
}

/// What is done to the prompt file: it is written where it is missing.
pub open spec fn prompt_steps(
    base: Seq<char>,
    read: TextReadView,
    default: Seq<char>,
    pid: u32,
) -> Seq<StepView> {
    if read is Missing {
        atomic_write(joined(base, "prompt.md"@), BodyView::Text(default), pid)
    } else {
        Seq::empty()
    }
}

/// What there is to say about the prompt file.
pub open spec fn prompt_note(base: Seq<char>, read: TextReadView) -> Option<Seq<char>> {
    match read {
        TextReadView::Missing => None,
        TextReadView::Text(text) => if is_blank(text) {
            Some(joined(base, "prompt.md"@) + " is empty; using the built-in prompt"@)
        } else {
            None
        },
        TextReadView::Failed(fault) => Some(
            "cannot read "@ + joined(base, "prompt.md"@) + ", using the built-in prompt: "@
                + message_of(fault),
        ),
    }
}

/// The steps that write the marker.
pub open spec fn marking(
    base: Seq<char>,
    session_id: Seq<char>,
    state: Seq<char>,
    pid: u32,
) -> Seq<StepView> {
    atomic_write(marker_at(base, session_id), BodyView::Text(state), pid)
}

/// The steps that remove the marker.
pub open spec fn unmarking(base: Seq<char>, session_id: Seq<char>) -> Seq<StepView> {
    seq![StepView::Remove(marker_at(base, session_id))]
}

/// The stamp of a moment, given in milliseconds since 1970; none where the
/// calendar does not reach.
pub fn now(millis: i64) -> (stamp: Option<String>)
    ensures
        opt_view(stamp) == stamp_of(millis),
{
    format_millis(millis)
}

/// A number written with the ten digits and the twenty-six letters.
pub open spec fn in_base36(n: nat) -> Seq<char> {
    numeral(n, 36)
}

/// Writes a number with the ten digits and the twenty-six letters.
pub fn base36(n: u64) -> (digits: String)
    ensures
        digits@ == in_base36(n as nat),
{
    numeral_of(n, 36)
}

/// The name of a snapshot, from the time in milliseconds and a random number.
/// A time before 1970 counts as 1970.
pub open spec fn key_of(millis: i64, random: u64) -> Seq<char> {
    let at: nat = if millis < 0 {
        0
    } else {
        millis as nat
    };
    "amtr-"@ + in_base36(at) + "-"@ + in_base36(random as nat)
}

/// Names a snapshot. The time keeps the name short and roughly in order; the
/// random number keeps it from being guessed.
pub fn mint_key(millis: i64, random: u64) -> (key: String)
    ensures
        key@ == key_of(millis, random),
{
    let at: u64 = if millis < 0 {
        0
    } else {
        millis as u64
    };
    let mut key = copied("amtr-");
    key.append(base36(at).as_str());
    key.append("-");
    key.append(base36(random).as_str());
    key
}

/// The number that eight bytes hold, the lowest byte first.
pub open spec fn little_endian(bytes: Seq<u8>) -> nat
    decreases bytes.len(),
{
    if bytes.len() == 0 {
        0
    } else {
        bytes[0] as nat + 256 * little_endian(bytes.skip(1))
    }
}

/// The random part of a key: eight random bytes, or the number of the process
/// where there are none, since a weak key still beats a lost snapshot.
pub fn random_u64(bytes: Option<[u8; 8]>, pid: u32) -> (random: u64)
    ensures
        match bytes {
            Some(bytes) => random == little_endian(bytes@),
            None => random == pid,
        },
{
    match bytes {
        Some(bytes) => {
            proof {
                reveal_with_fuel(little_endian, 9);
                let all = bytes@;
                assert(all.skip(1).skip(1) =~= all.skip(2));
                assert(all.skip(2).skip(1) =~= all.skip(3));
                assert(all.skip(3).skip(1) =~= all.skip(4));
                assert(all.skip(4).skip(1) =~= all.skip(5));
                assert(all.skip(5).skip(1) =~= all.skip(6));
                assert(all.skip(6).skip(1) =~= all.skip(7));
                assert(all.skip(7).skip(1) =~= all.skip(8));
            }
            let high: u64 = bytes[4] as u64 + 256 * (bytes[5] as u64 + 256 * (bytes[6] as u64
                + 256 * (bytes[7] as u64)));
            bytes[0] as u64 + 256 * (bytes[1] as u64 + 256 * (bytes[2] as u64 + 256 * (
            bytes[3] as u64 + 256 * high)))
        },
        None => pid as u64,
    }
}

} // verus!
