//! What a window tells of a journal, said of the fields of its records and of
//! its lines.

use vstd::prelude::*;

use crate::clock::{Instant, instant_of};
use crate::fault::Fault;
use crate::journal::{
    Cut, Host, all_solid, body_of, boundary, byte_lines, cut_of, detected, entry_of, field_pieces,
    first_error, good_lines, held_entries_fill_the_window, item_pieces, lemma_join_total,
    lemma_pieces_are_solid, lemma_tail, lemma_with_lines_holds, lemma_with_lines_solid, pieces,
    readable, role_of, shedding_does_not_show, solid, tail, total, transcript, truncated, window_of,
    with_line, with_lines,
};
use crate::json::{Tree, field, first_field, parsed_tree};
use crate::lines::{drained, line_text};
use crate::text::{contains, join, occurs_at, solid_text_is_trimmed, trimmed};
use crate::text_laws::{is_solid_part, there_is_a_solid_part, trimming_leaves_the_solid_part};

verus! {

/// The value that is found in `value` by going down `path`: at each step into
/// the field or the item of that number.
pub open spec fn at_path(value: Tree, path: Seq<int>) -> Option<Tree>
    decreases path.len(),
{
    if path.len() == 0 {
        Some(value)
    } else {
        match value {
            Tree::Object(fields) => if 0 <= path[0] < fields.len() {
                at_path(fields[path[0]].1, path.skip(1))
            } else {
                None
            },
            Tree::Array(items) => if 0 <= path[0] < items.len() {
                at_path(items[path[0]], path.skip(1))
            } else {
                None
            },
            _ => None,
        }
    }
}

/// Whether `text` stands in `value` under one of the five names whose text is
/// prose: in the object that `path` leads to, in field `i`.
pub open spec fn is_prose_at(value: Tree, path: Seq<int>, i: int, text: Seq<char>) -> bool {
    &&& at_path(value, path) matches Some(Tree::Object(fields))
    &&& 0 <= i < fields.len()
    &&& fields[i].1 == Tree::Text(text)
    &&& fields[i].0 == "text"@ || fields[i].0 == "content"@ || fields[i].0 == "command"@
        || fields[i].0 == "description"@ || fields[i].0 == "reasoning"@
}

/// The prose of one field: its text, where it has one under a name for prose,
/// and else what is inside.
spec fn of_field(key: Seq<char>, value: Tree) -> Seq<Seq<char>> {
    if value is Text && (key == "text"@ || key == "content"@ || key == "command"@ || key
        == "description"@ || key == "reasoning"@) {
        solid(value->Text_0)
    } else {
        pieces(value)
    }
}

proof fn lemma_field_pieces_step(fields: Seq<(Seq<char>, Tree)>)
    requires
        fields.len() > 0,
    ensures
        field_pieces(fields) == field_pieces(fields.drop_last()) + of_field(
            fields.last().0,
            fields.last().1,
        ),
{
    assert(fields.subrange(0, fields.len() - 1) =~= fields.drop_last());
}

proof fn lemma_item_pieces_step(items: Seq<Tree>)
    requires
        items.len() > 0,
    ensures
        item_pieces(items) == item_pieces(items.drop_last()) + pieces(items.last()),
{
    assert(items.subrange(0, items.len() - 1) =~= items.drop_last());
}

/// The prose of an object is that of its fields, in their order, and the prose
/// of an array that of its items. A field with a name for prose gives its text
/// without the white space around it, unless it is blank; any other field gives
/// what is inside, and text under any other name gives nothing.
pub proof fn prose_is_taken_field_by_field(
    a: Seq<(Seq<char>, Tree)>,
    b: Seq<(Seq<char>, Tree)>,
    x: Seq<Tree>,
    y: Seq<Tree>,
    key: Seq<char>,
    value: Tree,
    text: Seq<char>,
    from: int,
    to: int,
)
    requires
        is_solid_part(text, from, to),
    ensures
        pieces(Tree::Object(a + b)) == pieces(Tree::Object(a)) + pieces(Tree::Object(b)),
        pieces(Tree::Array(x + y)) == pieces(Tree::Array(x)) + pieces(Tree::Array(y)),
        pieces(Tree::Array(seq![value])) == pieces(value),
        !(value is Text) ==> pieces(Tree::Object(seq![(key, value)])) == pieces(value),
        pieces(Tree::Object(seq![(key, Tree::Text(text))])) == (if from < to && (key == "text"@
            || key == "content"@ || key == "command"@ || key == "description"@ || key
            == "reasoning"@) {
            seq![text.subrange(from, to)]
        } else {
            Seq::empty()
        }),
        pieces(Tree::Text(text)) == Seq::<Seq<char>>::empty(),
        pieces(Tree::Scalar) == Seq::<Seq<char>>::empty(),
{
    trimming_leaves_the_solid_part(text, from, to);
    lemma_field_pieces_append(a, b);
    lemma_item_pieces_append(x, y);
    let one = seq![value];
    lemma_item_pieces_step(one);
    assert(one.drop_last() =~= Seq::empty());
    assert(item_pieces(Seq::empty()) + pieces(value) =~= pieces(value));
    let named = seq![(key, value)];
    lemma_field_pieces_step(named);
    assert(named.drop_last() =~= Seq::empty());
    assert(field_pieces(Seq::empty()) + of_field(key, value) =~= of_field(key, value));
    let worded = seq![(key, Tree::Text(text))];
    lemma_field_pieces_step(worded);
    assert(worded.drop_last() =~= Seq::empty());
    assert(field_pieces(Seq::empty()) + of_field(key, Tree::Text(text)) =~= of_field(
        key,
        Tree::Text(text),
    ));
}

proof fn lemma_field_pieces_append(a: Seq<(Seq<char>, Tree)>, b: Seq<(Seq<char>, Tree)>)
    ensures
        field_pieces(a + b) == field_pieces(a) + field_pieces(b),
    decreases b.len(),
{
    if b.len() == 0 {
        assert(a + b =~= a);
        assert(field_pieces(a) + field_pieces(b) =~= field_pieces(a));
    } else {
        lemma_field_pieces_append(a, b.drop_last());
        lemma_field_pieces_step(a + b);
        lemma_field_pieces_step(b);
        assert((a + b).drop_last() =~= a + b.drop_last());
        assert(field_pieces(a + b) =~= field_pieces(a) + field_pieces(b));
    }
}

proof fn lemma_item_pieces_append(a: Seq<Tree>, b: Seq<Tree>)
    ensures
        item_pieces(a + b) == item_pieces(a) + item_pieces(b),
    decreases b.len(),
{
    if b.len() == 0 {
        assert(a + b =~= a);
        assert(item_pieces(a) + item_pieces(b) =~= item_pieces(a));
    } else {
        lemma_item_pieces_append(a, b.drop_last());
        lemma_item_pieces_step(a + b);
        lemma_item_pieces_step(b);
        assert((a + b).drop_last() =~= a + b.drop_last());
        assert(item_pieces(a + b) =~= item_pieces(a) + item_pieces(b));
    }
}

proof fn lemma_field_is_told(fields: Seq<(Seq<char>, Tree)>, i: int, piece: Seq<char>)
    requires
        0 <= i < fields.len(),
        of_field(fields[i].0, fields[i].1).contains(piece),
    ensures
        field_pieces(fields).contains(piece),
{
    let a = fields.take(i);
    let b = seq![fields[i]];
    let c = fields.skip(i + 1);
    assert(fields =~= a + b + c);
    lemma_field_pieces_append(a + b, c);
    lemma_field_pieces_append(a, b);
    lemma_field_pieces_step(b);
    assert(b.drop_last() =~= Seq::empty());
    let own = of_field(fields[i].0, fields[i].1);
    assert(field_pieces(b) =~= own);
    let k = choose|k: int| 0 <= k < own.len() && own[k] == piece;
    assert(field_pieces(fields)[field_pieces(a).len() + k] == piece);
}

proof fn lemma_item_is_told(items: Seq<Tree>, i: int, piece: Seq<char>)
    requires
        0 <= i < items.len(),
        pieces(items[i]).contains(piece),
    ensures
        item_pieces(items).contains(piece),
{
    let a = items.take(i);
    let b = seq![items[i]];
    let c = items.skip(i + 1);
    assert(items =~= a + b + c);
    lemma_item_pieces_append(a + b, c);
    lemma_item_pieces_append(a, b);
    lemma_item_pieces_step(b);
    assert(b.drop_last() =~= Seq::empty());
    let own = pieces(items[i]);
    assert(item_pieces(b) =~= own);
    let k = choose|k: int| 0 <= k < own.len() && own[k] == piece;
    assert(item_pieces(items)[item_pieces(a).len() + k] == piece);
}

proof fn lemma_inner_prose_is_told(value: Tree, path: Seq<int>, piece: Seq<char>)
    requires
        at_path(value, path) matches Some(inner) && pieces(inner).contains(piece),
    ensures
        pieces(value).contains(piece),
    decreases path.len(),
{
    if path.len() > 0 {
        match value {
            Tree::Object(fields) => {
                let below = fields[path[0]].1;
                lemma_inner_prose_is_told(below, path.skip(1), piece);
                assert(!(below is Text));
                lemma_field_is_told(fields, path[0], piece);
            },
            Tree::Array(items) => {
                lemma_inner_prose_is_told(items[path[0]], path.skip(1), piece);
                lemma_item_is_told(items, path[0], piece);
            },
            _ => {},
        }
    }
}

proof fn lemma_lines_are_joined(parts: Seq<Seq<char>>)
    requires
        all_solid(parts),
    ensures
        with_lines(Seq::empty(), parts) == join(parts, seq!['\n']),
    decreases parts.len(),
{
    reveal_strlit("\n");
    assert("\n"@ =~= seq!['\n']);
    if parts.len() > 0 {
        let front = parts.drop_last();
        assert forall|i: int| 0 <= i < front.len() implies trimmed(#[trigger] front[i]).len() > 0
            && trimmed(front[i]) == front[i] by {
            assert(front[i] == parts[i]);
        }
        lemma_lines_are_joined(front);
        if front.len() > 0 {
            lemma_with_lines_solid(front);
        } else {
            assert(with_lines(Seq::empty(), front) =~= Seq::<char>::empty());
        }
    } else {
        assert(with_lines(Seq::empty(), parts) =~= join(parts, seq!['\n']));
    }
}

/// What a record contributes is who speaks and then its prose, a piece to a
/// line: all of it up to four thousand characters, and else the first four
/// thousand with a note that it was cut. A record without prose contributes
/// nothing.
pub proof fn an_entry_is_the_role_and_the_prose(record: Tree)
    ensures
        ({
            let parts = pieces(body_of(record));
            let prose = join(parts, seq!['\n']);
            &&& parts.len() == 0 ==> entry_of(record) is None
            &&& parts.len() > 0 && prose.len() <= 4000 ==> entry_of(record) == Some(
                seq!['['] + role_of(record) + seq![']', ' '] + prose,
            )
            &&& parts.len() > 0 && prose.len() > 4000 ==> entry_of(record) == Some(
                seq!['['] + role_of(record) + seq![']', ' '] + prose.take(4000)
                    + "…[truncated]"@,
            )
        }),
{
    let parts = pieces(body_of(record));
    let prose = join(parts, seq!['\n']);
    lemma_pieces_are_solid(body_of(record));
    lemma_lines_are_joined(parts);
    reveal_strlit("[");
    reveal_strlit("] ");
    assert("["@ =~= seq!['[']);
    assert("] "@ =~= seq![']', ' ']);
    if parts.len() > 0 {
        lemma_with_lines_solid(parts);
        solid_text_is_trimmed(prose);
        if prose.len() > 4000 {
            assert("["@ + role_of(record) + "] "@ + (prose.take(4000) + "…[truncated]"@) =~= "["@
                + role_of(record) + "] "@ + prose.take(4000) + "…[truncated]"@);
        }
    } else {
        assert(trimmed(Seq::<char>::empty()).len() == 0);
    }
}

/// The text that stands under a name for prose, anywhere in the part of a record
/// that holds its prose, is in the entry from its first character that is no
/// white space to its last, with nothing changed and nothing left out, unless the
/// entry is longer than an entry can be without being cut.
pub proof fn every_word_of_prose_is_told(
    record: Tree,
    body: Tree,
    path: Seq<int>,
    i: int,
    text: Seq<char>,
    from: int,
    to: int,
)
    requires
        match field(record, "payload"@) {
            Some(inner) => body == inner,
            None => body == record,
        },
        is_prose_at(body, path, i, text),
        is_solid_part(text, from, to),
        from < to,
    ensures
        entry_of(record) matches Some(entry) && (entry.len() <= 4000 ==> contains(
            entry,
            text.subrange(from, to),
        )),
        pieces(body).contains(text.subrange(from, to)),
{
    let piece = text.subrange(from, to);
    trimming_leaves_the_solid_part(text, from, to);
    let inner = at_path(body, path)->0;
    let fields = inner->Object_0;
    assert(solid(text)[0] == piece);
    assert(of_field(fields[i].0, fields[i].1).contains(piece));
    lemma_field_is_told(fields, i, piece);
    assert(pieces(inner).contains(piece));
    lemma_inner_prose_is_told(body, path, piece);
    an_entry_is_the_role_and_the_prose(record);
    let parts = pieces(body);
    let k = choose|k: int| 0 <= k < parts.len() && parts[k] == piece;
    lemma_pieces_are_solid(body);
    lemma_lines_are_joined(parts);
    lemma_with_lines_holds(parts, k);
    let prose = join(parts, seq!['\n']);
    if prose.len() <= 4000 {
        let at = choose|at: int| #[trigger] occurs_at(prose, piece, at);
        let entry = seq!['['] + role_of(record) + seq![']', ' '] + prose;
        let n = entry.len() - prose.len() + at;
        assert(entry.subrange(n, n + piece.len()) =~= prose.subrange(at, at + piece.len()));
        assert(occurs_at(entry, piece, n));
    }
}

proof fn lemma_field_of_piece(fields: Seq<(Seq<char>, Tree)>, piece: Seq<char>) -> (i: int)
    requires
        field_pieces(fields).contains(piece),
    ensures
        0 <= i < fields.len(),
        of_field(fields[i].0, fields[i].1).contains(piece),
    decreases fields.len(),
{
    let all = field_pieces(fields);
    let k = choose|k: int| 0 <= k < all.len() && all[k] == piece;
    if fields.len() == 0 {
        assert(all.len() == 0);
        0
    } else {
        let front = fields.drop_last();
        lemma_field_pieces_step(fields);
        let before = field_pieces(front);
        if k < before.len() {
            assert(before[k] == piece);
            lemma_field_of_piece(front, piece)
        } else {
            let own = of_field(fields.last().0, fields.last().1);
            assert(own[k - before.len()] == piece);
            fields.len() - 1
        }
    }
}

proof fn lemma_item_of_piece(items: Seq<Tree>, piece: Seq<char>) -> (i: int)
    requires
        item_pieces(items).contains(piece),
    ensures
        0 <= i < items.len(),
        pieces(items[i]).contains(piece),
    decreases items.len(),
{
    let all = item_pieces(items);
    let k = choose|k: int| 0 <= k < all.len() && all[k] == piece;
    if items.len() == 0 {
        assert(all.len() == 0);
        0
    } else {
        let front = items.drop_last();
        lemma_item_pieces_step(items);
        let before = item_pieces(front);
        if k < before.len() {
            assert(before[k] == piece);
            lemma_item_of_piece(front, piece)
        } else {
            assert(pieces(items.last())[k - before.len()] == piece);
            items.len() - 1
        }
    }
}

/// Nothing but prose is told: each piece is the text of a field with a name for
/// prose, without the white space around it.
pub proof fn nothing_but_prose_is_told(value: Tree, piece: Seq<char>) -> (place: (
    Seq<int>,
    int,
    Seq<char>,
    int,
    int,
))
    requires
        pieces(value).contains(piece),
    ensures
        is_prose_at(value, place.0, place.1, place.2),
        is_solid_part(place.2, place.3, place.4),
        piece == place.2.subrange(place.3, place.4),
        place.3 < place.4,
    decreases value,
{
    match value {
        Tree::Object(_) => {
            let fields = value->Object_0;
            assert(pieces(value) == field_pieces(fields));
            let i = lemma_field_of_piece(fields, piece);
            assert(decreases_to!(value => value->Object_0));
            assert(decreases_to!(fields => fields[i]));
            assert(decreases_to!(fields[i] => fields[i].1));
            if fields[i].1 is Text && (fields[i].0 == "text"@ || fields[i].0 == "content"@
                || fields[i].0 == "command"@ || fields[i].0 == "description"@ || fields[i].0
                == "reasoning"@) {
                let text = fields[i].1->Text_0;
                let (from, to) = there_is_a_solid_part(text);
                assert(at_path(value, Seq::empty()) == Some(value));
                (Seq::empty(), i, text, from, to)
            } else {
                let below = nothing_but_prose_is_told(fields[i].1, piece);
                let path = seq![i] + below.0;
                assert(path.skip(1) =~= below.0);
                (path, below.1, below.2, below.3, below.4)
            }
        },
        Tree::Array(_) => {
            let items = value->Array_0;
            assert(pieces(value) == item_pieces(items));
            let i = lemma_item_of_piece(items, piece);
            assert(decreases_to!(value => value->Array_0));
            assert(decreases_to!(items => items[i]));
            let below = nothing_but_prose_is_told(items[i], piece);
            let path = seq![i] + below.0;
            assert(path.skip(1) =~= below.0);
            (path, below.1, below.2, below.3, below.4)
        },
        _ => {
            assert(pieces(value).len() == 0);
            (Seq::empty(), 0, Seq::empty(), 0, 0)
        },
    }
}

/// A field is the first of its name: no field before it is called so.
pub proof fn a_field_is_the_first_of_its_name(
    fields: Seq<(Seq<char>, Tree)>,
    key: Seq<char>,
    i: int,
)
    requires
        0 <= i <= fields.len(),
        forall|j: int| 0 <= j < i ==> (#[trigger] fields[j]).0 != key,
    ensures
        i < fields.len() && fields[i].0 == key ==> field(Tree::Object(fields), key) == Some(
            fields[i].1,
        ),
        i == fields.len() ==> field(Tree::Object(fields), key) is None,
    decreases fields.len(),
{
    if i > 0 {
        assert(fields[0].0 != key);
        let rest = fields.skip(1);
        assert forall|j: int| 0 <= j < i - 1 implies (#[trigger] rest[j]).0 != key by {
            assert(fields[j + 1].0 != key);
        }
        a_field_is_the_first_of_its_name(rest, key, i - 1);
        assert(field(Tree::Object(fields), key) == first_field(rest, key));
    }
}

/// Who speaks in a record: the role of the message in it, or else the role beside
/// it, or else what kind of record the inner part is, or else what kind the whole
/// is, or else just an entry.
pub proof fn the_role_is_the_nearest_name(record: Tree, body: Tree, name: Seq<char>)
    requires
        match field(record, "payload"@) {
            Some(inner) => body == inner,
            None => body == record,
        },
    ensures
        (field(body, "message"@) matches Some(message) && field(message, "role"@) == Some(
            Tree::Text(name),
        )) ==> role_of(record) == name,
        ({
            let no_inner = match field(body, "message"@) {
                Some(message) => field(message, "role"@) is None,
                None => true,
            };
            &&& no_inner && field(body, "role"@) == Some(Tree::Text(name)) ==> role_of(record)
                == name
            &&& no_inner && field(body, "role"@) is None && field(body, "type"@) == Some(
                Tree::Text(name),
            ) ==> role_of(record) == name
            &&& no_inner && field(body, "role"@) is None && field(body, "type"@) is None && field(
                record,
                "type"@,
            ) == Some(Tree::Text(name)) ==> role_of(record) == name
            &&& no_inner && field(body, "role"@) is None && field(body, "type"@) is None && field(
                record,
                "type"@,
            ) is None ==> role_of(record) == "entry"@
        }),
        body_of(record) == body,
{
}

/// A record whose payload is an object shows the one host, any other with a
/// session id at the top shows the other, and a record with neither shows none.
pub proof fn hosts_are_told_by_what_they_write(record: Tree, fields: Seq<(Seq<char>, Tree)>)
    ensures
        field(record, "payload"@) == Some(Tree::Object(fields)) ==> detected(record) == Some(
            Host::Codex,
        ),
        field(record, "payload"@) is None && field(record, "sessionId"@) is Some ==> detected(
            record,
        ) == Some(Host::Claude),
        field(record, "payload"@) is None && field(record, "sessionId"@) is None ==> detected(
            record,
        ) is None,
        detected(record) == Some(Host::Codex) ==> (field(record, "payload"@) matches Some(inner)
            && inner is Object),
{
}

/// Whether `at` is later than the boundary, by the seconds and then by the
/// nanoseconds. Without a boundary everything is.
pub open spec fn is_later(at: Instant, since: Option<Instant>) -> bool {
    match since {
        Some(boundary) => at.0 > boundary.0 || (at.0 == boundary.0 && at.1 > boundary.1),
        None => true,
    }
}

/// A record in a line is in the window exactly when it has a timestamp that can
/// be read and that is later than the boundary. Then the window ends with that
/// timestamp as it stands, and what the record contributes comes last; else
/// neither changes.
pub proof fn a_line_is_in_the_window_if_it_is_later(
    cut: Cut,
    line: Seq<char>,
    from: int,
    to: int,
    record: Tree,
    stamp: Seq<char>,
    at: Instant,
    since: Option<Instant>,
)
    requires
        is_solid_part(line, from, to),
        from < to,
        parsed_tree(line.subrange(from, to)) == Some(record),
    ensures
        field(record, "timestamp"@) == Some(Tree::Text(stamp)) && instant_of(stamp) == Some(at)
            && is_later(at, since) ==> {
            &&& with_line(cut, line, since).last_ts == Some(stamp)
            &&& with_line(cut, line, since).entries == cut.entries + (match entry_of(record) {
                Some(entry) => seq![entry],
                None => Seq::empty(),
            })
        },
        !(field(record, "timestamp"@) == Some(Tree::Text(stamp)) && instant_of(stamp) == Some(at)
            && is_later(at, since)) && (field(record, "timestamp"@) matches Some(Tree::Text(other))
            ==> other == stamp && (instant_of(stamp) matches Some(time) ==> time == at)) ==> {
            &&& with_line(cut, line, since).last_ts == cut.last_ts
            &&& with_line(cut, line, since).entries == cut.entries
        },
        with_line(cut, line, since).host == (match cut.host {
            Some(host) => Some(host),
            None => detected(record),
        }),
{
    trimming_leaves_the_solid_part(line, from, to);
    if entry_of(record) is Some {
        assert(cut.entries.push(entry_of(record)->0) =~= cut.entries + seq![entry_of(record)->0]);
    } else {
        assert(cut.entries + Seq::<Seq<char>>::empty() =~= cut.entries);
    }
}

/// What is found in a journal is what is found in its first part and then what is
/// found in the rest: no line is passed over and none is read twice. The host is
/// the first that shows, and the window ends where the last part of it ends that
/// has an end.
pub proof fn journals_are_read_line_by_line(
    a: Seq<Seq<char>>,
    b: Seq<Seq<char>>,
    since: Option<Instant>,
)
    ensures
        ({
            let first = cut_of(a, since);
            let second = cut_of(b, since);
            let all = cut_of(a + b, since);
            &&& all.entries == first.entries + second.entries
            &&& all.last_ts == (match second.last_ts {
                Some(stamp) => Some(stamp),
                None => first.last_ts,
            })
            &&& all.host == (match first.host {
                Some(host) => Some(host),
                None => second.host,
            })
        }),
        b.len() == 0 ==> cut_of(b, since).entries.len() == 0,
        b.len() == 1 ==> cut_of(b, since) == with_line(
            (Cut { host: None, last_ts: None, entries: Seq::empty() }),
            b[0],
            since,
        ),
    decreases b.len(),
{
    if b.len() == 0 {
        assert(a + b =~= a);
        assert(cut_of(a, since).entries + cut_of(b, since).entries =~= cut_of(a, since).entries);
    } else {
        journals_are_read_line_by_line(a, b.drop_last(), since);
        assert((a + b).drop_last() =~= a + b.drop_last());
        assert(cut_of(a + b, since).entries =~= cut_of(a, since).entries + cut_of(
            b,
            since,
        ).entries);
        if b.len() == 1 {
            assert(b.drop_last() =~= Seq::empty());
        }
    }
}

/// A window that fits is told whole: the transcript is all that its records
/// contribute, oldest first, with a blank line between them.
pub proof fn a_window_that_fits_is_told_whole(entries: Seq<Seq<char>>)
    requires
        join(entries, seq!['\n', '\n']).len() <= 300_000,
    ensures
        transcript(entries) == join(entries, seq!['\n', '\n']),
{
    reveal_strlit("\n\n");
    assert("\n\n"@ =~= seq!['\n', '\n']);
    lemma_join_total(entries, "\n\n"@);
    lemma_tail(entries, 600_000);
}

/// A window that does not fit is told from its end: behind a note that something
/// is missing stand the last three hundred thousand characters of what it would
/// have been. This leaves out records that would fill the window alone.
pub proof fn a_window_that_does_not_fit_keeps_its_end(entries: Seq<Seq<char>>)
    requires
        join(entries, seq!['\n', '\n']).len() > 300_000,
        forall|i: int| 0 <= i < entries.len() ==> (#[trigger] entries[i]).len() <= 300_000,
    ensures
        ({
            let whole = join(entries, seq!['\n', '\n']);
            transcript(entries) == "[... earlier entries dropped ...]\n"@ + whole.subrange(
                whole.len() - 300_000,
                whole.len() as int,
            )
        }),
{
    reveal_strlit("\n\n");
    assert("\n\n"@ =~= seq!['\n', '\n']);
    held_entries_fill_the_window(entries);
    shedding_does_not_show(entries);
    let whole = join(entries, seq!['\n', '\n']);
    assert(whole.skip(whole.len() - 300_000) =~= whole.subrange(
        whole.len() - 300_000,
        whole.len() as int,
    ));
}

/// The sizes of two rows of entries add up, and that of one entry is its length.
pub proof fn sizes_add_up(a: Seq<Seq<char>>, b: Seq<Seq<char>>)
    ensures
        total(a + b) == total(a) + total(b),
        a.len() == 1 ==> total(a) == a[0].len(),
        a.len() == 0 ==> total(a) == 0,
    decreases a.len(),
{
    if a.len() == 0 {
        assert(a + b =~= b);
    } else {
        sizes_add_up(a.skip(1), b);
        assert((a + b).skip(1) =~= a.skip(1) + b);
    }
}

/// What is held is the end of what was found, and as much of it as the bound
/// allows: one entry more would be too much. The transcript is made of what is
/// held.
pub proof fn as_much_is_held_as_can_be(entries: Seq<Seq<char>>, max: nat, from: int)
    ensures
        tail(entries, max).len() <= entries.len(),
        tail(entries, max) == entries.skip(entries.len() - tail(entries, max).len()),
        total(tail(entries, max)) <= max,
        0 <= from < entries.len() - tail(entries, max).len() ==> total(entries.skip(from)) > max,
        ({
            let held = tail(entries, 600_000);
            let whole = join(held, seq!['\n', '\n']);
            let note = "[... earlier entries dropped ...]\n"@;
            &&& whole.len() > 300_000 ==> transcript(entries) == note + whole.skip(
                whole.len() - 300_000,
            )
            &&& whole.len() <= 300_000 && held.len() < entries.len() ==> transcript(entries) == note
                + whole
            &&& whole.len() <= 300_000 && held.len() == entries.len() ==> transcript(entries)
                == whole
        }),
    decreases entries.len(),
{
    reveal_strlit("\n\n");
    assert("\n\n"@ =~= seq!['\n', '\n']);
    lemma_tail(entries, max);
    lemma_tail(entries, 600_000);
    if entries.len() > 0 && total(entries) > max {
        if 0 < from {
            as_much_is_held_as_can_be(entries.skip(1), max, from - 1);
            if from < entries.len() {
                assert(entries.skip(1).skip(from - 1) =~= entries.skip(from));
            }
        }
        assert(entries.skip(0) =~= entries);
    }
}

/// The window of a journal is the transcript of what was found, with the
/// timestamp that it ended with. Where no record shows a host it is taken for a
/// transcript.
pub proof fn a_window_is_what_was_found(cut: Cut)
    ensures
        window_of(cut).text == transcript(cut.entries),
        window_of(cut).last_ts == cut.last_ts,
        cut.host matches Some(host) ==> window_of(cut).host == host,
        cut.host is None ==> window_of(cut).host == Host::Claude,
{
}

/// A line of a journal is read when it is UTF-8 and no longer than thirty-two
/// mebibytes, and then as the text that it encodes; any other is passed over and
/// leaves the rest as it is.
pub proof fn readable_lines_are_read(a: Seq<Seq<u8>>, b: Seq<Seq<u8>>, line: Seq<u8>)
    ensures
        readable(a + b) == readable(a) + readable(b),
        vstd::utf8::valid_utf8(line) && line.len() <= 33_554_432 ==> readable(seq![line]) == seq![
            vstd::utf8::decode_utf8(line),
        ],
        !(vstd::utf8::valid_utf8(line) && line.len() <= 33_554_432) ==> readable(seq![line]).len()
            == 0,
    decreases b.len(),
{
    let one = seq![line];
    assert(one.drop_last() =~= Seq::empty());
    assert(readable(Seq::empty()) =~= Seq::<Seq<char>>::empty());
    assert(readable(one) =~= (match line_text(line) {
        Some(text) => seq![text],
        None => Seq::empty(),
    }));
    if b.len() == 0 {
        assert(a + b =~= a);
        assert(readable(a) + readable(b) =~= readable(a));
    } else {
        readable_lines_are_read(a, b.drop_last(), line);
        assert((a + b).drop_last() =~= a + b.drop_last());
        assert(readable(a + b) =~= readable(a) + readable(b));
    }
}

proof fn lemma_drained_whole(seen: Seq<u8>, line: Seq<u8>)
    requires
        forall|i: int| 0 <= i < line.len() ==> #[trigger] line[i] != 10,
    ensures
        drained(seen, line) == (Seq::<Seq<u8>>::empty(), seen + line),
    decreases line.len(),
{
    if line.len() > 0 {
        assert(line[0] != 10);
        assert forall|i: int| 0 <= i < line.skip(1).len() implies #[trigger] line.skip(1)[i]
            != 10 by {
            assert(line[i + 1] != 10);
        }
        lemma_drained_whole(seen.push(line[0]), line.skip(1));
        assert(seen.push(line[0]) + line.skip(1) =~= seen + line);
    } else {
        assert(seen + line =~= seen);
    }
}

proof fn lemma_drained_first(seen: Seq<u8>, line: Seq<u8>, rest: Seq<u8>)
    requires
        forall|i: int| 0 <= i < line.len() ==> #[trigger] line[i] != 10,
    ensures
        drained(seen, line + seq![10u8] + rest).0 == seq![seen + line + seq![10u8]] + drained(
            Seq::empty(),
            rest,
        ).0,
        drained(seen, line + seq![10u8] + rest).1 == drained(Seq::empty(), rest).1,
    decreases line.len(),
{
    let bytes = line + seq![10u8] + rest;
    if line.len() > 0 {
        assert(line[0] != 10);
        assert forall|i: int| 0 <= i < line.skip(1).len() implies #[trigger] line.skip(1)[i]
            != 10 by {
            assert(line[i + 1] != 10);
        }
        lemma_drained_first(seen.push(line[0]), line.skip(1), rest);
        assert(bytes.skip(1) =~= line.skip(1) + seq![10u8] + rest);
        assert(seen.push(line[0]) + line.skip(1) =~= seen + line);
    } else {
        assert(bytes.skip(1) =~= rest);
        assert(seen.push(10u8) =~= seen + line + seq![10u8]);
    }
}

/// The lines of a journal are what its newlines end: the first is all up to the
/// first newline, and the others are those of what stands behind it. What stands
/// behind the last newline is a line too, unless it is empty.
pub proof fn journals_are_cut_at_newlines(line: Seq<u8>, rest: Seq<u8>)
    requires
        forall|i: int| 0 <= i < line.len() ==> #[trigger] line[i] != 10,
    ensures
        byte_lines(line + seq![10u8] + rest) == seq![line + seq![10u8]] + byte_lines(rest),
        line.len() > 0 ==> byte_lines(line) == seq![line],
        byte_lines(Seq::empty()) == Seq::<Seq<u8>>::empty(),
{
    lemma_drained_first(Seq::empty(), line, rest);
    lemma_drained_whole(Seq::empty(), line);
    assert(Seq::<u8>::empty() + line =~= line);
    assert(byte_lines(line + seq![10u8] + rest) =~= seq![line + seq![10u8]] + byte_lines(rest));
    if line.len() > 0 {
        assert(byte_lines(line) =~= seq![line]);
    }
}

/// A line that holds nothing but white space, or no record, changes nothing.
pub proof fn lines_without_a_record_change_nothing(
    cut: Cut,
    line: Seq<char>,
    from: int,
    to: int,
    since: Option<Instant>,
)
    requires
        is_solid_part(line, from, to),
        from == to || parsed_tree(line.subrange(from, to)) is None,
    ensures
        with_line(cut, line, since) == cut,
{
    trimming_leaves_the_solid_part(line, from, to);
}

/// The boundary of a window is the time that its text stands for; without a text,
/// or with one that cannot be read, there is none.
pub proof fn boundaries_are_read_as_times(since: &str)
    ensures
        boundary(Some(since)) == instant_of(since@),
        boundary(None) is None,
{
}

/// Of lines among which some could not be read, the first such is the one that is
/// told of; where there is none, every line is read as it is.
pub proof fn the_first_error_is_told_of(lines: Seq<Result<String, Fault>>, i: int)
    requires
        0 <= i <= lines.len(),
        forall|j: int| 0 <= j < i ==> (#[trigger] lines[j]) is Ok,
    ensures
        i < lines.len() && lines[i] is Err ==> first_error(lines) == Some(i),
        i == lines.len() ==> first_error(lines) is None && good_lines(lines).len() == lines.len()
            && forall|j: int|
            0 <= j < lines.len() ==> #[trigger] good_lines(lines)[j] == (lines[j]->Ok_0)@,
    decreases lines.len(),
{
    if i > 0 {
        assert(lines[0] is Ok);
        let rest = lines.skip(1);
        assert forall|j: int| 0 <= j < i - 1 implies (#[trigger] rest[j]) is Ok by {
            assert(lines[j + 1] is Ok);
        }
        the_first_error_is_told_of(rest, i - 1);
        if i < lines.len() {
            assert(rest[i - 1] == lines[i]);
        }
    }
}

/// A text is cut after a number of characters only where it has more, and then a
/// note is put behind that many of them.
pub proof fn texts_are_cut_where_they_are_too_long(text: Seq<char>, max: int)
    requires
        0 <= max,
    ensures
        text.len() <= max ==> truncated(text, max) == text,
        text.len() > max ==> truncated(text, max) == text.subrange(0, max) + "…[truncated]"@,
{
    if text.len() > max {
        assert(text.subrange(0, max) =~= text.take(max));
    }
}

} // verus!
