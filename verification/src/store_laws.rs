//! What holds of the store as a whole: where its files can be, and what its
//! operations do to the rows and markers on the disk.

use vstd::prelude::*;

use crate::disk::{
    BodyView, Content, Disk, after, after_all, at, atomic_write, before_last_dot,
    no_file_is_seen_half_written, temp_path, written_whole,
};
use crate::fault::message_of;
use crate::numeral::{
    decimal, is_decimal, numeral, numeral_holds_digits, numeral_reads_back, numerals_are_distinct,
};
use crate::store::{
    Entry, RowRead, RowReadView, RowView, TextReadView, base_in, cleaned, cloned, complaint,
    complaints, cortex_in, deadline_at, first_named, in_base36, is_plain, is_row_name, is_valid_id,
    joined, key_of, little_endian, marker_at, marking, moved, names_row, ongoing_state, plain_char,
    prompt_note, prompt_steps, prompt_text, readable_rows, ready_state, row_at, saving, slug_of,
    taking, trim_dots_end, trim_dots_start, unmarking,
};
use crate::text::{begins_with, ends_with, is_space};

verus! {

/// A store stays where it is. One that was made in `~/.amtr`, because there was
/// no `~/.local`, is found there even once some other program has made
/// `~/.local`; and while there is no `~/.amtr`, the place depends on `~/.local`
/// alone.
pub proof fn the_store_stays_where_it_is(home: Seq<char>, has_local: bool)
    ensures
        base_in(home, true, has_local) == base_in(home, false, false),
        base_in(home, true, has_local) == joined(home, ".amtr"@),
        base_in(home, false, true) == joined(home, ".local/share/amtr"@),
{
}

proof fn lemma_trim_dots_start(text: Seq<char>)
    ensures
        trim_dots_start(text).len() <= text.len(),
        trim_dots_start(text) == text.skip(text.len() - trim_dots_start(text).len()),
        trim_dots_start(text).len() > 0 ==> trim_dots_start(text).first() != '.',
        text.len() > 0 && text.first() != '.' ==> trim_dots_start(text) == text,
    decreases text.len(),
{
    if text.len() > 0 && text.first() == '.' {
        lemma_trim_dots_start(text.skip(1));
        let kept = trim_dots_start(text);
        assert(text.skip(1).skip(text.len() - 1 - kept.len()) =~= text.skip(
            text.len() - kept.len(),
        ));
    } else {
        assert(text.skip(0) =~= text);
    }
}

proof fn lemma_trim_dots_end(text: Seq<char>)
    ensures
        trim_dots_end(text).len() <= text.len(),
        trim_dots_end(text) == text.take(trim_dots_end(text).len() as int),
        trim_dots_end(text).len() > 0 ==> trim_dots_end(text).last() != '.',
        text.len() > 0 && text.last() != '.' ==> trim_dots_end(text) == text,
    decreases text.len(),
{
    if text.len() > 0 && text.last() == '.' {
        lemma_trim_dots_end(text.drop_last());
        let kept = trim_dots_end(text);
        assert(text.drop_last().take(kept.len() as int) =~= text.take(kept.len() as int));
    } else {
        assert(text.take(text.len() as int) =~= text);
    }
}

/// Whatever a session is called, its part of a file name is not empty, holds
/// plain characters alone, and begins and ends with no dot. So it holds no
/// separator and cannot lead out of the directory.
pub proof fn slugs_stay_inside(session_id: Seq<char>)
    ensures
        slug_of(session_id).len() > 0,
        forall|i: int|
            0 <= i < slug_of(session_id).len() ==> is_plain(#[trigger] slug_of(session_id)[i]),
        forall|i: int| 0 <= i < slug_of(session_id).len() ==> slug_of(session_id)[i] != '/',
        slug_of(session_id).first() != '.',
        slug_of(session_id).last() != '.',
{
    reveal_strlit("_");
    let all = cleaned(session_id);
    let inner = trim_dots_start(all);
    let kept = trim_dots_end(inner);
    lemma_trim_dots_start(all);
    lemma_trim_dots_end(inner);
    assert forall|i: int| 0 <= i < slug_of(session_id).len() implies is_plain(
        #[trigger] slug_of(session_id)[i],
    ) && slug_of(session_id)[i] != '/' by {
        if kept.len() > 0 {
            let from = all.len() - inner.len();
            assert(kept[i] == inner[i]);
            assert(inner[i] == all[from + i]);
            assert(all[from + i] == plain_char(vstd::utf8::encode_utf8(session_id)[from + i]));
        }
    }
    if kept.len() > 0 {
        assert(kept.first() == inner.first());
    }
}

/// A session id of plain characters, with no dot at either end, is its own
/// part of the file name. Two such sessions never share a file.
pub proof fn plain_ids_stand_for_themselves(session_id: Seq<char>)
    requires
        is_valid_id(session_id),
        session_id.first() != '.',
        session_id.last() != '.',
    ensures
        slug_of(session_id) == session_id,
{
    assert(vstd::utf8::is_ascii_chars(session_id)) by {
        assert forall|i: int| 0 <= i < session_id.len() implies '\0' <= #[trigger] session_id[i]
            <= '\u{7f}' by {
            assert(is_plain(session_id[i]));
        }
    }
    vstd::utf8::is_ascii_chars_encode_utf8(session_id);
    let bytes = vstd::utf8::encode_utf8(session_id);
    let all = cleaned(session_id);
    assert forall|i: int| 0 <= i < session_id.len() implies all[i] == session_id[i] by {
        assert(is_plain(session_id[i]));
        assert(bytes[i] == session_id[i] as u8);
        assert(all[i] == plain_char(bytes[i]));
    }
    assert(all =~= session_id);
    lemma_trim_dots_start(all);
    lemma_trim_dots_end(all);
}

proof fn lemma_base36_holds_no_hyphen(n: nat)
    ensures
        in_base36(n).len() > 0,
        forall|i: int| 0 <= i < in_base36(n).len() ==> #[trigger] in_base36(n)[i] != '-',
        forall|i: int|
            0 <= i < in_base36(n).len() ==> is_decimal(#[trigger] in_base36(n)[i]) || ('a'
                <= in_base36(n)[i] && in_base36(n)[i] <= 'z'),
{
    numeral_reads_back(n, 36);
    assert forall|i: int| 0 <= i < in_base36(n).len() implies is_decimal(#[trigger] in_base36(n)[i])
        || ('a' <= in_base36(n)[i] && in_base36(n)[i] <= 'z') by {
        numeral_holds_digits(n, 36, i);
    }
}

/// Every key begins with `amtr-` and is made of lower-case letters, digits and
/// hyphens, so that it can be read out and typed.
pub proof fn keys_can_be_read_out(millis: i64, random: u64)
    ensures
        begins_with(key_of(millis, random), "amtr-"@),
        key_of(millis, random).len() > 7,
        forall|i: int|
            0 <= i < key_of(millis, random).len() ==> {
                let c = #[trigger] key_of(millis, random)[i];
                is_decimal(c) || ('a' <= c && c <= 'z') || c == '-'
            },
{
    reveal_strlit("amtr-");
    reveal_strlit("-");
    let at: nat = if millis < 0 {
        0
    } else {
        millis as nat
    };
    lemma_base36_holds_no_hyphen(at);
    lemma_base36_holds_no_hyphen(random as nat);
    let key = key_of(millis, random);
    let first = in_base36(at);
    let second = in_base36(random as nat);
    assert(key.subrange(0, 5) =~= "amtr-"@);
    assert forall|i: int| 0 <= i < key.len() implies {
        let c = #[trigger] key[i];
        is_decimal(c) || ('a' <= c && c <= 'z') || c == '-'
    } by {
        if i < 5 {
            assert(key[i] == "amtr-"@[i]);
        } else if i < 5 + first.len() {
            assert(key[i] == first[i - 5]);
        } else if i > 5 + first.len() {
            assert(key[i] == second[i - 6 - first.len()]);
        }
    }
}

/// Two keys are the same only if they were minted in the same millisecond with
/// the same random number.
pub proof fn keys_are_distinct(millis: i64, random: u64, other_millis: i64, other_random: u64)
    requires
        millis >= 0,
        other_millis >= 0,
        key_of(millis, random) == key_of(other_millis, other_random),
    ensures
        millis == other_millis,
        random == other_random,
{
    reveal_strlit("amtr-");
    reveal_strlit("-");
    lemma_base36_holds_no_hyphen(millis as nat);
    lemma_base36_holds_no_hyphen(other_millis as nat);
    let key = key_of(millis, random);
    let a = in_base36(millis as nat);
    let b = in_base36(other_millis as nat);
    assert(key[5 + a.len() as int] == '-');
    assert(key[5 + b.len() as int] == '-');
    if a.len() < b.len() {
        assert(key[5 + a.len() as int] == b[a.len() as int]);
    }
    if b.len() < a.len() {
        assert(key[5 + b.len() as int] == a[b.len() as int]);
    }
    assert(a =~= key.subrange(5, 5 + a.len() as int));
    assert(b =~= key.subrange(5, 5 + b.len() as int));
    numerals_are_distinct(millis as nat, other_millis as nat, 36);
    let c = in_base36(random as nat);
    let d = in_base36(other_random as nat);
    assert(c =~= key.skip(6 + a.len() as int));
    assert(d =~= key.skip(6 + b.len() as int));
    numerals_are_distinct(random as nat, other_random as nat, 36);
}

proof fn lemma_joined_ends(base: Seq<char>, name: Seq<char>)
    requires
        name.len() > 0,
    ensures
        joined(base, name).len() >= name.len(),
        joined(base, name).last() == name.last(),
        joined(base, name).skip(joined(base, name).len() - name.len()) == name,
{
    let path = joined(base, name);
    assert(path.skip(path.len() - name.len()) =~= name);
}

proof fn lemma_joined_apart(base: Seq<char>, a: Seq<char>, b: Seq<char>)
    requires
        joined(base, a) == joined(base, b),
    ensures
        a == b,
{
    let path = joined(base, a);
    if base.len() == 0 || base.last() == '/' {
        assert(path.skip(base.len() as int) =~= a);
        assert(path.skip(base.len() as int) =~= b);
    } else {
        reveal_strlit("/");
        assert(path.skip(base.len() as int + 1) =~= a);
        assert(path.skip(base.len() as int + 1) =~= b);
    }
}

proof fn lemma_store_files(base: Seq<char>, session_id: Seq<char>)
    ensures
        row_at(base, session_id).last() == 'n',
        marker_at(base, session_id).last() == 'r',
        deadline_at(base, session_id).last() == 'e',
{
    reveal_strlit(".json");
    reveal_strlit(".marker");
    reveal_strlit(".deliver-deadline");
    let cortex = cortex_in(base);
    let slug = slug_of(session_id);
    lemma_joined_ends(cortex, slug + ".json"@);
    lemma_joined_ends(cortex, slug + ".marker"@);
    lemma_joined_ends(cortex, slug + ".deliver-deadline"@);
}

proof fn lemma_temp_ends(path: Seq<char>, pid: u32)
    ensures
        is_decimal(temp_path(path, pid).last()),
{
    numeral_reads_back(pid as nat, 10);
    let digits = decimal(pid as nat);
    numeral_holds_digits(pid as nat, 10, digits.len() - 1);
    assert(temp_path(path, pid).last() == digits.last());
}

/// The row, the marker and the deadline of sessions are all different files,
/// and none of them is a name under which another is written first. Two
/// sessions share a row, a marker or a deadline only if they share the part of
/// the file name that stands for them.
pub proof fn files_do_not_collide(
    base: Seq<char>,
    a: Seq<char>,
    b: Seq<char>,
    path: Seq<char>,
    pid: u32,
)
    ensures
        row_at(base, a) != marker_at(base, b),
        row_at(base, a) != deadline_at(base, b),
        marker_at(base, a) != deadline_at(base, b),
        row_at(base, a) == row_at(base, b) <==> slug_of(a) == slug_of(b),
        marker_at(base, a) == marker_at(base, b) <==> slug_of(a) == slug_of(b),
        deadline_at(base, a) == deadline_at(base, b) <==> slug_of(a) == slug_of(b),
        temp_path(path, pid) != row_at(base, a),
        temp_path(path, pid) != marker_at(base, a),
        temp_path(path, pid) != deadline_at(base, a),
{
    lemma_store_files(base, a);
    lemma_store_files(base, b);
    lemma_temp_ends(path, pid);
    let cortex = cortex_in(base);
    if row_at(base, a) == row_at(base, b) {
        lemma_joined_apart(cortex, slug_of(a) + ".json"@, slug_of(b) + ".json"@);
        lemma_same_start(slug_of(a), slug_of(b), ".json"@);
    }
    if marker_at(base, a) == marker_at(base, b) {
        lemma_joined_apart(cortex, slug_of(a) + ".marker"@, slug_of(b) + ".marker"@);
        lemma_same_start(slug_of(a), slug_of(b), ".marker"@);
    }
    if deadline_at(base, a) == deadline_at(base, b) {
        lemma_joined_apart(
            cortex,
            slug_of(a) + ".deliver-deadline"@,
            slug_of(b) + ".deliver-deadline"@,
        );
        lemma_same_start(slug_of(a), slug_of(b), ".deliver-deadline"@);
    }
}

proof fn lemma_same_start(a: Seq<char>, b: Seq<char>, end: Seq<char>)
    requires
        a + end == b + end,
    ensures
        a == b,
{
    assert((a + end).len() == (b + end).len());
    assert(a =~= (a + end).take(a.len() as int));
    assert(b =~= (b + end).take(b.len() as int));
}

/// The row that a session has on the disk.
pub open spec fn row_on(disk: Disk, base: Seq<char>, session_id: Seq<char>) -> Option<RowView> {
    match at(disk, row_at(base, session_id)) {
        Some(Content::Whole(BodyView::Row(row))) => Some(row),
        _ => None,
    }
}

/// What the marker of a session says on the disk.
pub open spec fn state_on(disk: Disk, base: Seq<char>, session_id: Seq<char>) -> Option<Seq<char>> {
    match at(disk, marker_at(base, session_id)) {
        Some(Content::Whole(BodyView::Text(state))) => Some(state),
        _ => None,
    }
}

/// Saving a row puts it in the place of the row that the session had. The rows
/// of other sessions stay, and so does every marker.
pub proof fn saving_overwrites(
    disk: Disk,
    base: Seq<char>,
    row: RowView,
    other: Seq<char>,
    pid: u32,
)
    ensures
        ({
            let saved = after_all(disk, saving(base, row, pid));
            &&& row_on(saved, base, row.session_id) == Some(row)
            &&& slug_of(other) != slug_of(row.session_id) ==> row_on(saved, base, other) == row_on(
                disk,
                base,
                other,
            )
            &&& state_on(saved, base, other) == state_on(disk, base, other)
        }),
{
    let path = row_at(base, row.session_id);
    written_whole(disk, path, BodyView::Row(row), pid);
    files_do_not_collide(base, row.session_id, other, path, pid);
    files_do_not_collide(base, other, row.session_id, path, pid);
}

/// Whether some file of the store holds a row that goes by the name `key`.
pub open spec fn resolves(disk: Disk, key: Seq<char>) -> bool {
    exists|path: Seq<char>| #[trigger] holds_key(disk, path, key)
}

/// Whether the file `path` holds a row that goes by the name `key`.
pub open spec fn holds_key(disk: Disk, path: Seq<char>, key: Seq<char>) -> bool {
    at(disk, path) matches Some(Content::Whole(BodyView::Row(row))) && row.amtr_key == Some(key)
}

/// A key names one snapshot and no lineage: once the session that alone had it
/// has saved a row of another name, the old key finds nothing.
pub proof fn superseded_keys_do_not_resolve(
    disk: Disk,
    base: Seq<char>,
    row: RowView,
    key: Seq<char>,
    pid: u32,
)
    requires
        row.amtr_key != Some(key),
        forall|path: Seq<char>| #[trigger]
            holds_key(disk, path, key) ==> path == row_at(base, row.session_id),
    ensures
        !resolves(after_all(disk, saving(base, row, pid)), key),
{
    let path = row_at(base, row.session_id);
    let saved = after_all(disk, saving(base, row, pid));
    written_whole(disk, path, BodyView::Row(row), pid);
    assert forall|other: Seq<char>| !#[trigger] holds_key(saved, other, key) by {
        if other != path && other != temp_path(path, pid) {
            assert(at(saved, other) == at(disk, other));
            assert(!holds_key(disk, other, key));
        }
    }
}

/// A move hands the row over: the taking session has it, under its own name
/// and with the same key, and the giving session has none. A move onto the
/// session itself keeps the row.
pub proof fn moving_transfers(
    disk: Disk,
    base: Seq<char>,
    row: RowView,
    taker: Seq<char>,
    other: Seq<char>,
    pid: u32,
)
    ensures
        ({
            let taken = after_all(disk, taking(base, row, taker, pid));
            &&& row_on(taken, base, taker) == Some(moved(row, taker))
            &&& slug_of(row.session_id) != slug_of(taker) ==> row_on(taken, base, row.session_id)
                is None
            &&& slug_of(other) != slug_of(taker) && slug_of(other) != slug_of(row.session_id)
                ==> row_on(taken, base, other) == row_on(disk, base, other)
            &&& state_on(taken, base, other) == state_on(disk, base, other)
        }),
{
    let save = saving(base, moved(row, taker), pid);
    let giver = row.session_id;
    saving_overwrites(disk, base, moved(row, taker), giver, pid);
    saving_overwrites(disk, base, moved(row, taker), other, pid);
    files_do_not_collide(base, giver, taker, Seq::empty(), pid);
    files_do_not_collide(base, giver, other, Seq::empty(), pid);
    if slug_of(giver) != slug_of(taker) {
        let steps = taking(base, row, taker, pid);
        assert(steps.drop_last() =~= save);
        assert(after_all(disk, steps) == after(after_all(disk, save), steps.last()));
    }
}

/// A move never loses the row on the way: however far its steps have come, the
/// giving session still has it or the taking session has it already.
pub proof fn moving_never_loses_the_row(
    disk: Disk,
    base: Seq<char>,
    row: RowView,
    taker: Seq<char>,
    pid: u32,
    done: int,
)
    requires
        row_on(disk, base, row.session_id) == Some(row),
        0 <= done <= taking(base, row, taker, pid).len(),
    ensures
        ({
            let seen = after_all(disk, taking(base, row, taker, pid).take(done));
            ||| row_on(seen, base, row.session_id) == Some(row)
            ||| row_on(seen, base, taker) == Some(moved(row, taker))
        }),
{
    let save = saving(base, moved(row, taker), pid);
    let steps = taking(base, row, taker, pid);
    let path = row_at(base, taker);
    if done <= 4 {
        assert(steps.take(done) =~= save.take(done));
        no_file_is_seen_half_written(
            disk,
            path,
            BodyView::Row(moved(row, taker)),
            pid,
            done,
        );
        files_do_not_collide(base, row.session_id, taker, path, pid);
        if slug_of(row.session_id) == slug_of(taker) {
            assert(row_at(base, row.session_id) == path);
        }
    } else {
        assert(steps.take(done) =~= steps);
        moving_transfers(disk, base, row, taker, taker, pid);
    }
}

/// A clone copies: the other session has the handoff without a key, from the
/// time of the copy on, and the source keeps its row.
pub proof fn cloning_leaves_the_source(
    disk: Disk,
    base: Seq<char>,
    row: RowView,
    taker: Seq<char>,
    when: Seq<char>,
    pid: u32,
)
    requires
        slug_of(row.session_id) != slug_of(taker),
    ensures
        ({
            let copied = after_all(disk, saving(base, cloned(row, taker, when), pid));
            &&& row_on(copied, base, taker) == Some(cloned(row, taker, when))
            &&& cloned(row, taker, when).handoff == row.handoff
            &&& cloned(row, taker, when).amtr_key is None
            &&& cloned(row, taker, when).compacted_at == when
            &&& row_on(copied, base, row.session_id) == row_on(disk, base, row.session_id)
        }),
{
    saving_overwrites(disk, base, cloned(row, taker, when), row.session_id, pid);
}

/// Marking sets the state of the session, whatever it was, and touches no row
/// and no marker of another session.
pub proof fn marking_sets_the_state(
    disk: Disk,
    base: Seq<char>,
    session_id: Seq<char>,
    state: Seq<char>,
    other: Seq<char>,
    pid: u32,
)
    ensures
        ({
            let marked = after_all(disk, marking(base, session_id, state, pid));
            &&& state_on(marked, base, session_id) == Some(state)
            &&& slug_of(other) != slug_of(session_id) ==> state_on(marked, base, other) == state_on(
                disk,
                base,
                other,
            )
            &&& row_on(marked, base, other) == row_on(disk, base, other)
        }),
{
    let path = marker_at(base, session_id);
    written_whole(disk, path, BodyView::Text(state), pid);
    files_do_not_collide(base, session_id, other, path, pid);
    files_do_not_collide(base, other, session_id, path, pid);
}

/// Clearing a debt leaves nothing owed, whether or not anything was, and
/// touches no row and no marker of another session.
pub proof fn unmarking_clears_the_debt(
    disk: Disk,
    base: Seq<char>,
    session_id: Seq<char>,
    other: Seq<char>,
)
    ensures
        ({
            let cleared = after_all(disk, unmarking(base, session_id));
            &&& state_on(cleared, base, session_id) is None
            &&& slug_of(other) != slug_of(session_id) ==> state_on(cleared, base, other)
                == state_on(disk, base, other)
            &&& row_on(cleared, base, other) == row_on(disk, base, other)
        }),
{
    files_do_not_collide(base, session_id, other, Seq::empty(), 0);
    files_do_not_collide(base, other, session_id, Seq::empty(), 0);
    let steps = unmarking(base, session_id);
    assert(steps.drop_last() =~= Seq::empty());
    assert(after_all(disk, steps.drop_last()) == disk);
}

/// Putting back what the marker said before a synthesize claimed it undoes the
/// claim: the state is the one that was there, and the row is untouched.
pub proof fn restoring_undoes_a_claim(
    disk: Disk,
    base: Seq<char>,
    session_id: Seq<char>,
    pid: u32,
)
    requires
        at(disk, marker_at(base, session_id)) is None || state_on(disk, base, session_id) is Some,
    ensures
        ({
            let claimed = after_all(disk, marking(base, session_id, ongoing_state(), pid));
            let restored = match state_on(disk, base, session_id) {
                Some(state) => after_all(claimed, marking(base, session_id, state, pid)),
                None => after_all(claimed, unmarking(base, session_id)),
            };
            &&& state_on(claimed, base, session_id) == Some(ongoing_state())
            &&& state_on(restored, base, session_id) == state_on(disk, base, session_id)
            &&& row_on(restored, base, session_id) == row_on(disk, base, session_id)
        }),
{
    let claimed = after_all(disk, marking(base, session_id, ongoing_state(), pid));
    marking_sets_the_state(disk, base, session_id, ongoing_state(), session_id, pid);
    match state_on(disk, base, session_id) {
        Some(state) => {
            marking_sets_the_state(claimed, base, session_id, state, session_id, pid);
        },
        None => {
            unmarking_clears_the_debt(claimed, base, session_id, session_id);
        },
    }
}

/// The row of every session is found again among the files of the store: its
/// name is that of a row, and neither a marker's nor a deadline's is.
pub proof fn row_files_are_known_by_name(session_id: Seq<char>)
    ensures
        is_row_name(slug_of(session_id) + ".json"@),
        !is_row_name(slug_of(session_id) + ".marker"@),
        !is_row_name(slug_of(session_id) + ".deliver-deadline"@),
{
    reveal_strlit(".json");
    reveal_strlit("json");
    reveal_strlit(".marker");
    reveal_strlit(".deliver-deadline");
    slugs_stay_inside(session_id);
    let slug = slug_of(session_id);
    lemma_before_suffix(slug, "json"@);
    assert(slug + ".json"@ =~= slug.push('.') + "json"@);
    lemma_before_suffix(slug, ".marker"@.skip(1));
    assert(slug + ".marker"@ =~= slug.push('.') + ".marker"@.skip(1));
    lemma_before_suffix(slug, ".deliver-deadline"@.skip(1));
    assert(slug + ".deliver-deadline"@ =~= slug.push('.') + ".deliver-deadline"@.skip(1));
    assert((slug + ".json"@).skip(slug.len() as int + 1) =~= "json"@);
    assert((slug + ".marker"@).skip(slug.len() as int + 1).len() == 6);
    assert((slug + ".deliver-deadline"@).skip(slug.len() as int + 1).len() == 16);
}

proof fn lemma_before_suffix(stem: Seq<char>, suffix: Seq<char>)
    requires
        forall|i: int| 0 <= i < suffix.len() ==> suffix[i] != '.',
    ensures
        before_last_dot(stem.push('.') + suffix) == Some(stem),
    decreases suffix.len(),
{
    let name = stem.push('.') + suffix;
    if suffix.len() == 0 {
        assert(name =~= stem.push('.'));
        assert(name.drop_last() =~= stem);
    } else {
        assert(name.last() == suffix.last());
        assert(suffix[suffix.len() - 1] != '.');
        lemma_before_suffix(stem, suffix.drop_last());
        assert(name.drop_last() =~= stem.push('.') + suffix.drop_last());
    }
}

/// The characters that a session id may hold are the ASCII letters and digits,
/// the dot, the underscore and the hyphen; an id holds at least one character
/// and no others.
pub proof fn ids_hold_plain_characters(c: char, id: Seq<char>, i: int)
    ensures
        is_plain(c) <==> (0x30 <= c as u32 <= 0x39 || 0x41 <= c as u32 <= 0x5a || 0x61 <= c as u32
            <= 0x7a || c as u32 == 0x2d || c as u32 == 0x2e || c as u32 == 0x5f),
        !is_valid_id(Seq::empty()),
        is_valid_id(seq![c]) <==> is_plain(c),
        is_valid_id(id) && 0 <= i < id.len() ==> is_plain(id[i]),
        is_valid_id(id) ==> (is_valid_id(id.push(c)) <==> is_plain(c)),
{
    if is_valid_id(seq![c]) {
        assert(is_plain(seq![c][0]));
    }
    if is_valid_id(id) {
        let longer = id.push(c);
        if is_valid_id(longer) {
            assert(is_plain(longer[id.len() as int]));
        }
        if is_plain(c) {
            assert forall|j: int| 0 <= j < longer.len() implies is_plain(#[trigger] longer[j]) by {
                if j < id.len() {
                    assert(longer[j] == id[j]);
                }
            }
        }
    }
}

proof fn lemma_dots_are_cut(text: Seq<char>)
    ensures
        forall|i: int|
            0 <= i < text.len() - trim_dots_start(text).len() ==> #[trigger] text[i] == '.',
        forall|i: int| trim_dots_end(text).len() <= i < text.len() ==> #[trigger] text[i] == '.',
    decreases text.len(),
{
    if text.len() > 0 {
        if text.first() == '.' {
            let rest = text.skip(1);
            lemma_dots_are_cut(rest);
            assert forall|i: int|
                0 <= i < text.len() - trim_dots_start(text).len() implies #[trigger] text[i]
                == '.' by {
                if i > 0 {
                    assert(rest[i - 1] == text[i]);
                }
            }
        }
        if text.last() == '.' {
            let front = text.drop_last();
            lemma_dots_are_cut(front);
            assert forall|i: int| trim_dots_end(text).len() <= i < text.len() implies #[trigger] text[i]
                == '.' by {
                if i < front.len() {
                    assert(front[i] == text[i]);
                }
            }
        }
    }
}

/// The part of a file name that stands for a session is its id byte by byte:
/// each byte that is a plain character is kept, any other becomes an underscore,
/// and the dots at either end are cut off. An id of which nothing is left stands
/// as an underscore. `from` and `to` bound what is left.
pub proof fn slugs_follow_their_ids(session_id: Seq<char>, from: int, to: int)
    requires
        ({
            let bytes = vstd::utf8::encode_utf8(session_id);
            &&& 0 <= from <= to <= bytes.len()
            &&& forall|i: int| 0 <= i < from ==> #[trigger] bytes[i] == 0x2e
            &&& forall|i: int| to <= i < bytes.len() ==> #[trigger] bytes[i] == 0x2e
            &&& from < to ==> bytes[from] != 0x2e && bytes[to - 1] != 0x2e
        }),
    ensures
        ({
            let bytes = vstd::utf8::encode_utf8(session_id);
            let slug = slug_of(session_id);
            &&& from == to ==> slug == seq!['_']
            &&& from < to ==> slug.len() == to - from && forall|i: int|
                0 <= i < slug.len() ==> #[trigger] slug[i] as u32 == (if (0x30 <= bytes[from + i]
                    <= 0x39) || (0x41 <= bytes[from + i] <= 0x5a) || (0x61 <= bytes[from + i]
                    <= 0x7a) || bytes[from + i] == 0x2d || bytes[from + i] == 0x2e || bytes[from
                    + i] == 0x5f {
                    bytes[from + i] as u32
                } else {
                    0x5f
                })
        }),
{
    reveal_strlit("_");
    let bytes = vstd::utf8::encode_utf8(session_id);
    let all = cleaned(session_id);
    assert(all.len() == bytes.len());
    assert forall|i: int| 0 <= i < all.len() implies (#[trigger] all[i] == '.') == (bytes[i]
        == 0x2e) by {
        assert(all[i] == plain_char(bytes[i]));
    }
    let start = trim_dots_start(all);
    let kept = trim_dots_end(start);
    lemma_trim_dots_start(all);
    lemma_trim_dots_end(start);
    lemma_dots_are_cut(all);
    lemma_dots_are_cut(start);
    let a = all.len() - start.len();
    if from < to {
        assert(all[from] != '.' && all[to - 1] != '.');
        assert(a <= from);
        if a < from {
            assert(bytes[a] == 0x2e);
            assert(all[a] == '.');
            assert(start.first() == all[a]);
        }
        assert(a == from);
        if kept.len() < to - from {
            assert(start[to - 1 - from] == all[to - 1]);
        }
        if kept.len() > to - from {
            assert(kept.last() == start[kept.len() - 1]);
            assert(start[kept.len() - 1] == all[from + kept.len() - 1]);
            assert(bytes[from + kept.len() - 1] == 0x2e);
        }
        assert forall|i: int| 0 <= i < kept.len() implies #[trigger] kept[i] == plain_char(
            bytes[from + i],
        ) by {
            assert(kept[i] == start[i]);
            assert(start[i] == all[from + i]);
        }
    } else {
        if start.len() > 0 {
            assert(start.first() == all[a]);
            assert(bytes[a] == 0x2e);
        }
        assert("_"@ =~= seq!['_']);
    }
}

/// A name is put behind a path with one separator between them: one is added
/// unless the path ends in one or is empty.
pub proof fn paths_are_joined_by_one_separator(base: Seq<char>, name: Seq<char>)
    ensures
        base.len() > 0 && base.last() != '/' ==> joined(base, name) == base + seq!['/'] + name,
        base.len() == 0 || base.last() == '/' ==> joined(base, name) == base + name,
{
    reveal_strlit("/");
    assert("/"@ =~= seq!['/']);
}

/// The files of a session lie in the directory of rows and markers below that of
/// the store, and are called by its part of a file name and what they are.
pub proof fn files_have_their_places(base: Seq<char>, session_id: Seq<char>)
    requires
        base.len() > 0,
        base.last() != '/',
    ensures
        row_at(base, session_id) == base + "/prefrontal-cortex/"@ + slug_of(session_id) + ".json"@,
        marker_at(base, session_id) == base + "/prefrontal-cortex/"@ + slug_of(session_id)
            + ".marker"@,
        deadline_at(base, session_id) == base + "/prefrontal-cortex/"@ + slug_of(session_id)
            + ".deliver-deadline"@,
        ongoing_state() == "ongoing"@,
        ready_state(session_id) == "ready:"@ + session_id,
{
    reveal_strlit("/");
    reveal_strlit("prefrontal-cortex");
    reveal_strlit("/prefrontal-cortex/");
    let dir = base + "/prefrontal-cortex/"@;
    assert("/prefrontal-cortex/"@ =~= "/"@ + "prefrontal-cortex"@ + "/"@);
    assert(cortex_in(base) + "/"@ =~= dir);
    let slug = slug_of(session_id);
    assert(cortex_in(base).last() == "prefrontal-cortex"@.last());
    assert(row_at(base, session_id) =~= dir + slug + ".json"@);
    assert(marker_at(base, session_id) =~= dir + slug + ".marker"@);
    assert(deadline_at(base, session_id) =~= dir + slug + ".deliver-deadline"@);
}

proof fn lemma_last_dot(name: Seq<char>)
    ensures
        match before_last_dot(name) {
            Some(stem) => stem.len() < name.len() && stem == name.take(stem.len() as int)
                && name[stem.len() as int] == '.' && forall|i: int|
                stem.len() < i < name.len() ==> #[trigger] name[i] != '.',
            None => forall|i: int| 0 <= i < name.len() ==> #[trigger] name[i] != '.',
        },
    decreases name.len(),
{
    if name.len() > 0 && name.last() != '.' {
        let front = name.drop_last();
        lemma_last_dot(front);
        match before_last_dot(name) {
            Some(stem) => {
                assert(front.take(stem.len() as int) =~= name.take(stem.len() as int));
                assert forall|i: int| stem.len() < i < name.len() implies #[trigger] name[i]
                    != '.' by {
                    if i < front.len() {
                        assert(front[i] == name[i]);
                    }
                }
            },
            None => {
                assert forall|i: int| 0 <= i < name.len() implies #[trigger] name[i] != '.' by {
                    if i < front.len() {
                        assert(front[i] == name[i]);
                    }
                }
            },
        }
    } else if name.len() > 0 {
        assert(name.take(name.len() - 1) =~= name.drop_last());
    }
}

/// A file is a row exactly when its name ends in `.json` and has something in
/// front of that.
pub proof fn rows_are_known_by_their_extension(name: Seq<char>)
    ensures
        is_row_name(name) <==> name.len() > 5 && ends_with(name, ".json"@),
{
    reveal_strlit("json");
    reveal_strlit(".json");
    lemma_last_dot(name);
    if is_row_name(name) {
        let n = (before_last_dot(name)->0).len() as int;
        assert(name.skip(n + 1).len() == 4);
        assert(name.subrange(n, n + 5) =~= seq!['.'] + name.skip(n + 1));
        assert(seq!['.'] + "json"@ =~= ".json"@);
    }
    if name.len() > 5 && ends_with(name, ".json"@) {
        let n = name.len() - 5;
        let end = name.subrange(n, n + 5);
        assert(end =~= ".json"@);
        assert(end[0] == name[n] && end[1] == name[n + 1] && end[2] == name[n + 2]);
        assert(end[3] == name[n + 3] && end[4] == name[n + 4]);
        let stem = before_last_dot(name)->0;
        if stem.len() > n {
            assert(name[stem.len() as int] == ".json"@[stem.len() - n]);
        }
        assert(stem.len() == n);
        assert(name.skip(n + 1) =~= "json"@);
    }
}

/// The row of a name is the first among the files of the store that is a row and
/// goes by that name; where there is none, none is found.
pub proof fn the_first_row_of_a_name_is_found(entries: Seq<Entry>, key: Seq<char>, i: int)
    requires
        0 <= i <= entries.len(),
        forall|j: int|
            0 <= j < i ==> !(is_row_name((#[trigger] entries[j]).0@) && (
            entries[j].1@ matches RowReadView::Found(row) && row.amtr_key == Some(key))),
    ensures
        i < entries.len() && is_row_name(entries[i].0@) ==> (entries[i].1@ matches
            RowReadView::Found(row) ==> (row.amtr_key == Some(key) ==> first_named(entries, key)
            == Some(row))),
        i == entries.len() ==> first_named(entries, key) is None,
    decreases entries.len(),
{
    if i > 0 {
        assert(!names_row(entries[0], key));
        let rest = entries.skip(1);
        assert forall|j: int| 0 <= j < i - 1 implies !(is_row_name((#[trigger] rest[j]).0@) && (
        rest[j].1@ matches RowReadView::Found(row) && row.amtr_key == Some(key))) by {
            assert(rest[j] == entries[j + 1]);
        }
        the_first_row_of_a_name_is_found(rest, key, i - 1);
        if i < entries.len() {
            assert(rest[i - 1] == entries[i]);
        }
    }
}

/// Every row that can be read is among the rows, in the order of the files, and
/// nothing else is.
pub proof fn every_readable_row_is_listed(a: Seq<Entry>, b: Seq<Entry>)
    ensures
        readable_rows(a + b) == readable_rows(a) + readable_rows(b),
        b.len() == 1 ==> readable_rows(b) == (match b[0].1@ {
            RowReadView::Found(row) => if b[0].0@.len() > 5 && ends_with(b[0].0@, ".json"@) {
                seq![row]
            } else {
                Seq::empty()
            },
            _ => Seq::empty(),
        }),
    decreases b.len(),
{
    if b.len() == 0 {
        assert(a + b =~= a);
        assert(readable_rows(a) + readable_rows(b) =~= readable_rows(a));
    } else {
        every_readable_row_is_listed(a, b.drop_last());
        assert((a + b).drop_last() =~= a + b.drop_last());
        assert(readable_rows(a + b) =~= readable_rows(a) + readable_rows(b));
        if b.len() == 1 {
            rows_are_known_by_their_extension(b[0].0@);
            assert(b.drop_last() =~= Seq::empty());
            assert(readable_rows(b.drop_last()) =~= Seq::<RowView>::empty());
            assert(Seq::<RowView>::empty().push((b[0].1@)->Found_0) =~= seq![(b[0].1@)->Found_0]);
        }
    }
}

/// Every row that cannot be read and that was come by before the row of the name
/// is told of, with its path and what is wrong with it, in the order of the
/// files; nothing else is told of.
pub proof fn damaged_rows_are_told_of(
    cortex: Seq<char>,
    a: Seq<Entry>,
    b: Seq<Entry>,
    key: Seq<char>,
)
    ensures
        first_named(a, key) is None ==> complaints(cortex, a + b, key) == complaints(
            cortex,
            a,
            key,
        ) + complaints(cortex, b, key),
        b.len() == 1 && b[0].0@.len() > 5 && ends_with(b[0].0@, ".json"@) ==> {
            &&& b[0].1 matches RowRead::Failed(fault) ==> complaints(cortex, b, key) == seq![
                "cannot read "@ + joined(cortex, b[0].0@) + ": "@ + message_of(fault@),
            ]
            &&& b[0].1 matches RowRead::Garbled(why) ==> complaints(cortex, b, key) == seq![
                joined(cortex, b[0].0@) + " is not readable: "@ + why@,
            ]
            &&& b[0].1 matches RowRead::Missing ==> complaints(cortex, b, key).len() == 0
            &&& b[0].1 matches RowRead::Found(_) ==> complaints(cortex, b, key).len() == 0
        },
        b.len() == 1 && !(b[0].0@.len() > 5 && ends_with(b[0].0@, ".json"@)) ==> complaints(
            cortex,
            b,
            key,
        ).len() == 0,
        b.len() > 0 && names_row(b[0], key) ==> complaints(cortex, b, key).len() == 0,
    decreases a.len(),
{
    if b.len() == 1 {
        rows_are_known_by_their_extension(b[0].0@);
        assert(b.skip(1) =~= Seq::empty());
        assert(complaints(cortex, b.skip(1), key) =~= Seq::<Seq<char>>::empty());
        if complaint(cortex, b[0]) is Some {
            let said = complaint(cortex, b[0])->0;
            assert(seq![said] + Seq::<Seq<char>>::empty() =~= seq![said]);
        }
    }
    if a.len() == 0 {
        assert(a + b =~= b);
        assert(complaints(cortex, a, key) + complaints(cortex, b, key) =~= complaints(
            cortex,
            b,
            key,
        ));
    } else if first_named(a, key) is None {
        damaged_rows_are_told_of(cortex, a.skip(1), b, key);
        assert((a + b).skip(1) =~= a.skip(1) + b);
        assert(complaints(cortex, a + b, key) =~= complaints(cortex, a, key) + complaints(
            cortex,
            b,
            key,
        ));
    }
}

/// A row that is moved changes its session and nothing else; one that is copied
/// keeps its handoff and nothing else.
pub proof fn only_the_session_of_a_moved_row_changes(
    row: RowView,
    session_id: Seq<char>,
    when: Seq<char>,
)
    ensures
        moved(row, session_id).session_id == session_id,
        moved(row, session_id).amtr_key == row.amtr_key,
        moved(row, session_id).handoff == row.handoff,
        moved(row, session_id).compacted_at == row.compacted_at,
        cloned(row, session_id, when).session_id == session_id,
        cloned(row, session_id, when).amtr_key is None,
        cloned(row, session_id, when).handoff == row.handoff,
        cloned(row, session_id, when).compacted_at == when,
{
}

/// The extraction runs with what the prompt file says, unless that is blank or
/// there is nothing to read: then with the prompt that is built in. The file is
/// written only where there is none, and then as the prompt that is built in.
pub proof fn the_prompt_file_is_followed(
    base: Seq<char>,
    read: TextReadView,
    default: Seq<char>,
    pid: u32,
)
    ensures
        (read matches TextReadView::Text(text) && (exists|i: int|
            0 <= i < text.len() && !is_space(#[trigger] text[i]))) ==> prompt_text(read, default)
            == read->Text_0 && prompt_note(base, read) is None,
        (read matches TextReadView::Text(text) && (forall|i: int|
            0 <= i < text.len() ==> is_space(#[trigger] text[i]))) ==> prompt_text(read, default)
            == default && prompt_note(base, read) == Some(
            joined(base, "prompt.md"@) + " is empty; using the built-in prompt"@,
        ),
        read is Failed ==> prompt_text(read, default) == default && (prompt_note(
            base,
            read,
        ) matches Some(note) && note == "cannot read "@ + joined(base, "prompt.md"@)
            + ", using the built-in prompt: "@ + message_of(read->Failed_0)),
        read is Missing ==> prompt_text(read, default) == default && prompt_note(base, read) is None,
        !(read is Missing) ==> prompt_steps(base, read, default, pid).len() == 0,
        read is Missing ==> prompt_steps(base, read, default, pid) == atomic_write(
            joined(base, "prompt.md"@),
            BodyView::Text(default),
            pid,
        ),
{
}

/// A key tells when it was minted: behind the word that all keys begin with
/// stands the time in milliseconds, and behind that the random number.
pub proof fn keys_tell_their_time(millis: i64, random: u64)
    requires
        millis >= 0,
    ensures
        key_of(millis, random) == "amtr-"@ + numeral(millis as nat, 36) + seq!['-'] + numeral(
            random as nat,
            36,
        ),
{
    reveal_strlit("-");
    assert("-"@ =~= seq!['-']);
}

/// Eight bytes make a number, the lowest byte first, so that no two rows of bytes
/// make the same.
pub proof fn bytes_make_a_number(a: Seq<u8>)
    requires
        a.len() == 8,
    ensures
        little_endian(a) == a[0] + 0x100 * a[1] + 0x1_0000 * a[2] + 0x100_0000 * a[3]
            + 0x1_0000_0000 * a[4] + 0x100_0000_0000 * a[5] + 0x1_0000_0000_0000 * a[6]
            + 0x100_0000_0000_0000 * a[7],
{
    reveal_with_fuel(little_endian, 9);
    assert(a.skip(1).skip(1) =~= a.skip(2));
    assert(a.skip(2).skip(1) =~= a.skip(3));
    assert(a.skip(3).skip(1) =~= a.skip(4));
    assert(a.skip(4).skip(1) =~= a.skip(5));
    assert(a.skip(5).skip(1) =~= a.skip(6));
    assert(a.skip(6).skip(1) =~= a.skip(7));
    assert(a.skip(7).skip(1) =~= a.skip(8));
}

} // verus!
