//! What is shown of a store, said of its rows and files.

use vstd::prelude::*;

use crate::json::quoted;
use crate::numeral::{decimal, decimal_reads_back, parsed_u64};
use crate::peek::{
    ClaimView, DeliveryView, KindView, Known, Listing, Record, RecordView, StoreFile, block,
    claim_json, claim_placed, claim_text, claims_sorted, claims_text, classified, delivery_text,
    from_rows, human, idle, indented, lemma_listed_records_are_asked_for,
    lemma_shown_under_their_ids, lists, machine, markers_are_known_by_name, record_json,
    record_text, remaining, shown, snapshot_json, snapshot_text, tidy, time_in, wanted, with_files,
    without_end_lines,
};
use crate::store::{Row, RowView};
use crate::text::{
    contains, ends_with, first_at, first_position, join, occurs_at, opt_view, precedes,
    precedes_is_irreflexive, precedes_is_total, precedes_is_transitive, split,
};
use crate::text_laws::{joined_rows_meet_at_a_separator, split_parts_give_the_text_back};

verus! {

/// Every condition that is set holds of every record that is returned, whatever
/// the other says: where a session is asked for, each record is of that session,
/// and where a key is asked for, each has a snapshot of that name. Every record
/// that is known and meets each condition that is set is returned.
pub proof fn records_meet_every_condition_that_is_set(
    records: Seq<Record>,
    listing: Option<Listing>,
    session: Option<Seq<char>>,
    key: Option<Seq<char>>,
)
    requires
        lists(records, wanted(shown(listing), session, key)),
    ensures
        session matches Some(session) ==> forall|i: int|
            0 <= i < records.len() ==> (#[trigger] records[i]).session_id@ == session,
        key matches Some(key) ==> forall|i: int|
            0 <= i < records.len() ==> ((#[trigger] records[i]).snapshot matches Some(row)
                && row@.amtr_key == Some(key)),
        forall|id: Seq<char>| #[trigger]
            shown(listing).dom().contains(id) && (session matches Some(session) ==> id == session)
                && (key matches Some(key) ==> (shown(listing)[id].snapshot matches Some(row)
                && row.amtr_key == Some(key))) ==> exists|i: int|
                0 <= i < records.len() && (#[trigger] records[i]).session_id@ == id,
{
    lemma_listed_records_are_asked_for(records, listing, session, key);
}

/// Asking for less shows more of the same: a record that is returned under some
/// conditions is returned without them too, and the other way round where it
/// meets them.
pub proof fn conditions_only_leave_records_out(
    all: Seq<Record>,
    some: Seq<Record>,
    listing: Option<Listing>,
    session: Option<Seq<char>>,
    key: Option<Seq<char>>,
    j: int,
)
    requires
        lists(all, wanted(shown(listing), None, None)),
        lists(some, wanted(shown(listing), session, key)),
        0 <= j < all.len(),
    ensures
        (exists|i: int| 0 <= i < some.len() && (#[trigger] some[i])@ == all[j]@) <==> (session
            matches Some(session) ==> all[j].session_id@ == session) && (key matches Some(key) ==> (
        all[j].snapshot matches Some(row) && row@.amtr_key == Some(key))),
{
    let known = shown(listing);
    let id = all[j].session_id@;
    lemma_shown_under_their_ids(listing);
    lemma_listed_records_are_asked_for(some, listing, session, key);
    assert(wanted(known, None, None).dom().contains(id));
    assert(all[j]@ == tidy(known[id]));
    if exists|i: int| 0 <= i < some.len() && (#[trigger] some[i])@ == all[j]@ {
        let i = choose|i: int| 0 <= i < some.len() && (#[trigger] some[i])@ == all[j]@;
        assert(some[i].session_id@ == id);
        assert(wanted(known, session, key).dom().contains(some[i].session_id@));
    }
    if (session matches Some(session) ==> id == session) && (key matches Some(key) ==> (
    all[j].snapshot matches Some(row) && row@.amtr_key == Some(key))) {
        assert(wanted(known, session, key).dom().contains(id));
        let i = choose|i: int| 0 <= i < some.len() && (#[trigger] some[i]).session_id@ == id;
        assert(some[i]@ == tidy(known[id]));
    }
}

proof fn lemma_row_is_known(rows: Seq<Row>, r: int)
    requires
        0 <= r < rows.len(),
        forall|k: int| r < k < rows.len() ==> (#[trigger] rows[k])@.session_id != rows[r]@.session_id,
    ensures
        from_rows(rows).dom().contains(rows[r]@.session_id),
        from_rows(rows)[rows[r]@.session_id].snapshot == Some(rows[r]@),
    decreases rows.len(),
{
    if r < rows.len() - 1 {
        let front = rows.drop_last();
        assert(rows[rows.len() - 1]@.session_id != rows[r]@.session_id);
        assert forall|k: int| r < k < front.len() implies (#[trigger] front[k])@.session_id
            != front[r]@.session_id by {
            assert(rows[k]@.session_id != rows[r]@.session_id);
        }
        lemma_row_is_known(front, r);
    }
}

proof fn lemma_no_row_is_known(rows: Seq<Row>, id: Seq<char>)
    requires
        forall|k: int| 0 <= k < rows.len() ==> (#[trigger] rows[k])@.session_id != id,
    ensures
        !from_rows(rows).dom().contains(id),
    decreases rows.len(),
{
    if rows.len() > 0 {
        let front = rows.drop_last();
        assert(rows[rows.len() - 1]@.session_id != id);
        assert forall|k: int| 0 <= k < front.len() implies (#[trigger] front[k])@.session_id != id by {
            assert(rows[k]@.session_id != id);
        }
        lemma_no_row_is_known(front, id);
    }
}

proof fn lemma_files_keep_snapshots(known: Known, files: Seq<StoreFile>, now: u64, id: Seq<char>)
    ensures
        known.dom().contains(id) ==> with_files(known, files, now).dom().contains(id)
            && with_files(known, files, now)[id].snapshot == known[id].snapshot,
        !known.dom().contains(id) && with_files(known, files, now).dom().contains(id)
            ==> with_files(known, files, now)[id].snapshot is None,
    decreases files.len(),
{
    if files.len() > 0 {
        lemma_files_keep_snapshots(known, files.drop_last(), now, id);
    }
}

/// Every row of the store is shown as the snapshot of its session, as it stands.
/// Of two rows of one session the later counts, and a session without a row is
/// shown without a snapshot.
pub proof fn every_row_is_shown(listing: Listing, r: int, id: Seq<char>)
    ensures
        0 <= r < listing.rows@.len() && (forall|k: int|
            r < k < listing.rows@.len() ==> (#[trigger] listing.rows@[k])@.session_id
                != listing.rows@[r]@.session_id) ==> shown(Some(listing)).dom().contains(
            listing.rows@[r]@.session_id,
        ) && shown(Some(listing))[listing.rows@[r]@.session_id].snapshot == Some(
            listing.rows@[r]@,
        ),
        (forall|k: int|
            0 <= k < listing.rows@.len() ==> (#[trigger] listing.rows@[k])@.session_id != id)
            && shown(Some(listing)).dom().contains(id) ==> shown(Some(listing))[id].snapshot is None,
{
    let rows = listing.rows@;
    let known = from_rows(rows);
    let now = time_in(listing);
    if 0 <= r < rows.len() && (forall|k: int|
        r < k < rows.len() ==> (#[trigger] rows[k])@.session_id != rows[r]@.session_id) {
        lemma_row_is_known(rows, r);
        lemma_files_keep_snapshots(known, listing.files@, now, rows[r]@.session_id);
    }
    if forall|k: int| 0 <= k < rows.len() ==> (#[trigger] rows[k])@.session_id != id {
        lemma_no_row_is_known(rows, id);
        lemma_files_keep_snapshots(known, listing.files@, now, id);
    }
}

/// A file is taken for the marker of a session exactly when it is called so, and
/// for its deadline likewise.
pub proof fn markers_and_deadlines_have_one_name(name: Seq<char>, session: Seq<char>)
    ensures
        classified(name) == Some((session, KindView::Marker)) <==> name == session + ".marker"@,
        classified(name) == Some((session, KindView::Deadline)) <==> name == session
            + ".deliver-deadline"@,
{
    reveal_strlit(".marker");
    reveal_strlit(".deliver-deadline");
    markers_are_known_by_name(session);
    if classified(name) == Some((session, KindView::Marker)) {
        let n = name.len() - ".marker"@.len();
        assert(name =~= name.take(n) + name.subrange(n, name.len() as int));
    }
    if classified(name) == Some((session, KindView::Deadline)) {
        let n = name.len() - ".deliver-deadline"@.len();
        assert(name =~= name.take(n) + name.subrange(n, name.len() as int));
    }
}

proof fn lemma_rows_are_idle(rows: Seq<Row>, id: Seq<char>)
    requires
        from_rows(rows).dom().contains(id),
    ensures
        from_rows(rows)[id].delivery == idle(),
    decreases rows.len(),
{
    if rows.len() > 0 && rows.last()@.session_id != id {
        lemma_rows_are_idle(rows.drop_last(), id);
    }
}

proof fn lemma_marker_is_known(rows: Seq<Row>, files: Seq<StoreFile>, now: u64, s: Seq<char>, f: int)
    requires
        f < files.len(),
        0 <= f ==> files[f].0@ == s + ".marker"@,
        forall|k: int| f < k < files.len() && 0 <= k ==> (#[trigger] files[k]).0@ != s + ".marker"@,
    ensures
        ({
            let known = with_files(from_rows(rows), files, now);
            &&& 0 <= f ==> known.dom().contains(s) && known[s].delivery.marker == opt_view(
                files[f].1,
            )
            &&& f < 0 && known.dom().contains(s) ==> known[s].delivery.marker is None
        }),
    decreases files.len(),
{
    if files.len() == 0 {
        if from_rows(rows).dom().contains(s) {
            lemma_rows_are_idle(rows, s);
        }
    } else {
        let front = files.drop_last();
        let last = files[files.len() - 1];
        markers_and_deadlines_have_one_name(last.0@, s);
        if f < files.len() - 1 {
            assert(last.0@ != s + ".marker"@);
            assert forall|k: int| f < k < front.len() && 0 <= k implies (#[trigger] front[k]).0@ != s
                + ".marker"@ by {
                assert(files[k].0@ != s + ".marker"@);
            }
            lemma_marker_is_known(rows, front, now, s, f);
        }
    }
}

/// The marker of a session is shown as its file holds it, and none where there
/// is no such file.
pub proof fn the_marker_of_a_session_is_shown(listing: Listing, session: Seq<char>, f: int)
    requires
        f < listing.files@.len(),
        0 <= f ==> listing.files@[f].0@ == session + ".marker"@,
        forall|k: int|
            f < k < listing.files@.len() && 0 <= k ==> (#[trigger] listing.files@[k]).0@ != session
                + ".marker"@,
    ensures
        0 <= f ==> shown(Some(listing)).dom().contains(session) && shown(
            Some(listing),
        )[session].delivery.marker == opt_view(listing.files@[f].1),
        f < 0 && shown(Some(listing)).dom().contains(session) ==> shown(
            Some(listing),
        )[session].delivery.marker is None,
{
    lemma_marker_is_known(listing.rows@, listing.files@, time_in(listing), session, f);
}

proof fn lemma_deadline_is_known(
    rows: Seq<Row>,
    files: Seq<StoreFile>,
    now: u64,
    s: Seq<char>,
    f: int,
)
    requires
        f < files.len(),
        0 <= f ==> files[f].0@ == s + ".deliver-deadline"@,
        forall|k: int|
            f < k < files.len() && 0 <= k ==> (#[trigger] files[k]).0@ != s + ".deliver-deadline"@,
    ensures
        ({
            let known = with_files(from_rows(rows), files, now);
            let deadline = known[s].delivery.deadline_epoch_seconds;
            let left = known[s].delivery.deadline_remaining_seconds;
            &&& 0 <= f ==> known.dom().contains(s) && deadline == (match files[f].1 {
                Some(text) => parsed_u64(text@),
                None => None,
            }) && left == (match deadline {
                Some(at) => Some(remaining(at, now)),
                None => None,
            })
            &&& f < 0 && known.dom().contains(s) ==> deadline is None && left is None
        }),
    decreases files.len(),
{
    if files.len() == 0 {
        if from_rows(rows).dom().contains(s) {
            lemma_rows_are_idle(rows, s);
        }
    } else {
        let front = files.drop_last();
        let last = files[files.len() - 1];
        markers_and_deadlines_have_one_name(last.0@, s);
        if f < files.len() - 1 {
            assert(last.0@ != s + ".deliver-deadline"@);
            assert forall|k: int| f < k < front.len() && 0 <= k implies (#[trigger] front[k]).0@ != s
                + ".deliver-deadline"@ by {
                assert(files[k].0@ != s + ".deliver-deadline"@);
            }
            lemma_deadline_is_known(rows, front, now, s, f);
        }
    }
}

/// The deadline of a session is shown as the number that its file writes out,
/// with the seconds that are left until then: the deadline less the time, which
/// is negative once the deadline has passed. A file that writes out no number
/// shows no deadline, and neither does a session without such a file.
pub proof fn the_deadline_of_a_session_is_shown(
    listing: Listing,
    session: Seq<char>,
    f: int,
    deadline: u64,
)
    requires
        f < listing.files@.len(),
        0 <= f ==> listing.files@[f].0@ == session + ".deliver-deadline"@,
        forall|k: int|
            f < k < listing.files@.len() && 0 <= k ==> (#[trigger] listing.files@[k]).0@ != session
                + ".deliver-deadline"@,
    ensures
        ({
            let delivery = shown(Some(listing))[session].delivery;
            let now = match listing.now {
                Some(now) => now as int,
                None => 0int,
            };
            &&& 0 <= f && opt_view(listing.files@[f].1) == Some(decimal(deadline as nat)) ==> {
                &&& shown(Some(listing)).dom().contains(session)
                &&& delivery.deadline_epoch_seconds == Some(deadline)
                &&& delivery.deadline_remaining_seconds matches Some(left)
                &&& i64::MIN <= deadline - now <= i64::MAX ==> left == deadline - now
                &&& deadline - now > i64::MAX ==> left == i64::MAX
                &&& deadline - now < i64::MIN ==> left == i64::MIN
            }
            &&& 0 <= f && listing.files@[f].1 is None ==> delivery.deadline_epoch_seconds is None
                && delivery.deadline_remaining_seconds is None
            &&& f < 0 && shown(Some(listing)).dom().contains(session)
                ==> delivery.deadline_epoch_seconds is None && delivery.deadline_remaining_seconds
                is None
            &&& shown(Some(listing)).dom().contains(session) ==> (
            delivery.deadline_epoch_seconds is None <==> delivery.deadline_remaining_seconds is None)
        }),
{
    lemma_deadline_is_known(listing.rows@, listing.files@, time_in(listing), session, f);
    decimal_reads_back(deadline);
}

/// The claim that a file is shown as.
pub open spec fn claim_of(file: StoreFile, session: Seq<char>) -> Option<ClaimView> {
    match classified(file.0@) {
        Some((id, KindView::Claim(operation))) if id == session => Some(
            ClaimView { file: file.0@, operation, state: opt_view(file.1) },
        ),
        _ => None,
    }
}

proof fn lemma_claims_are_known(rows: Seq<Row>, files: Seq<StoreFile>, now: u64, s: Seq<char>)
    ensures
        ({
            let known = with_files(from_rows(rows), files, now);
            let claims = files.filter_map(|file: StoreFile| claim_of(file, s));
            &&& known.dom().contains(s) ==> known[s].delivery.claims == claims
            &&& claims.len() > 0 ==> known.dom().contains(s)
        }),
    decreases files.len(),
{
    reveal(Seq::filter_map);
    if files.len() == 0 {
        if from_rows(rows).dom().contains(s) {
            lemma_rows_are_idle(rows, s);
        }
    } else {
        lemma_claims_are_known(rows, files.drop_last(), now, s);
        let front = files.drop_last().filter_map(|file: StoreFile| claim_of(file, s));
        let all = files.filter_map(|file: StoreFile| claim_of(file, s));
        match claim_of(files.last(), s) {
            Some(claim) => {
                assert(all =~= front.push(claim));
            },
            None => {
                assert(all =~= front);
            },
        }
    }
}

/// The claims of a session are its claim files: each with its name, what it was
/// made for, and what it holds, none left out and none told twice.
pub proof fn the_claims_of_a_session_are_shown(listing: Listing, session: Seq<char>)
    ensures
        ({
            let claims = listing.files@.filter_map(|file: StoreFile| claim_of(file, session));
            &&& shown(Some(listing)).dom().contains(session) ==> shown(
                Some(listing),
            )[session].delivery.claims == claims
            &&& claims.len() > 0 ==> shown(Some(listing)).dom().contains(session)
        }),
{
    lemma_claims_are_known(listing.rows@, listing.files@, time_in(listing), session);
}

proof fn lemma_claim_placed(claims: Seq<ClaimView>, claim: ClaimView)
    requires
        forall|i: int, j: int|
            0 <= i < j < claims.len() ==> !precedes(
                (#[trigger] claims[j]).file,
                (#[trigger] claims[i]).file,
            ),
    ensures
        ({
            let out = claim_placed(claims, claim);
            &&& out.len() == claims.len() + 1
            &&& out.to_multiset() == claims.to_multiset().insert(claim)
            &&& forall|i: int, j: int|
                0 <= i < j < out.len() ==> !precedes(
                    (#[trigger] out[j]).file,
                    (#[trigger] out[i]).file,
                )
            &&& forall|i: int|
                0 <= i < out.len() ==> (#[trigger] out[i]) == claim || claims.contains(out[i])
        }),
    decreases claims.len(),
{
    broadcast use vstd::seq_lib::group_to_multiset_ensures;

    let out = claim_placed(claims, claim);
    if claims.len() > 0 && precedes(claim.file, claims.last().file) {
        let front = claims.drop_last();
        let last = claims[claims.len() - 1];
        assert forall|i: int, j: int| 0 <= i < j < front.len() implies !precedes(
            (#[trigger] front[j]).file,
            (#[trigger] front[i]).file,
        ) by {
            assert(front[i] == claims[i] && front[j] == claims[j]);
        }
        lemma_claim_placed(front, claim);
        let inner = claim_placed(front, claim);
        assert(claims =~= front.push(last));
        assert(out.to_multiset() =~= claims.to_multiset().insert(claim));
        assert forall|i: int, j: int| 0 <= i < j < out.len() implies !precedes(
            (#[trigger] out[j]).file,
            (#[trigger] out[i]).file,
        ) by {
            if j < inner.len() {
                assert(out[i] == inner[i] && out[j] == inner[j]);
            } else {
                assert(out[j] == last && out[i] == inner[i]);
                if inner[i] == claim {
                    if precedes(last.file, claim.file) {
                        precedes_is_transitive(last.file, claim.file, last.file);
                        precedes_is_irreflexive(last.file);
                    }
                } else {
                    let k = choose|k: int| 0 <= k < front.len() && front[k] == inner[i];
                    assert(claims[k] == front[k]);
                }
            }
        }
        assert forall|i: int| 0 <= i < out.len() implies (#[trigger] out[i]) == claim
            || claims.contains(out[i]) by {
            if i < inner.len() {
                assert(out[i] == inner[i]);
                if inner[i] != claim {
                    let k = choose|k: int| 0 <= k < front.len() && front[k] == inner[i];
                    assert(claims[k] == out[i]);
                }
            } else {
                assert(claims[claims.len() - 1] == out[i]);
            }
        }
    } else {
        assert(out =~= claims.push(claim));
        assert(out.to_multiset() =~= claims.to_multiset().insert(claim));
        assert forall|i: int, j: int| 0 <= i < j < out.len() implies !precedes(
            (#[trigger] out[j]).file,
            (#[trigger] out[i]).file,
        ) by {
            if j < claims.len() {
                assert(out[i] == claims[i] && out[j] == claims[j]);
            } else {
                let last = claims[claims.len() - 1];
                assert(out[j] == claim && out[i] == claims[i]);
                if precedes(claim.file, claims[i].file) && i < claims.len() - 1 {
                    assert(!precedes(last.file, claims[i].file));
                    precedes_is_total(last.file, claims[i].file);
                    if last.file != claims[i].file {
                        precedes_is_transitive(claim.file, claims[i].file, last.file);
                    }
                }
            }
        }
        assert forall|i: int| 0 <= i < out.len() implies (#[trigger] out[i]) == claim
            || claims.contains(out[i]) by {
            if i < claims.len() {
                assert(claims[i] == out[i]);
            }
        }
    }
}

/// The claims of a record are the same claims in the order of their files.
pub proof fn claims_are_put_in_order(claims: Seq<ClaimView>)
    ensures
        claims_sorted(claims).len() == claims.len(),
        claims_sorted(claims).to_multiset() == claims.to_multiset(),
        forall|i: int, j: int|
            0 <= i < j < claims.len() ==> !precedes(
                (#[trigger] claims_sorted(claims)[j]).file,
                (#[trigger] claims_sorted(claims)[i]).file,
            ),
    decreases claims.len(),
{
    broadcast use vstd::seq_lib::group_to_multiset_ensures;

    if claims.len() > 0 {
        let front = claims.drop_last();
        claims_are_put_in_order(front);
        lemma_claim_placed(claims_sorted(front), claims.last());
        assert(claims =~= front.push(claims.last()));
    }
}

/// Putting a record in order changes nothing but the order of its claims.
pub proof fn only_claims_change_places(record: RecordView)
    ensures
        tidy(record).session_id == record.session_id,
        tidy(record).snapshot == record.snapshot,
        tidy(record).delivery.marker == record.delivery.marker,
        tidy(record).delivery.deadline_epoch_seconds == record.delivery.deadline_epoch_seconds,
        tidy(record).delivery.deadline_remaining_seconds
            == record.delivery.deadline_remaining_seconds,
        tidy(record).delivery.claims.to_multiset() == record.delivery.claims.to_multiset(),
{
    claims_are_put_in_order(record.delivery.claims);
}

/// What a character becomes in a text whose lines are indented.
pub open spec fn in_block(indent: Seq<char>, c: char) -> Seq<char> {
    if c == '\n' {
        seq!['\n'] + indent
    } else {
        seq![c]
    }
}

/// Indenting a text puts the indent before its first line and behind each of its
/// newlines, ends it with a newline, and changes nothing else.
pub proof fn indenting_changes_nothing_else(indent: Seq<char>, value: Seq<char>)
    ensures
        block(indent, value) == indent + value.flat_map(|c: char| in_block(indent, c)) + seq!['\n'],
    decreases value.len(),
{
    reveal_strlit("\n");
    let f = |c: char| in_block(indent, c);
    let parts = split(value, '\n');
    if value.len() == 0 {
        assert(parts.drop_last() =~= Seq::empty());
        assert(indented(indent, parts.drop_last()) =~= Seq::empty());
        assert(value.flat_map(f) =~= Seq::empty());
        assert(block(indent, value) =~= indent + value.flat_map(f) + seq!['\n']);
    } else {
        let front = value.drop_last();
        let before = split(front, '\n');
        indenting_changes_nothing_else(indent, front);
        split_parts_give_the_text_back(front, '\n');
        front.lemma_flat_map_push(f, value.last());
        assert(front.push(value.last()) =~= value);
        if value.last() == '\n' {
            assert(parts.drop_last() =~= before);
            assert(block(indent, value) =~= indent + value.flat_map(f) + seq!['\n']);
        } else {
            assert(parts.drop_last() =~= before.drop_last());
            assert(parts.last() == before.last().push(value.last()));
            let start = indented(indent, before.drop_last()) + (indent + before.last());
            assert(block(indent, front) =~= start + seq!['\n']);
            assert(start =~= block(indent, front).drop_last());
            assert(start =~= indent + front.flat_map(f));
            assert(block(indent, value) =~= start + seq![value.last()] + seq!['\n']);
        }
    }
}

proof fn lemma_holds(before: Seq<char>, part: Seq<char>, behind: Seq<char>)
    ensures
        contains(before + part + behind, part),
{
    let all = before + part + behind;
    let at = before.len() as int;
    assert(all.subrange(at, at + part.len()) =~= part);
    assert(occurs_at(all, part, at));
}

/// What people read of a snapshot tells its session, its key, its time and the
/// whole of its handoff, indented.
#[verifier::spinoff_prover]
#[verifier::rlimit(60)]
pub proof fn people_read_the_whole_snapshot(row: RowView)
    ensures
        ({
            let text = snapshot_text(Some(row));
            &&& contains(text, "Session ID: "@ + row.session_id + "\n"@)
            &&& contains(
                text,
                "AMTR key: "@ + (match row.amtr_key {
                    Some(key) => key,
                    None => "<none>"@,
                }) + "\n"@,
            )
            &&& contains(text, "Compacted at: "@ + row.compacted_at + "\n"@)
            &&& ends_with(
                text,
                "    Handoff:\n      "@ + row.handoff.flat_map(|c: char| in_block("      "@, c)) + seq![
                    '\n',
                ],
            )
        }),
{
    let text = snapshot_text(Some(row));
    let key = match row.amtr_key {
        Some(key) => key,
        None => "<none>"@,
    };
    let inner = row.handoff.flat_map(|c: char| in_block("      "@, c));
    indenting_changes_nothing_else("      "@, row.handoff);
    reveal_strlit("  Snapshot:\n    Session ID: ");
    reveal_strlit("  Snapshot:\n    ");
    reveal_strlit("Session ID: ");
    reveal_strlit("\n    AMTR key: ");
    reveal_strlit("AMTR key: ");
    reveal_strlit("\n    Compacted at: ");
    reveal_strlit("Compacted at: ");
    reveal_strlit("\n    Handoff:\n");
    reveal_strlit("    Handoff:\n      ");
    reveal_strlit("    Handoff:\n");
    reveal_strlit("    ");
    reveal_strlit("      ");
    reveal_strlit("\n");
    let a = "  Snapshot:\n    "@;
    let id = "Session ID: "@ + row.session_id + "\n"@;
    let named = "AMTR key: "@ + key + "\n"@;
    let at = "Compacted at: "@ + row.compacted_at + "\n"@;
    let end = "    Handoff:\n      "@ + inner + seq!['\n'];
    assert("  Snapshot:\n    Session ID: "@ =~= a + "Session ID: "@);
    assert("\n    AMTR key: "@ =~= "\n"@ + "    "@ + "AMTR key: "@);
    assert("\n    Compacted at: "@ =~= "\n"@ + "    "@ + "Compacted at: "@);
    assert("\n    Handoff:\n"@ =~= "\n"@ + "    Handoff:\n"@);
    assert("    Handoff:\n      "@ =~= "    Handoff:\n"@ + "      "@);
    let all = a + id + "    "@ + named + "    "@ + at + end;
    assert(text =~= all);
    lemma_holds(a, id, "    "@ + named + "    "@ + at + end);
    assert(all =~= a + id + ("    "@ + named + "    "@ + at + end));
    lemma_holds(a + id + "    "@, named, "    "@ + at + end);
    assert(all =~= (a + id + "    "@) + named + ("    "@ + at + end));
    lemma_holds(a + id + "    "@ + named + "    "@, at, end);
    assert(all =~= (a + id + "    "@ + named + "    "@) + at + end);
    assert(all.subrange(all.len() - end.len(), all.len() as int) =~= end);
}

/// What people read of two rows of claims is what they read of the one and then
/// of the other: no claim is left out, and none moves.
pub proof fn claims_are_read_one_after_another(a: Seq<ClaimView>, b: Seq<ClaimView>)
    ensures
        claims_text(a + b) == claims_text(a) + claims_text(b),
        b.len() == 1 ==> claims_text(b) == claim_text(b[0]),
    decreases b.len(),
{
    if b.len() == 0 {
        assert(a + b =~= a);
        assert(claims_text(a) + claims_text(b) =~= claims_text(a));
    } else {
        claims_are_read_one_after_another(a, b.drop_last());
        assert((a + b).drop_last() =~= a + b.drop_last());
        assert(claims_text(a + b) =~= claims_text(a) + claims_text(b));
        if b.len() == 1 {
            assert(b.drop_last() =~= Seq::empty());
            assert(claims_text(b) =~= claim_text(b[0]));
        }
    }
}

/// What people read of a claim tells its file, what it was made for, and all
/// that it holds, indented.
#[verifier::spinoff_prover]
#[verifier::rlimit(60)]
pub proof fn people_read_the_whole_claim(claim: ClaimView)
    ensures
        contains(claim_text(claim), "File: "@ + claim.file + "\n"@),
        contains(claim_text(claim), "Operation: "@ + claim.operation + "\n"@),
        claim.state matches Some(state) ==> ends_with(
            claim_text(claim),
            "State:\n          "@ + state.flat_map(|c: char| in_block("          "@, c)) + seq!['\n'],
        ),
{
    let text = claim_text(claim);
    reveal_strlit("      - File: ");
    reveal_strlit("      - ");
    reveal_strlit("File: ");
    reveal_strlit("\n        Operation: ");
    reveal_strlit("        ");
    reveal_strlit("Operation: ");
    reveal_strlit("\n        State:\n");
    reveal_strlit("        State:\n");
    reveal_strlit("\n        State: <unreadable>\n");
    reveal_strlit("        State: <unreadable>\n");
    reveal_strlit("State:\n          ");
    reveal_strlit("          ");
    reveal_strlit("\n");
    let a = "      - "@;
    let file = "File: "@ + claim.file + "\n"@;
    let operation = "Operation: "@ + claim.operation + "\n"@;
    let end = match claim.state {
        Some(state) => "        State:\n"@ + block("          "@, state),
        None => "        State: <unreadable>\n"@,
    };
    assert("      - File: "@ =~= a + "File: "@);
    assert("\n        Operation: "@ =~= "\n"@ + "        "@ + "Operation: "@);
    assert("\n        State:\n"@ =~= "\n"@ + "        State:\n"@);
    assert("\n        State: <unreadable>\n"@ =~= "\n"@ + "        State: <unreadable>\n"@);
    let all = a + file + "        "@ + operation + end;
    assert(text =~= all);
    lemma_holds(a, file, "        "@ + operation + end);
    assert(all =~= a + file + ("        "@ + operation + end));
    lemma_holds(a + file + "        "@, operation, end);
    assert(all =~= (a + file + "        "@) + operation + end);
    if claim.state is Some {
        let state = claim.state->0;
        indenting_changes_nothing_else("          "@, state);
        let last = "State:\n          "@ + state.flat_map(|c: char| in_block("          "@, c))
            + seq!['\n'];
        assert("        State:\n"@ + "          "@ =~= "        "@ + "State:\n          "@);
        assert(end =~= "        "@ + last);
        assert(all.subrange(all.len() - last.len(), all.len() as int) =~= last);
    }
}

proof fn lemma_holds_in(
    whole: Seq<char>,
    before: Seq<char>,
    inner: Seq<char>,
    behind: Seq<char>,
    part: Seq<char>,
)
    requires
        whole == before + inner + behind,
        contains(inner, part),
    ensures
        contains(whole, part),
{
    let at = choose|at: int| #[trigger] occurs_at(inner, part, at);
    let n = before.len() + at;
    assert(whole.subrange(n, n + part.len()) =~= inner.subrange(at, at + part.len()));
    assert(occurs_at(whole, part, n));
}

proof fn lemma_within(whole: Seq<char>, inner: Seq<char>, part: Seq<char>)
    requires
        contains(whole, inner),
        contains(inner, part),
    ensures
        contains(whole, part),
{
    let at = choose|at: int| #[trigger] occurs_at(whole, inner, at);
    let before = whole.take(at);
    let behind = whole.skip(at + inner.len());
    assert(whole =~= before + inner + behind);
    lemma_holds_in(whole, before, inner, behind, part);
}

proof fn lemma_line(lead: Seq<char>, word: Seq<char>, value: Seq<char>, next: Seq<char>)
    requires
        next.len() > 0,
        next[0] == '\n',
    ensures
        contains(lead + word + value + next, word + value + seq!['\n']),
{
    let all = lead + word + value + next;
    let part = word + value + seq!['\n'];
    let at = lead.len() as int;
    assert(all.subrange(at, at + part.len()) =~= part);
    assert(occurs_at(all, part, at));
}

proof fn lemma_three_in_a_row(parts: Seq<Seq<char>>, i: int)
    requires
        0 <= i,
        i + 2 < parts.len(),
    ensures
        contains(parts.flatten(), parts[i] + parts[i + 1] + parts[i + 2]),
    decreases i,
{
    let rest = parts.drop_first();
    let all = parts.flatten();
    let part = parts[i] + parts[i + 1] + parts[i + 2];
    if i == 0 {
        let second = rest.drop_first();
        let third = second.drop_first();
        assert(rest[0] == parts[1] && second[0] == parts[2]);
        assert(all == parts[0] + rest.flatten());
        assert(rest.flatten() == parts[1] + second.flatten());
        assert(second.flatten() == parts[2] + third.flatten());
        assert(all =~= Seq::empty() + part + third.flatten());
        lemma_holds(Seq::empty(), part, third.flatten());
    } else {
        lemma_three_in_a_row(rest, i - 1);
        assert(all =~= parts[0] + rest.flatten() + Seq::empty());
        lemma_holds_in(all, parts[0], rest.flatten(), Seq::empty(), part);
    }
}

proof fn lemma_row_goes_on(parts: Seq<Seq<char>>, text: Seq<char>, next: Seq<char>)
    requires
        parts.flatten() == text,
    ensures
        parts.push(next).flatten() == text + next,
{
    broadcast use Seq::lemma_flatten_push;

    assert(parts.push(next).flatten() =~= text + next);
}

proof fn lemma_row_of_one(first: Seq<char>)
    ensures
        seq![first].flatten() == first,
{
    seq![first].lemma_flatten_one_element();
}

/// What people read of a delivery tells its marker, its deadline, how long that
/// is off, and each of its claims.
#[verifier::spinoff_prover]
#[verifier::rlimit(60)]
pub proof fn people_read_the_whole_delivery(delivery: DeliveryView, i: int)
    ensures
        ({
            let text = delivery_text(delivery);
            &&& contains(
                text,
                "Marker: "@ + (match delivery.marker {
                    Some(marker) => marker,
                    None => "<none>"@,
                }) + seq!['\n'],
            )
            &&& contains(
                text,
                "Deadline epoch seconds: "@ + (match delivery.deadline_epoch_seconds {
                    Some(at) => decimal(at as nat),
                    None => "<none>"@,
                }) + seq!['\n'],
            )
            &&& contains(
                text,
                "Deadline remaining seconds: "@ + (match delivery.deadline_remaining_seconds {
                    Some(left) if left < 0 => seq!['-'] + decimal((-left) as nat),
                    Some(left) => decimal(left as nat),
                    None => "<none>"@,
                }) + seq!['\n'],
            )
            &&& 0 <= i < delivery.claims.len() ==> contains(text, claim_text(delivery.claims[i]))
        }),
{
    let text = delivery_text(delivery);
    let marker = match delivery.marker {
        Some(marker) => marker,
        None => "<none>"@,
    };
    let epoch = match delivery.deadline_epoch_seconds {
        Some(at) => decimal(at as nat),
        None => "<none>"@,
    };
    let left = match delivery.deadline_remaining_seconds {
        Some(left) if left < 0 => seq!['-'] + decimal((-left) as nat),
        Some(left) => decimal(left as nat),
        None => "<none>"@,
    };
    let end = if delivery.claims.len() == 0 {
        "\n    Claims: <none>\n"@
    } else {
        "\n    Claims:\n"@ + claims_text(delivery.claims)
    };
    let m = "  Delivery:\n    Marker: "@;
    let e = "\n    Deadline epoch seconds: "@;
    let r = "\n    Deadline remaining seconds: "@;
    assert(text == m + marker + e + epoch + r + left + end);
    assert(end.len() > 0 && end[0] == '\n') by {
        reveal_strlit("\n    Claims: <none>\n");
        reveal_strlit("\n    Claims:\n");
    }
    assert(e.len() > 0 && e[0] == '\n' && e == "\n    "@ + "Deadline epoch seconds: "@) by {
        reveal_strlit("\n    Deadline epoch seconds: ");
        reveal_strlit("\n    ");
        reveal_strlit("Deadline epoch seconds: ");
        assert(e =~= "\n    "@ + "Deadline epoch seconds: "@);
    }
    assert(r.len() > 0 && r[0] == '\n' && r == "\n    "@ + "Deadline remaining seconds: "@) by {
        reveal_strlit("\n    Deadline remaining seconds: ");
        reveal_strlit("\n    ");
        reveal_strlit("Deadline remaining seconds: ");
        assert(r =~= "\n    "@ + "Deadline remaining seconds: "@);
    }
    assert(m == "  Delivery:\n    "@ + "Marker: "@) by {
        reveal_strlit("  Delivery:\n    Marker: ");
        reveal_strlit("  Delivery:\n    ");
        reveal_strlit("Marker: ");
        assert(m =~= "  Delivery:\n    "@ + "Marker: "@);
    }
    let p1 = seq![m];
    let p2 = p1.push(marker);
    let p3 = p2.push(e);
    let p4 = p3.push(epoch);
    let p5 = p4.push(r);
    let p6 = p5.push(left);
    let parts = p6.push(end);
    lemma_row_of_one(m);
    lemma_row_goes_on(p1, m, marker);
    lemma_row_goes_on(p2, m + marker, e);
    lemma_row_goes_on(p3, m + marker + e, epoch);
    lemma_row_goes_on(p4, m + marker + e + epoch, r);
    lemma_row_goes_on(p5, m + marker + e + epoch + r, left);
    lemma_row_goes_on(p6, m + marker + e + epoch + r + left, end);
    assert(parts.flatten() == text);
    lemma_three_in_a_row(parts, 0);
    lemma_three_in_a_row(parts, 2);
    lemma_three_in_a_row(parts, 4);
    let none = Seq::<char>::empty();
    lemma_line("  Delivery:\n    "@, "Marker: "@, marker, e);
    lemma_within(text, m + marker + e, "Marker: "@ + marker + seq!['\n']);
    lemma_line("\n    "@, "Deadline epoch seconds: "@, epoch, r);
    lemma_within(text, e + epoch + r, "Deadline epoch seconds: "@ + epoch + seq!['\n']);
    lemma_line("\n    "@, "Deadline remaining seconds: "@, left, end);
    lemma_within(text, r + left + end, "Deadline remaining seconds: "@ + left + seq!['\n']);
    if 0 <= i < delivery.claims.len() {
        let claims = delivery.claims;
        let one = seq![claims[i]];
        let before = claims.take(i);
        let behind = claims.skip(i + 1);
        claims_are_read_one_after_another(before + one, behind);
        claims_are_read_one_after_another(before, one);
        assert(claims =~= before + one + behind);
        lemma_holds(claims_text(before), claim_text(claims[i]), claims_text(behind));
        assert(end =~= "\n    Claims:\n"@ + claims_text(claims) + none);
        lemma_holds("\n    Claims:\n"@, claims_text(claims), none);
        lemma_within(end, claims_text(claims), claim_text(claims[i]));
        lemma_holds(r + left, end, none);
        assert(r + left + end =~= (r + left) + end + none);
        lemma_within(r + left + end, end, claim_text(claims[i]));
        lemma_within(text, r + left + end, claim_text(claims[i]));
    }
}

/// What people read of a session is its id on a line, and then all that they
/// read of its snapshot and of its delivery.
pub proof fn people_read_the_whole_record(record: RecordView)
    ensures
        record_text(record) == "Session: "@ + record.session_id + "\n"@ + snapshot_text(
            record.snapshot,
        ) + delivery_text(record.delivery),
        record.snapshot is None ==> snapshot_text(record.snapshot) == "  Snapshot: <none>\n"@,
{
}

proof fn lemma_end_lines(text: Seq<char>)
    ensures
        without_end_lines(text).len() <= text.len(),
        without_end_lines(text) == text.take(without_end_lines(text).len() as int),
        forall|i: int|
            without_end_lines(text).len() <= i < text.len() ==> #[trigger] text[i] == '\n',
        without_end_lines(text).len() > 0 ==> without_end_lines(text).last() != '\n',
    decreases text.len(),
{
    if text.len() > 0 && text.last() == '\n' {
        let front = text.drop_last();
        lemma_end_lines(front);
        let out = without_end_lines(text);
        assert(front.take(out.len() as int) =~= text.take(out.len() as int));
        assert forall|i: int| out.len() <= i < text.len() implies #[trigger] text[i] == '\n' by {
            if i < front.len() {
                assert(front[i] == text[i]);
            }
        }
    } else {
        assert(text.take(text.len() as int) =~= text);
    }
}

/// People read every record, each with a blank line between it and the next, and
/// of all that only the newlines at the very end are left out.
pub proof fn people_read_every_record(records: Seq<RecordView>)
    requires
        records.len() > 0,
    ensures
        ({
            let texts = Seq::new(records.len(), |i: int| record_text(records[i]));
            let whole = join(texts, seq!['\n']);
            let text = human(records);
            &&& text.len() <= whole.len()
            &&& text == whole.take(text.len() as int)
            &&& forall|i: int| text.len() <= i < whole.len() ==> #[trigger] whole[i] == '\n'
            &&& text.len() > 0 ==> text.last() != '\n'
        }),
{
    reveal_strlit("\n");
    assert("\n"@ =~= seq!['\n']);
    let texts = Seq::new(records.len(), |i: int| record_text(records[i]));
    assert(texts =~= records.map_values(|record: RecordView| record_text(record)));
    lemma_end_lines(join(texts, seq!['\n']));
}

/// What programs read of two rows of records is one list of both, in their
/// order.
#[verifier::spinoff_prover]
pub proof fn programs_read_one_list(a: Seq<RecordView>, b: Seq<RecordView>)
    requires
        a.len() > 0,
        b.len() > 0,
    ensures
        machine(a + b) == machine(a).drop_last() + ","@ + machine(b).skip(1),
        a.len() == 1 ==> machine(a) == "["@ + record_json(a[0]) + "]"@,
        machine(Seq::empty()) == "["@ + "]"@,
{
    let f = |record: RecordView| record_json(record);
    let x = a.map_values(f);
    let y = b.map_values(f);
    let none = Seq::<RecordView>::empty();
    assert((a + b).map_values(f) =~= x + y);
    assert(none.map_values(f) =~= Seq::empty());
    joined_rows_meet_at_a_separator(x, y, ","@);
    assert("["@.len() == 1 && "]"@.len() == 1) by {
        reveal_strlit("[");
        reveal_strlit("]");
    }
    lemma_lists_meet("["@, join(x, ","@), ","@, join(y, ","@), "]"@);
    assert(join(Seq::<Seq<char>>::empty(), ","@) == Seq::<char>::empty());
    assert("["@ + Seq::<char>::empty() =~= "["@);
    if a.len() == 1 {
        assert(x[0] == record_json(a[0]));
    }
}

proof fn lemma_lists_meet(
    open: Seq<char>,
    x: Seq<char>,
    between: Seq<char>,
    y: Seq<char>,
    close: Seq<char>,
)
    requires
        open.len() == 1,
        close.len() == 1,
    ensures
        open + (x + between + y) + close == (open + x + close).drop_last() + between + (open + y
            + close).skip(1),
{
    assert((open + x + close).drop_last() =~= open + x);
    assert((open + y + close).skip(1) =~= y + close);
    assert(open + (x + between + y) + close =~= (open + x) + between + (y + close));
}

/// What programs read of a record holds every part of it under its name: the
/// session, the snapshot, the marker, the deadline, and each claim.
#[verifier::spinoff_prover]
#[verifier::rlimit(60)]
pub proof fn programs_read_the_whole_record(record: RecordView, i: int)
    ensures
        ({
            let text = record_json(record);
            let delivery = record.delivery;
            &&& occurs_at(text, "{\"session_id\":"@ + quoted(record.session_id), 0)
            &&& contains(
                text,
                ",\"snapshot\":"@ + snapshot_json(record.snapshot)
                    + ",\"delivery\":{\"marker\":"@,
            )
            &&& contains(
                text,
                ",\"delivery\":{\"marker\":"@ + (match delivery.marker {
                    Some(marker) => quoted(marker),
                    None => "null"@,
                }) + ",\"deadline_epoch_seconds\":"@,
            )
            &&& contains(
                text,
                ",\"deadline_epoch_seconds\":"@ + (match delivery.deadline_epoch_seconds {
                    Some(at) => decimal(at as nat),
                    None => "null"@,
                }) + ",\"deadline_remaining_seconds\":"@,
            )
            &&& contains(
                text,
                ",\"deadline_remaining_seconds\":"@ + (match delivery.deadline_remaining_seconds {
                    Some(left) if left < 0 => seq!['-'] + decimal((-left) as nat),
                    Some(left) => decimal(left as nat),
                    None => "null"@,
                }) + ",\"claims\":["@,
            )
            &&& 0 <= i < delivery.claims.len() ==> contains(text, claim_json(delivery.claims[i]))
        }),
{
    let text = record_json(record);
    let delivery = record.delivery;
    let parts = delivery.claims.map_values(|claim: ClaimView| claim_json(claim));
    let claims = join(parts, ","@);
    let marker = match delivery.marker {
        Some(marker) => quoted(marker),
        None => "null"@,
    };
    let epoch = match delivery.deadline_epoch_seconds {
        Some(at) => decimal(at as nat),
        None => "null"@,
    };
    let left = match delivery.deadline_remaining_seconds {
        Some(left) if left < 0 => seq!['-'] + decimal((-left) as nat),
        Some(left) => decimal(left as nat),
        None => "null"@,
    };
    let id = "{\"session_id\":"@ + quoted(record.session_id);
    let s = ",\"snapshot\":"@;
    let snapshot = snapshot_json(record.snapshot);
    let m = ",\"delivery\":{\"marker\":"@;
    let e = ",\"deadline_epoch_seconds\":"@;
    let r = ",\"deadline_remaining_seconds\":"@;
    let c = ",\"claims\":["@;
    let first = "{\"session_id\":"@;
    let named = quoted(record.session_id);
    let last = "]}}"@;
    let p1 = seq![first];
    let p2 = p1.push(named);
    let p3 = p2.push(s);
    let p4 = p3.push(snapshot);
    let p5 = p4.push(m);
    let p6 = p5.push(marker);
    let p7 = p6.push(e);
    let p8 = p7.push(epoch);
    let p9 = p8.push(r);
    let p10 = p9.push(left);
    let p11 = p10.push(c);
    let p12 = p11.push(claims);
    let pieces = p12.push(last);
    lemma_row_of_one(first);
    lemma_row_goes_on(p1, first, named);
    let t3 = first + named + s;
    lemma_row_goes_on(p2, first + named, s);
    lemma_row_goes_on(p3, t3, snapshot);
    lemma_row_goes_on(p4, t3 + snapshot, m);
    let t6 = t3 + snapshot + m + marker;
    lemma_row_goes_on(p5, t3 + snapshot + m, marker);
    lemma_row_goes_on(p6, t6, e);
    lemma_row_goes_on(p7, t6 + e, epoch);
    let t9 = t6 + e + epoch + r;
    lemma_row_goes_on(p8, t6 + e + epoch, r);
    lemma_row_goes_on(p9, t9, left);
    lemma_row_goes_on(p10, t9 + left, c);
    lemma_row_goes_on(p11, t9 + left + c, claims);
    lemma_row_goes_on(p12, t9 + left + c + claims, last);
    assert(pieces.flatten() == text);
    lemma_three_in_a_row(pieces, 2);
    lemma_three_in_a_row(pieces, 4);
    lemma_three_in_a_row(pieces, 6);
    lemma_three_in_a_row(pieces, 8);
    assert(occurs_at(text, id, 0)) by {
        let rest = pieces.drop_first();
        assert(pieces.flatten() == first + rest.flatten());
        assert(rest.flatten() == named + rest.drop_first().flatten());
        assert(text.subrange(0, id.len() as int) =~= id);
    }
    if 0 <= i < delivery.claims.len() {
        lemma_join_holds(parts, ","@, i);
        assert(parts[i] == claim_json(delivery.claims[i]));
        lemma_three_in_a_row(pieces, 10);
        lemma_holds(c, claims, last);
        lemma_within(text, c + claims + last, claims);
        lemma_within(text, claims, parts[i]);
    }
}

/// What programs read of a snapshot holds every part of it under its name, the
/// handoff whole, and only one that has a key is shown with one.
#[verifier::spinoff_prover]
#[verifier::rlimit(60)]
pub proof fn programs_read_the_whole_snapshot(row: RowView)
    ensures
        ({
            let text = snapshot_json(Some(row));
            &&& occurs_at(text, "{\"session_id\":"@ + quoted(row.session_id) + ",\"amtr_key\":"@, 0)
            &&& contains(
                text,
                ",\"amtr_key\":"@ + (match row.amtr_key {
                    Some(key) => quoted(key),
                    None => "null"@,
                }) + ",\"handoff\":"@,
            )
            &&& contains(text, ",\"handoff\":"@ + quoted(row.handoff) + ",\"compacted_at\":"@)
            &&& ends_with(text, ",\"compacted_at\":"@ + quoted(row.compacted_at) + "}"@)
        }),
        snapshot_json(None) == "null"@,
{
    let text = snapshot_json(Some(row));
    let key = match row.amtr_key {
        Some(key) => quoted(key),
        None => "null"@,
    };
    let id = "{\"session_id\":"@ + quoted(row.session_id);
    let k = ",\"amtr_key\":"@;
    let h = ",\"handoff\":"@;
    let t = ",\"compacted_at\":"@;
    let handoff = quoted(row.handoff);
    let end = t + quoted(row.compacted_at) + "}"@;
    assert(text =~= id + k + key + h + handoff + end);
    assert(text.subrange(0, (id + k).len() as int) =~= id + k);
    lemma_holds(id, k + key + h, handoff + end);
    assert(text =~= id + (k + key + h) + (handoff + end));
    let at = quoted(row.compacted_at) + "}"@;
    lemma_holds(id + k + key, h + handoff + t, at);
    assert(text =~= (id + k + key) + (h + handoff + t) + at);
    assert(text.subrange(text.len() - end.len(), text.len() as int) =~= end);
}

proof fn lemma_join_holds(parts: Seq<Seq<char>>, between: Seq<char>, i: int)
    requires
        0 <= i < parts.len(),
    ensures
        contains(join(parts, between), parts[i]),
    decreases parts.len(),
{
    let all = join(parts, between);
    if i == parts.len() - 1 {
        let at = all.len() - parts[i].len();
        assert(all.subrange(at, at + parts[i].len()) =~= parts[i]);
        assert(occurs_at(all, parts[i], at));
    } else {
        let front = parts.drop_last();
        lemma_join_holds(front, between, i);
        let at = choose|at: int| #[trigger] occurs_at(join(front, between), parts[i], at);
        assert(all.subrange(at, at + parts[i].len()) =~= join(front, between).subrange(
            at,
            at + parts[i].len(),
        ));
        assert(occurs_at(all, parts[i], at));
    }
}

/// What programs read of a claim tells its file, what it was made for, and what
/// it holds.
pub proof fn programs_read_the_whole_claim(claim: ClaimView)
    ensures
        claim_json(claim) == "{\"file\":"@ + quoted(claim.file) + ",\"operation\":"@
            + quoted(claim.operation) + ",\"state\":"@ + (match claim.state {
            Some(state) => quoted(state),
            None => "null"@,
        }) + "}"@,
{
}

/// Of a file that is neither a marker nor a deadline, the first of the words for a
/// claim that stands in its name tells what it was made for, and what stands
/// before the first place of that word is the session.
pub proof fn claims_are_split_at_the_first_word(name: Seq<char>, at: int)
    requires
        !ends_with(name, ".marker"@),
        !ends_with(name, ".deliver-deadline"@),
    ensures
        first_at(name, ".marker.delivering."@, at) ==> classified(name) == Some(
            (name.take(at), KindView::Claim("delivering"@)),
        ),
        !contains(name, ".marker.delivering."@) && first_at(name, ".marker.expiring."@, at)
            ==> classified(name) == Some((name.take(at), KindView::Claim("expiring"@))),
        !contains(name, ".marker.delivering."@) && !contains(name, ".marker.expiring."@)
            && first_at(name, ".deliver-deadline.publishing."@, at) ==> classified(name) == Some(
            (name.take(at), KindView::Claim("publishing"@)),
        ),
        !contains(name, ".marker.delivering."@) && !contains(name, ".marker.expiring."@)
            && !contains(name, ".deliver-deadline.publishing."@) ==> classified(name) is None,
{
    if first_at(name, ".marker.delivering."@, at) {
        first_position(name, ".marker.delivering."@, at);
    }
    if first_at(name, ".marker.expiring."@, at) {
        first_position(name, ".marker.expiring."@, at);
    }
    if first_at(name, ".deliver-deadline.publishing."@, at) {
        first_position(name, ".deliver-deadline.publishing."@, at);
    }
}

/// Each record that is returned shows what is known of its session, with its
/// claims in the order of their files, and the records come in the order of their
/// sessions, each session once.
pub proof fn records_show_what_is_known(
    records: Seq<Record>,
    listing: Option<Listing>,
    session: Option<Seq<char>>,
    key: Option<Seq<char>>,
    i: int,
    j: int,
)
    requires
        lists(records, wanted(shown(listing), session, key)),
        0 <= i < records.len(),
    ensures
        ({
            let record = records[i]@;
            let id = records[i].session_id@;
            let known = shown(listing)[id];
            &&& shown(listing).dom().contains(id)
            &&& record.session_id == id
            &&& record.snapshot == known.snapshot
            &&& record.delivery.marker == known.delivery.marker
            &&& record.delivery.deadline_epoch_seconds == known.delivery.deadline_epoch_seconds
            &&& record.delivery.deadline_remaining_seconds
                == known.delivery.deadline_remaining_seconds
            &&& record.delivery.claims.to_multiset() == known.delivery.claims.to_multiset()
            &&& forall|a: int, b: int|
                0 <= a < b < record.delivery.claims.len() ==> !precedes(
                    (#[trigger] record.delivery.claims[b]).file,
                    (#[trigger] record.delivery.claims[a]).file,
                )
        }),
        i < j < records.len() ==> precedes(records[i].session_id@, records[j].session_id@)
            && records[i].session_id@ != records[j].session_id@,
{
    let id = records[i].session_id@;
    let asked = wanted(shown(listing), session, key);
    assert(asked.dom().contains(id));
    claims_are_put_in_order(shown(listing)[id].delivery.claims);
    precedes_is_irreflexive(id);
}

/// Where there is nothing to show, people are told so.
pub proof fn people_are_told_that_there_is_nothing()
    ensures
        human(Seq::empty()) == "No matching snapshots or delivery state."@,
{
}

/// What people read holds nothing besides: of a snapshot, of a claim and of a
/// delivery they read these words and values, in this order.
pub proof fn people_read_nothing_besides(row: RowView, claim: ClaimView, delivery: DeliveryView)
    ensures
        snapshot_text(Some(row)) == "  Snapshot:\n    Session ID: "@ + row.session_id
            + "\n    AMTR key: "@ + (match row.amtr_key {
            Some(key) => key,
            None => "<none>"@,
        }) + "\n    Compacted at: "@ + row.compacted_at + "\n    Handoff:\n"@ + block(
            "      "@,
            row.handoff,
        ),
        claim_text(claim) == "      - File: "@ + claim.file + "\n        Operation: "@
            + claim.operation + (match claim.state {
            Some(state) => "\n        State:\n"@ + block("          "@, state),
            None => "\n        State: <unreadable>\n"@,
        }),
        delivery_text(delivery) == "  Delivery:\n    Marker: "@ + (match delivery.marker {
            Some(marker) => marker,
            None => "<none>"@,
        }) + "\n    Deadline epoch seconds: "@ + (match delivery.deadline_epoch_seconds {
            Some(at) => decimal(at as nat),
            None => "<none>"@,
        }) + "\n    Deadline remaining seconds: "@ + (match delivery.deadline_remaining_seconds {
            Some(left) if left < 0 => seq!['-'] + decimal((-left) as nat),
            Some(left) => decimal(left as nat),
            None => "<none>"@,
        }) + (if delivery.claims.len() == 0 {
            "\n    Claims: <none>\n"@
        } else {
            "\n    Claims:\n"@ + claims_text(delivery.claims)
        }),
{
}

/// What programs read holds nothing besides: of a snapshot and of a record they
/// read these names and values, in this order, and of its claims each, in their
/// order.
pub proof fn programs_read_nothing_besides(row: RowView, record: RecordView)
    ensures
        snapshot_json(Some(row)) == "{\"session_id\":"@ + quoted(row.session_id)
            + ",\"amtr_key\":"@ + (match row.amtr_key {
            Some(key) => quoted(key),
            None => "null"@,
        }) + ",\"handoff\":"@ + quoted(row.handoff) + ",\"compacted_at\":"@ + quoted(
            row.compacted_at,
        ) + "}"@,
        record_json(record) == "{\"session_id\":"@ + quoted(record.session_id)
            + ",\"snapshot\":"@ + snapshot_json(record.snapshot)
            + ",\"delivery\":{\"marker\":"@ + (match record.delivery.marker {
            Some(marker) => quoted(marker),
            None => "null"@,
        }) + ",\"deadline_epoch_seconds\":"@ + (match record.delivery.deadline_epoch_seconds {
            Some(at) => decimal(at as nat),
            None => "null"@,
        }) + ",\"deadline_remaining_seconds\":"@ + (match record.delivery.deadline_remaining_seconds {
            Some(left) if left < 0 => seq!['-'] + decimal((-left) as nat),
            Some(left) => decimal(left as nat),
            None => "null"@,
        }) + ",\"claims\":["@ + join(
            Seq::new(record.delivery.claims.len(), |i: int| claim_json(record.delivery.claims[i])),
            ","@,
        ) + "]}}"@,
{
    let claims = record.delivery.claims;
    assert(Seq::new(claims.len(), |i: int| claim_json(claims[i])) =~= claims.map_values(
        |claim: ClaimView| claim_json(claim),
    ));
}

} // verus!
