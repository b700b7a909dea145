//! A read-only view of the stored snapshots and of the deliveries under way.

use vstd::prelude::*;

use crate::fault::Fault;
use crate::json::{quote, quoted};
use crate::numeral::{
    decimal, decimal_of, is_decimal, numeral_holds_digits, numeral_reads_back, parse_u64,
    parsed_u64, signed_decimal, signed_decimal_of,
};
use crate::order::{Named, placed, sort, sorted};
use crate::recall::{Operation, claim_path};
use crate::store::{Row, RowView};
use crate::text::{
    before_first, begins_with, chars_of, comes_before, contains, copied, ends_with, first_at,
    first_position, join, occurs_at, opt_view, position, precedes, precedes_is_irreflexive,
    precedes_is_total, precedes_is_transitive, same, split, split_at_each, strip_suffix, text_of,
    views,
};

verus! {

/// All that is known of one session.
pub struct Record {
    pub session_id: String,
    pub snapshot: Option<Row>,
    pub delivery: Delivery,
}

/// The state of a delivery.
pub struct Delivery {
    pub marker: Option<String>,
    pub deadline_epoch_seconds: Option<u64>,
    pub deadline_remaining_seconds: Option<i64>,
    pub claims: Vec<Claim>,
}

/// A claim file.
pub struct Claim {
    pub file: String,
    pub operation: String,
    /// What the file holds, unless it cannot be read.
    pub state: Option<String>,
}

/// A claim file, as contracts speak of it.
pub struct ClaimView {
    pub file: Seq<char>,
    pub operation: Seq<char>,
    pub state: Option<Seq<char>>,
}

/// The state of a delivery, as contracts speak of it.
pub struct DeliveryView {
    pub marker: Option<Seq<char>>,
    pub deadline_epoch_seconds: Option<u64>,
    pub deadline_remaining_seconds: Option<i64>,
    pub claims: Seq<ClaimView>,
}

/// All that is known of one session, as contracts speak of it.
pub struct RecordView {
    pub session_id: Seq<char>,
    pub snapshot: Option<RowView>,
    pub delivery: DeliveryView,
}

impl View for Claim {
    type V = ClaimView;

    open spec fn view(&self) -> ClaimView {
        ClaimView {
            file: self.file@,
            operation: self.operation@,
            state: opt_view(self.state),
        }
    }
}

/// What `claims` say.
pub open spec fn claim_views(claims: Seq<Claim>) -> Seq<ClaimView> {
    claims.map_values(|claim: Claim| claim@)
}

impl View for Delivery {
    type V = DeliveryView;

    open spec fn view(&self) -> DeliveryView {
        DeliveryView {
            marker: opt_view(self.marker),
            deadline_epoch_seconds: self.deadline_epoch_seconds,
            deadline_remaining_seconds: self.deadline_remaining_seconds,
            claims: claim_views(self.claims@),
        }
    }
}

impl View for Record {
    type V = RecordView;

    open spec fn view(&self) -> RecordView {
        RecordView {
            session_id: self.session_id@,
            snapshot: match self.snapshot {
                Some(row) => Some(row@),
                None => None,
            },
            delivery: self.delivery@,
        }
    }
}

impl Named for Claim {
    open spec fn name(self) -> Seq<char> {
        self.file@
    }

    fn name_text(&self) -> (text: &str) {
        self.file.as_str()
    }
}

/// A session of which nothing is delivered.
pub open spec fn idle() -> DeliveryView {
    DeliveryView {
        marker: None,
        deadline_epoch_seconds: None,
        deadline_remaining_seconds: None,
        claims: Seq::empty(),
    }
}

impl Default for Delivery {
    fn default() -> (delivery: Delivery)
        ensures
            delivery@ == idle(),
    {
        let claims: Vec<Claim> = Vec::new();
        assert(claim_views(claims@) =~= Seq::empty());
        Delivery {
            marker: None,
            deadline_epoch_seconds: None,
            deadline_remaining_seconds: None,
            claims,
        }
    }
}

/// What a file of the store is about.
pub enum Kind {
    Marker,
    Deadline,
    /// A claim, made for this operation.
    Claim(&'static str),
}

/// What a file of the store is about, as contracts speak of it.
pub enum KindView {
    Marker,
    Deadline,
    Claim(Seq<char>),
}

impl View for Kind {
    type V = KindView;

    open spec fn view(&self) -> KindView {
        match self {
            Kind::Marker => KindView::Marker,
            Kind::Deadline => KindView::Deadline,
            Kind::Claim(operation) => KindView::Claim(operation@),
        }
    }
}

/// Which session a file of the store belongs to and what it is about, by its
/// name. Rows, files on their way to another name, and whatever else there may
/// be are none of this.
pub open spec fn classified(name: Seq<char>) -> Option<(Seq<char>, KindView)> {
    if ends_with(name, ".marker"@) {
        Some((name.take(name.len() - ".marker"@.len()), KindView::Marker))
    } else if ends_with(name, ".deliver-deadline"@) {
        Some((name.take(name.len() - ".deliver-deadline"@.len()), KindView::Deadline))
    } else if position(name, ".marker.delivering."@) is Some {
        Some(
            (
                name.take(position(name, ".marker.delivering."@)->0),
                KindView::Claim("delivering"@),
            ),
        )
    } else if position(name, ".marker.expiring."@) is Some {
        Some(
            (name.take(position(name, ".marker.expiring."@)->0), KindView::Claim("expiring"@)),
        )
    } else if position(name, ".deliver-deadline.publishing."@) is Some {
        Some(
            (
                name.take(position(name, ".deliver-deadline.publishing."@)->0),
                KindView::Claim("publishing"@),
            ),
        )
    } else {
        None
    }
}

/// Tells which session a file of the store belongs to and what it is about.
pub fn classify(name: &str) -> (class: Option<(String, Kind)>)
    ensures
        match (classified(name@), class) {
            (Some((session, kind)), Some((out, out_kind))) => out@ == session && out_kind@ == kind,
            (None, None) => true,
            _ => false,
        },
{
    if let Some(session) = strip_suffix(name, ".marker") {
        return Some((session, Kind::Marker));
    }
    if let Some(session) = strip_suffix(name, ".deliver-deadline") {
        return Some((session, Kind::Deadline));
    }
    if let Some(session) = before_first(name, ".marker.delivering.") {
        return Some((session, Kind::Claim("delivering")));
    }
    if let Some(session) = before_first(name, ".marker.expiring.") {
        return Some((session, Kind::Claim("expiring")));
    }
    if let Some(session) = before_first(name, ".deliver-deadline.publishing.") {
        return Some((session, Kind::Claim("publishing")));
    }
    None
}

/// How many seconds are left until `deadline`, as far as the number goes.
pub open spec fn remaining(deadline: u64, now: u64) -> i64 {
    let left = deadline - now;
    if left > i64::MAX {
        i64::MAX
    } else if left < i64::MIN {
        i64::MIN
    } else {
        left as i64
    }
}

fn remaining_seconds(deadline: u64, now: u64) -> (left: i64)
    ensures
        left == remaining(deadline, now),
{
    let left: i128 = deadline as i128 - now as i128;
    if left > i64::MAX as i128 {
        i64::MAX
    } else if left < i64::MIN as i128 {
        i64::MIN
    } else {
        left as i64
    }
}

/// A session of which nothing is known.
pub open spec fn unknown(session_id: Seq<char>) -> RecordView {
    RecordView { session_id, snapshot: None, delivery: idle() }
}

/// What is known of a session once one of its files has been read. `value` is
/// what the file holds, unless it cannot be read.
pub open spec fn noted(
    record: RecordView,
    kind: KindView,
    file: Seq<char>,
    value: Option<Seq<char>>,
    now: u64,
) -> RecordView {
    let delivery = record.delivery;
    RecordView {
        delivery: match kind {
            KindView::Marker => DeliveryView { marker: value, ..delivery },
            KindView::Deadline => {
                let deadline = match value {
                    Some(text) => parsed_u64(text),
                    None => None,
                };
                DeliveryView {
                    deadline_epoch_seconds: deadline,
                    deadline_remaining_seconds: match deadline {
                        Some(at) => Some(remaining(at, now)),
                        None => None,
                    },
                    ..delivery
                }
            },
            KindView::Claim(operation) => DeliveryView {
                claims: delivery.claims.push(ClaimView { file, operation, state: value }),
                ..delivery
            },
        },
        ..record
    }
}

/// What is known of all sessions, by their ids.
pub type Known = Map<Seq<char>, RecordView>;

/// What is known from the rows. Of two rows of one session the later counts.
pub open spec fn from_rows(rows: Seq<Row>) -> Known
    decreases rows.len(),
{
    if rows.len() == 0 {
        Map::empty()
    } else {
        let row = rows.last()@;
        from_rows(rows.drop_last()).insert(
            row.session_id,
            RecordView { session_id: row.session_id, snapshot: Some(row), delivery: idle() },
        )
    }
}

/// A file of the store: its name, and what it holds unless it cannot be read.
pub type StoreFile = (String, Option<String>);

/// What is known once a file has been read too.
pub open spec fn with_file(known: Known, file: StoreFile, now: u64) -> Known {
    match classified(file.0@) {
        Some((session_id, kind)) => {
            let record = if known.dom().contains(session_id) {
                known[session_id]
            } else {
                unknown(session_id)
            };
            known.insert(session_id, noted(record, kind, file.0@, opt_view(file.1), now))
        },
        None => known,
    }
}

/// What is known once all files have been read.
pub open spec fn with_files(known: Known, files: Seq<StoreFile>, now: u64) -> Known
    decreases files.len(),
{
    if files.len() == 0 {
        known
    } else {
        with_file(with_files(known, files.drop_last(), now), files.last(), now)
    }
}

/// `claims` with `claim` among them, in the order of their files.
pub open spec fn claim_placed(claims: Seq<ClaimView>, claim: ClaimView) -> Seq<ClaimView>
    decreases claims.len(),
{
    if claims.len() > 0 && precedes(claim.file, claims.last().file) {
        claim_placed(claims.drop_last(), claim).push(claims.last())
    } else {
        claims.push(claim)
    }
}

/// `claims` in the order of their files.
pub open spec fn claims_sorted(claims: Seq<ClaimView>) -> Seq<ClaimView>
    decreases claims.len(),
{
    if claims.len() == 0 {
        claims
    } else {
        claim_placed(claims_sorted(claims.drop_last()), claims.last())
    }
}

/// Whether a record is asked for. Both conditions have to hold.
pub open spec fn is_wanted(
    record: RecordView,
    session: Option<Seq<char>>,
    key: Option<Seq<char>>,
) -> bool {
    &&& session matches Some(session) ==> record.session_id == session
    &&& key matches Some(key) ==> (record.snapshot matches Some(row) && row.amtr_key == Some(key))
}

/// A record with its claims in order.
pub open spec fn tidy(record: RecordView) -> RecordView {
    RecordView {
        delivery: DeliveryView {
            claims: claims_sorted(record.delivery.claims),
            ..record.delivery
        },
        ..record
    }
}

/// The records that are asked for.
pub open spec fn wanted(known: Known, session: Option<Seq<char>>, key: Option<Seq<char>>) -> Known {
    Map::new(
        |id: Seq<char>| known.dom().contains(id) && is_wanted(known[id], session, key),
        |id: Seq<char>| tidy(known[id]),
    )
}

/// Whether `records` are all that is known, in the order of the sessions.
pub open spec fn lists(records: Seq<Record>, known: Known) -> bool {
    &&& forall|i: int, j: int|
        0 <= i < j < records.len() ==> precedes(
            (#[trigger] records[i]).session_id@,
            (#[trigger] records[j]).session_id@,
        )
    &&& forall|i: int|
        0 <= i < records.len() ==> known.dom().contains((#[trigger] records[i]).session_id@)
            && known[records[i].session_id@] == records[i]@
    &&& forall|id: Seq<char>| #[trigger]
        known.dom().contains(id) ==> exists|i: int|
            0 <= i < records.len() && (#[trigger] records[i]).session_id@ == id
}

proof fn lemma_sorted_claims(claims: Seq<Claim>)
    ensures
        claim_views(sorted(claims)) == claims_sorted(claim_views(claims)),
    decreases claims.len(),
{
    if claims.len() > 0 {
        lemma_sorted_claims(claims.drop_last());
        assert(claim_views(claims).drop_last() =~= claim_views(claims.drop_last()));
        lemma_placed_claim(sorted(claims.drop_last()), claims.last());
    } else {
        assert(claim_views(sorted(claims)) =~= claims_sorted(claim_views(claims)));
    }
}

proof fn lemma_placed_claim(claims: Seq<Claim>, claim: Claim)
    ensures
        claim_views(placed(claims, claim)) == claim_placed(claim_views(claims), claim@),
    decreases claims.len(),
{
    if claims.len() > 0 && precedes(claim.name(), claims.last().name()) {
        lemma_placed_claim(claims.drop_last(), claim);
        assert(claim_views(claims).drop_last() =~= claim_views(claims.drop_last()));
        let inner = placed(claims.drop_last(), claim);
        assert(claim_views(inner.push(claims.last())) =~= claim_views(inner).push(
            claims.last()@,
        ));
    } else {
        assert(claim_views(claims.push(claim)) =~= claim_views(claims).push(claim@));
    }
}

/// Takes the record of a session out of the list, or makes a new one.
fn take_out(records: &mut Vec<Record>, session_id: &str, Ghost(known): Ghost<Known>) -> (record:
    Record)
    requires
        lists(old(records)@, known),
    ensures
        lists(final(records)@, known.remove(session_id@)),
        record@ == (if known.dom().contains(session_id@) {
            known[session_id@]
        } else {
            unknown(session_id@)
        }),
        record.session_id@ == session_id@,
{
    let ghost all = records@;
    let mut i: usize = 0;
    while i < records.len()
        invariant
            i <= records.len(),
            records@ == all,
            lists(all, known),
            forall|j: int| 0 <= j < i ==> (#[trigger] all[j]).session_id@ != session_id@,
        decreases records.len() - i,
    {
        if same(records[i].session_id.as_str(), session_id) {
            let record = records.remove(i);
            proof {
                let rest = records@;
                let less = known.remove(session_id@);
                assert(rest =~= all.remove(i as int));
                assert forall|a: int, b: int| 0 <= a < b < rest.len() implies precedes(
                    (#[trigger] rest[a]).session_id@,
                    (#[trigger] rest[b]).session_id@,
                ) by {
                    let a0 = if a < i { a } else { a + 1 };
                    let b0 = if b < i { b } else { b + 1 };
                    assert(rest[a] == all[a0] && rest[b] == all[b0]);
                }
                assert forall|a: int| 0 <= a < rest.len() implies less.dom().contains(
                    (#[trigger] rest[a]).session_id@,
                ) && less[rest[a].session_id@] == rest[a]@ by {
                    let a0 = if a < i { a } else { a + 1 };
                    assert(rest[a] == all[a0]);
                    precedes_is_irreflexive(session_id@);
                    if a0 < i {
                        assert(precedes(all[a0].session_id@, all[i as int].session_id@));
                    } else {
                        assert(precedes(all[i as int].session_id@, all[a0].session_id@));
                    }
                }
                assert forall|id: Seq<char>| #[trigger] less.dom().contains(id) implies exists|
                    a: int,
                |
                    0 <= a < rest.len() && (#[trigger] rest[a]).session_id@ == id by {
                    assert(known.dom().contains(id));
                    let a0 = choose|a: int|
                        0 <= a < all.len() && (#[trigger] all[a]).session_id@ == id;
                    let a = if a0 < i { a0 } else { a0 - 1 };
                    assert(rest[a] == all[a0]);
                }
            }
            return record;
        }
        i = i + 1;
    }
    proof {
        if known.dom().contains(session_id@) {
            let a = choose|a: int|
                0 <= a < all.len() && (#[trigger] all[a]).session_id@ == session_id@;
            assert(false);
        }
        assert(known.remove(session_id@) =~= known);
    }
    Record { session_id: copied(session_id), snapshot: None, delivery: Delivery::default() }
}

/// Puts a record into the list.
fn put_in(records: &mut Vec<Record>, record: Record, Ghost(known): Ghost<Known>)
    requires
        lists(old(records)@, known),
        !known.dom().contains(record.session_id@),
    ensures
        lists(final(records)@, known.insert(record.session_id@, record@)),
{
    let ghost all = records@;
    let ghost id = record.session_id@;
    let mut i: usize = 0;
    while i < records.len() && comes_before(
        records[i].session_id.as_str(),
        record.session_id.as_str(),
    )
        invariant
            i <= records.len(),
            records@ == all,
            id == record.session_id@,
            forall|j: int| 0 <= j < i ==> precedes((#[trigger] all[j]).session_id@, id),
        decreases records.len() - i,
    {
        i = i + 1;
    }
    records.insert(i, record);
    proof {
        let out = records@;
        let more = known.insert(id, record@);
        assert(out =~= all.insert(i as int, record));
        assert forall|j: int| i <= j < all.len() implies precedes(
            id,
            (#[trigger] all[j]).session_id@,
        ) by {
            let at = all[i as int].session_id@;
            assert(known.dom().contains(at));
            precedes_is_total(at, id);
            assert(precedes(id, at));
            if j > i {
                precedes_is_transitive(id, at, all[j].session_id@);
            }
        }
        assert forall|a: int, b: int| 0 <= a < b < out.len() implies precedes(
            (#[trigger] out[a]).session_id@,
            (#[trigger] out[b]).session_id@,
        ) by {
            let a0 = if a < i { a } else { a - 1 };
            let b0 = if b < i { b } else { b - 1 };
            if a != i {
                assert(out[a] == all[a0]);
            }
            if b != i {
                assert(out[b] == all[b0]);
            }
        }
        assert forall|a: int| 0 <= a < out.len() implies more.dom().contains(
            (#[trigger] out[a]).session_id@,
        ) && more[out[a].session_id@] == out[a]@ by {
            if a != i {
                let a0 = if a < i { a } else { a - 1 };
                assert(out[a] == all[a0]);
                assert(known.dom().contains(all[a0].session_id@));
            }
        }
        assert forall|other: Seq<char>| #[trigger] more.dom().contains(other) implies exists|
            a: int,
        |
            0 <= a < out.len() && (#[trigger] out[a]).session_id@ == other by {
            if other == id {
                assert(out[i as int].session_id@ == id);
            } else {
                assert(known.dom().contains(other));
                let a0 = choose|a: int|
                    0 <= a < all.len() && (#[trigger] all[a]).session_id@ == other;
                let a = if a0 < i { a0 } else { a0 + 1 };
                assert(out[a] == all[a0]);
            }
        }
    }
}

/// Takes down what a file says.
fn note(record: &mut Record, kind: Kind, file: String, value: Option<String>, now: u64)
    ensures
        final(record)@ == noted(old(record)@, kind@, file@, opt_view(value), now),
        final(record).session_id@ == old(record).session_id@,
{
    match kind {
        Kind::Marker => {
            record.delivery.marker = value;
        },
        Kind::Deadline => {
            let deadline = match value {
                Some(text) => parse_u64(text.as_str()),
                None => None,
            };
            record.delivery.deadline_epoch_seconds = deadline;
            record.delivery.deadline_remaining_seconds = match deadline {
                Some(at) => Some(remaining_seconds(at, now)),
                None => None,
            };
        },
        Kind::Claim(operation) => {
            let ghost before = record.delivery.claims@;
            let claim = Claim { file, operation: copied(operation), state: value };
            let ghost added = claim@;
            record.delivery.claims.push(claim);
            assert(claim_views(record.delivery.claims@) =~= claim_views(before).push(added));
        },
    }
}

/// What there is in a store: its rows, the files beside them, and the time in
/// seconds, if it can be told.
pub struct Listing {
    pub rows: Vec<Row>,
    pub files: Vec<StoreFile>,
    pub now: Option<u64>,
}

/// The time that remaining waits are counted from.
pub open spec fn time_in(listing: Listing) -> u64 {
    match listing.now {
        Some(now) => now,
        None => 0,
    }
}

/// All that a store shows.
pub open spec fn shown(listing: Option<Listing>) -> Known {
    match listing {
        Some(listing) => with_files(
            from_rows(listing.rows@),
            listing.files@,
            time_in(listing),
        ),
        None => Map::empty(),
    }
}

fn gather(listing: Listing) -> (records: Vec<Record>)
    ensures
        lists(records@, shown(Some(listing))),
{
    let now: u64 = match listing.now {
        Some(now) => now,
        None => 0,
    };
    let rows = listing.rows;
    let files = listing.files;
    let ghost all_rows = rows@;
    let ghost all_files = files@;
    let mut records: Vec<Record> = Vec::new();
    assert(all_rows.take(0) =~= Seq::empty());
    assert(lists(records@, Map::empty()));
    for row in it: rows
        invariant
            it.seq() == all_rows,
            lists(records@, from_rows(all_rows.take(it.index() as int))),
    {
        let ghost at = it.index() as int;
        let ghost known = from_rows(all_rows.take(at));
        assert(all_rows.take(at + 1).drop_last() =~= all_rows.take(at));
        let id = copied(row.session_id.as_str());
        let _ = take_out(&mut records, id.as_str(), Ghost(known));
        let ghost rest = known.remove(id@);
        let record = Record {
            session_id: id,
            snapshot: Some(row),
            delivery: Delivery::default(),
        };
        let ghost added = record@;
        put_in(&mut records, record, Ghost(rest));
        assert(rest.insert(added.session_id, added) =~= known.insert(added.session_id, added));
    }
    assert(all_rows.take(all_rows.len() as int) =~= all_rows);
    let ghost start = from_rows(all_rows);
    assert(all_files.take(0) =~= Seq::empty());
    for file in it: files
        invariant
            it.seq() == all_files,
            lists(records@, with_files(start, all_files.take(it.index() as int), now)),
    {
        let ghost at = it.index() as int;
        let ghost known = with_files(start, all_files.take(at), now);
        assert(all_files.take(at + 1).drop_last() =~= all_files.take(at));
        let (name, value) = file;
        if let Some((session_id, kind)) = classify(name.as_str()) {
            let mut record = take_out(&mut records, session_id.as_str(), Ghost(known));
            let ghost rest = known.remove(session_id@);
            note(&mut record, kind, name, value, now);
            let ghost changed = record@;
            put_in(&mut records, record, Ghost(rest));
            assert(rest.insert(session_id@, changed) =~= known.insert(session_id@, changed));
        }
    }
    assert(all_files.take(all_files.len() as int) =~= all_files);
    records
}

proof fn lemma_lists_push(records: Seq<Record>, record: Record, known: Known)
    requires
        lists(records, known),
        forall|id: Seq<char>| #[trigger]
            known.dom().contains(id) ==> precedes(id, record.session_id@),
    ensures
        lists(records.push(record), known.insert(record.session_id@, record@)),
{
    let out = records.push(record);
    let more = known.insert(record.session_id@, record@);
    precedes_is_irreflexive(record.session_id@);
    assert forall|i: int, j: int| 0 <= i < j < out.len() implies precedes(
        (#[trigger] out[i]).session_id@,
        (#[trigger] out[j]).session_id@,
    ) by {
        assert(out[i] == records[i]);
        assert(known.dom().contains(records[i].session_id@));
        if j < records.len() {
            assert(out[j] == records[j]);
        }
    }
    assert forall|i: int| 0 <= i < out.len() implies more.dom().contains(
        (#[trigger] out[i]).session_id@,
    ) && more[out[i].session_id@] == out[i]@ by {
        if i < records.len() {
            assert(out[i] == records[i]);
            assert(known.dom().contains(records[i].session_id@));
        }
    }
    assert forall|id: Seq<char>| #[trigger] more.dom().contains(id) implies exists|i: int|
        0 <= i < out.len() && (#[trigger] out[i]).session_id@ == id by {
        if known.dom().contains(id) {
            let i = choose|i: int|
                0 <= i < records.len() && (#[trigger] records[i]).session_id@ == id;
            assert(out[i] == records[i]);
        } else {
            assert(out[records.len() as int].session_id@ == id);
        }
    }
}

fn put_in_order(record: Record) -> (tidied: Record)
    ensures
        tidied@ == tidy(record@),
        tidied.session_id@ == record.session_id@,
{
    proof {
        lemma_sorted_claims(record.delivery.claims@);
    }
    let Record { session_id, snapshot, delivery } = record;
    let Delivery { marker, deadline_epoch_seconds, deadline_remaining_seconds, claims } = delivery;
    Record {
        session_id,
        snapshot,
        delivery: Delivery {
            marker,
            deadline_epoch_seconds,
            deadline_remaining_seconds,
            claims: sort(claims),
        },
    }
}

/// All that a store shows of the sessions that are asked for, in the order of
/// their ids. A delivery without a row is shown too: something that is stuck is
/// what this is for. Where there is no store there is nothing to show.
pub fn records(listing: Option<Listing>, session: Option<&str>, key: Option<&str>) -> (records: Vec<
    Record,
>)
    ensures
        lists(
            records@,
            wanted(
                shown(listing),
                match session {
                    Some(session) => Some(session@),
                    None => None,
                },
                match key {
                    Some(key) => Some(key@),
                    None => None,
                },
            ),
        ),
        session matches Some(session) ==> forall|i: int|
            0 <= i < records@.len() ==> (#[trigger] records@[i]).session_id@ == session@,
        key matches Some(key) ==> forall|i: int|
            0 <= i < records@.len() ==> ((#[trigger] records@[i]).snapshot matches Some(row)
                && row@.amtr_key == Some(key@)),
        forall|id: Seq<char>| #[trigger]
            shown(listing).dom().contains(id) && (session matches Some(session) ==> id
                == session@) && (key matches Some(key) ==> (shown(listing)[id].snapshot matches Some(
                row,
            ) && row.amtr_key == Some(key@))) ==> exists|i: int|
                0 <= i < records@.len() && (#[trigger] records@[i]).session_id@ == id,
{
    let ghost session_view = match session {
        Some(session) => Some(session@),
        None => None,
    };
    let ghost key_view = match key {
        Some(key) => Some(key@),
        None => None,
    };
    let ghost known = shown(listing);
    let ghost asked = wanted(known, session_view, key_view);
    let all = match listing {
        Some(listing) => gather(listing),
        None => {
            let none: Vec<Record> = Vec::new();
            assert(lists(none@, Map::empty()));
            none
        },
    };
    let ghost given = all@;
    let mut out: Vec<Record> = Vec::new();
    let ghost mut done: Known = Map::empty();
    assert(lists(out@, done));
    for record in it: all
        invariant
            it.seq() == given,
            lists(given, known),
            asked == wanted(known, session_view, key_view),
            session_view == (match session {
                Some(session) => Some(session@),
                None => None,
            }),
            key_view == (match key {
                Some(key) => Some(key@),
                None => None,
            }),
            lists(out@, done),
            forall|id: Seq<char>| #[trigger]
                done.dom().contains(id) ==> asked.dom().contains(id) && done[id] == asked[id],
            forall|id: Seq<char>, k: int|
                done.dom().contains(id) && it.index() <= k < given.len() ==> #[trigger] precedes(
                    id,
                    given[k].session_id@,
                ),
            forall|j: int|
                0 <= j < it.index() && asked.dom().contains((#[trigger] given[j]).session_id@)
                    ==> done.dom().contains(given[j].session_id@),
    {
        let ghost at = it.index() as int;
        let ghost id = record.session_id@;
        assert(given[at] == record);
        assert(known.dom().contains(given[at].session_id@));
        let is_session = match session {
            Some(session) => same(record.session_id.as_str(), session),
            None => true,
        };
        let is_key = match key {
            Some(key) => match &record.snapshot {
                Some(row) => row.is_named(key),
                None => false,
            },
            None => true,
        };
        if is_session && is_key {
            let ghost before = record@;
            let tidied = put_in_order(record);
            proof {
                assert(asked.dom().contains(id) && asked[id] == tidy(before));
                assert forall|other: Seq<char>| #[trigger] done.dom().contains(other) implies precedes(
                    other,
                    tidied.session_id@,
                ) by {
                    assert(precedes(other, given[at].session_id@));
                }
                lemma_lists_push(out@, tidied, done);
                done = done.insert(id, tidied@);
                assert forall|other: Seq<char>, k: int|
                    done.dom().contains(other) && at + 1 <= k < given.len() implies #[trigger] precedes(
                    other,
                    given[k].session_id@,
                ) by {
                    if other == id {
                        assert(precedes(given[at].session_id@, given[k].session_id@));
                    }
                }
            }
            out.push(tidied);
        }
    }
    proof {
        assert forall|id: Seq<char>| #[trigger] asked.dom().contains(id) implies done.dom().contains(
            id,
        ) by {
            assert(known.dom().contains(id));
            let j = choose|j: int| 0 <= j < given.len() && (#[trigger] given[j]).session_id@ == id;
            assert(asked.dom().contains(given[j].session_id@));
        }
        assert(done =~= asked);
        lemma_shown_under_their_ids(listing);
        lemma_listed_records_are_asked_for(out@, listing, session_view, key_view);
    }
    out
}

proof fn lemma_rows_under_their_ids(rows: Seq<Row>, id: Seq<char>)
    requires
        from_rows(rows).dom().contains(id),
    ensures
        from_rows(rows)[id].session_id == id,
    decreases rows.len(),
{
    if rows.len() > 0 && rows.last()@.session_id != id {
        lemma_rows_under_their_ids(rows.drop_last(), id);
    }
}

proof fn lemma_files_under_their_ids(
    rows: Seq<Row>,
    files: Seq<StoreFile>,
    now: u64,
    id: Seq<char>,
)
    requires
        with_files(from_rows(rows), files, now).dom().contains(id),
    ensures
        with_files(from_rows(rows), files, now)[id].session_id == id,
    decreases files.len(),
{
    if files.len() == 0 {
        lemma_rows_under_their_ids(rows, id);
    } else {
        let front = files.drop_last();
        if with_files(from_rows(rows), front, now).dom().contains(id) {
            lemma_files_under_their_ids(rows, front, now, id);
        }
    }
}

/// What is known of a session is known under its id.
pub(crate) proof fn lemma_shown_under_their_ids(listing: Option<Listing>)
    ensures
        forall|id: Seq<char>| #[trigger]
            shown(listing).dom().contains(id) ==> shown(listing)[id].session_id == id,
{
    assert forall|id: Seq<char>| #[trigger] shown(listing).dom().contains(id) implies shown(
        listing,
    )[id].session_id == id by {
        let listing = listing->0;
        lemma_files_under_their_ids(listing.rows@, listing.files@, time_in(listing), id);
    }
}

/// A list of the records that are asked for holds those that meet each
/// condition that is set, and no others.
pub(crate) proof fn lemma_listed_records_are_asked_for(
    records: Seq<Record>,
    listing: Option<Listing>,
    session: Option<Seq<char>>,
    key: Option<Seq<char>>,
)
    requires
        lists(records, wanted(shown(listing), session, key)),
    ensures
        session matches Some(session) ==> forall|i: int|
            0 <= i < records.len() ==> (#[trigger] records[i]).session_id@ == session,
        key matches Some(key) ==> forall|i: int|
            0 <= i < records.len() ==> ((#[trigger] records[i]).snapshot matches Some(row)
                && row@.amtr_key == Some(key)),
        forall|id: Seq<char>| #[trigger]
            shown(listing).dom().contains(id) && (session matches Some(session) ==> id == session)
                && (key matches Some(key) ==> (shown(listing)[id].snapshot matches Some(row)
                && row.amtr_key == Some(key))) ==> exists|i: int|
                0 <= i < records.len() && (#[trigger] records[i]).session_id@ == id,
{
    let known = shown(listing);
    let asked = wanted(known, session, key);
    lemma_shown_under_their_ids(listing);
    assert forall|i: int| 0 <= i < records.len() implies {
        let id = (#[trigger] records[i]).session_id@;
        known.dom().contains(id) && is_wanted(known[id], session, key) && records[i]@ == tidy(
            known[id],
        )
    } by {
        assert(asked.dom().contains(records[i].session_id@));
    }
    assert forall|id: Seq<char>| #[trigger]
        known.dom().contains(id) && (session matches Some(session) ==> id == session) && (
        key matches Some(key) ==> (known[id].snapshot matches Some(row) && row.amtr_key == Some(
            key,
        ))) implies exists|i: int|
        0 <= i < records.len() && (#[trigger] records[i]).session_id@ == id by {
        assert(asked.dom().contains(id));
    }
}

/// The lines of a text, each with `indent` in front and a newline behind.
pub open spec fn indented(indent: Seq<char>, lines: Seq<Seq<char>>) -> Seq<char>
    decreases lines.len(),
{
    if lines.len() == 0 {
        Seq::empty()
    } else {
        indented(indent, lines.drop_last()) + (indent + lines.last() + "\n"@)
    }
}

/// A text, line by line, with `indent` in front of each line.
pub open spec fn block(indent: Seq<char>, value: Seq<char>) -> Seq<char> {
    indented(indent, split(value, '\n'))
}

/// Writes a text line by line, with `indent` in front of each line.
pub fn write_block(output: &mut String, indent: &str, value: &str)
    ensures
        final(output)@ == old(output)@ + block(indent@, value@),
{
    let lines = split_at_each(value, '\n');
    let ghost all = split(value@, '\n');
    let ghost start = output@;
    let mut i: usize = 0;
    assert(all.take(0) =~= Seq::empty());
    assert(start + Seq::<char>::empty() =~= start);
    while i < lines.len()
        invariant
            i <= lines.len(),
            views(lines@) == all,
            output@ == start + indented(indent@, all.take(i as int)),
        decreases lines.len() - i,
    {
        assert(all.take(i + 1).drop_last() =~= all.take(i as int));
        assert(all[i as int] == lines@[i as int]@);
        let ghost before = indented(indent@, all.take(i as int));
        let ghost line = indent@ + all[i as int] + "\n"@;
        output.append(indent);
        output.append(lines[i].as_str());
        output.append("\n");
        assert(output@ =~= start + (before + line));
        i = i + 1;
    }
    assert(all.take(i as int) =~= all);
}

/// A text, or `<none>`.
pub open spec fn or_none(text: Option<Seq<char>>) -> Seq<char> {
    match text {
        Some(text) => text,
        None => "<none>"@,
    }
}

fn text_or_none(text: &Option<String>) -> (out: String)
    ensures
        out@ == or_none(opt_view(*text)),
{
    match text {
        Some(text) => copied(text.as_str()),
        None => copied("<none>"),
    }
}

/// A number, or `<none>`.
pub open spec fn number_or_none(number: Option<int>) -> Seq<char> {
    match number {
        Some(number) => signed_decimal(number),
        None => "<none>"@,
    }
}

/// A number as numbers go.
pub open spec fn unsigned(number: Option<u64>) -> Option<int> {
    match number {
        Some(number) => Some(number as int),
        None => None,
    }
}

/// A number as numbers go.
pub open spec fn signed(number: Option<i64>) -> Option<int> {
    match number {
        Some(number) => Some(number as int),
        None => None,
    }
}

fn optional_number(number: Option<u64>) -> (out: String)
    ensures
        out@ == number_or_none(unsigned(number)),
{
    match number {
        Some(number) => decimal_of(number),
        None => copied("<none>"),
    }
}

fn optional_signed_number(number: Option<i64>) -> (out: String)
    ensures
        out@ == number_or_none(signed(number)),
{
    match number {
        Some(number) => signed_decimal_of(number),
        None => copied("<none>"),
    }
}

/// What people read of a snapshot.
pub open spec fn snapshot_text(snapshot: Option<RowView>) -> Seq<char> {
    match snapshot {
        Some(row) => "  Snapshot:\n    Session ID: "@ + row.session_id + "\n    AMTR key: "@
            + or_none(row.amtr_key) + "\n    Compacted at: "@ + row.compacted_at
            + "\n    Handoff:\n"@ + block("      "@, row.handoff),
        None => "  Snapshot: <none>\n"@,
    }
}

/// What people read of a claim.
pub open spec fn claim_text(claim: ClaimView) -> Seq<char> {
    "      - File: "@ + claim.file + "\n        Operation: "@ + claim.operation + (match claim.state {
        Some(state) => "\n        State:\n"@ + block("          "@, state),
        None => "\n        State: <unreadable>\n"@,
    })
}

/// What people read of claims, one after another.
pub open spec fn claims_text(claims: Seq<ClaimView>) -> Seq<char>
    decreases claims.len(),
{
    if claims.len() == 0 {
        Seq::empty()
    } else {
        claims_text(claims.drop_last()) + claim_text(claims.last())
    }
}

/// What people read of a delivery.
pub open spec fn delivery_text(delivery: DeliveryView) -> Seq<char> {
    "  Delivery:\n    Marker: "@ + or_none(delivery.marker) + "\n    Deadline epoch seconds: "@
        + number_or_none(unsigned(delivery.deadline_epoch_seconds))
        + "\n    Deadline remaining seconds: "@ + number_or_none(
        signed(delivery.deadline_remaining_seconds),
    ) + (if delivery.claims.len() == 0 {
        "\n    Claims: <none>\n"@
    } else {
        "\n    Claims:\n"@ + claims_text(delivery.claims)
    })
}

/// What people read of a session.
pub open spec fn record_text(record: RecordView) -> Seq<char> {
    "Session: "@ + record.session_id + "\n"@ + snapshot_text(record.snapshot) + delivery_text(
        record.delivery,
    )
}

/// `text` without the newlines at its end.
pub open spec fn without_end_lines(text: Seq<char>) -> Seq<char>
    decreases text.len(),
{
    if text.len() > 0 && text.last() == '\n' {
        without_end_lines(text.drop_last())
    } else {
        text
    }
}

/// What people read of all sessions.
pub open spec fn human(records: Seq<RecordView>) -> Seq<char> {
    if records.len() == 0 {
        "No matching snapshots or delivery state."@
    } else {
        without_end_lines(
            join(records.map_values(|record: RecordView| record_text(record)), "\n"@),
        )
    }
}

/// A string in JSON, or `null`.
pub open spec fn quoted_or_null(text: Option<Seq<char>>) -> Seq<char> {
    match text {
        Some(text) => quoted(text),
        None => "null"@,
    }
}

/// A number in JSON, or `null`.
pub open spec fn number_or_null(number: Option<int>) -> Seq<char> {
    match number {
        Some(number) => signed_decimal(number),
        None => "null"@,
    }
}

/// A snapshot in JSON, or `null`.
pub open spec fn snapshot_json(snapshot: Option<RowView>) -> Seq<char> {
    match snapshot {
        Some(row) => "{\"session_id\":"@ + quoted(row.session_id) + ",\"amtr_key\":"@
            + quoted_or_null(row.amtr_key) + ",\"handoff\":"@ + quoted(row.handoff)
            + ",\"compacted_at\":"@ + quoted(row.compacted_at) + "}"@,
        None => "null"@,
    }
}

/// A claim in JSON.
pub open spec fn claim_json(claim: ClaimView) -> Seq<char> {
    "{\"file\":"@ + quoted(claim.file) + ",\"operation\":"@ + quoted(claim.operation)
        + ",\"state\":"@ + quoted_or_null(claim.state) + "}"@
}

/// A record in JSON.
pub open spec fn record_json(record: RecordView) -> Seq<char> {
    "{\"session_id\":"@ + quoted(record.session_id) + ",\"snapshot\":"@ + snapshot_json(
        record.snapshot,
    ) + ",\"delivery\":{\"marker\":"@ + quoted_or_null(record.delivery.marker)
        + ",\"deadline_epoch_seconds\":"@ + number_or_null(
        unsigned(record.delivery.deadline_epoch_seconds),
    ) + ",\"deadline_remaining_seconds\":"@ + number_or_null(
        signed(record.delivery.deadline_remaining_seconds),
    ) + ",\"claims\":["@ + join(
        record.delivery.claims.map_values(|claim: ClaimView| claim_json(claim)),
        ","@,
    ) + "]}}"@
}

/// Records in JSON.
pub open spec fn machine(records: Seq<RecordView>) -> Seq<char> {
    "["@ + join(records.map_values(|record: RecordView| record_json(record)), ","@) + "]"@
}

/// What `records` hold.
pub open spec fn record_views(records: Seq<Record>) -> Seq<RecordView> {
    records.map_values(|record: Record| record@)
}

fn write_snapshot(output: &mut String, snapshot: &Option<Row>)
    ensures
        final(output)@ == old(output)@ + snapshot_text(
            match snapshot {
                Some(row) => Some(row@),
                None => None,
            },
        ),
{
    let ghost start = output@;
    match snapshot {
        Some(row) => {
            let mut text = copied("  Snapshot:\n    Session ID: ");
            text.append(row.session_id.as_str());
            text.append("\n    AMTR key: ");
            text.append(text_or_none(&row.amtr_key).as_str());
            text.append("\n    Compacted at: ");
            text.append(row.compacted_at.as_str());
            text.append("\n    Handoff:\n");
            write_block(&mut text, "      ", row.handoff.as_str());
            output.append(text.as_str());
        },
        None => {
            output.append("  Snapshot: <none>\n");
        },
    }
}

fn write_claim(output: &mut String, claim: &Claim)
    ensures
        final(output)@ == old(output)@ + claim_text(claim@),
{
    let mut text = copied("      - File: ");
    text.append(claim.file.as_str());
    text.append("\n        Operation: ");
    text.append(claim.operation.as_str());
    let mut last: String = String::new();
    match &claim.state {
        Some(state) => {
            last.append("\n        State:\n");
            write_block(&mut last, "          ", state.as_str());
            assert(last@ =~= "\n        State:\n"@ + block("          "@, state@));
        },
        None => {
            last.append("\n        State: <unreadable>\n");
            assert(last@ =~= "\n        State: <unreadable>\n"@);
        },
    }
    text.append(last.as_str());
    output.append(text.as_str());
}

fn write_delivery(output: &mut String, delivery: &Delivery)
    ensures
        final(output)@ == old(output)@ + delivery_text(delivery@),
{
    let mut text = copied("  Delivery:\n    Marker: ");
    text.append(text_or_none(&delivery.marker).as_str());
    text.append("\n    Deadline epoch seconds: ");
    text.append(optional_number(delivery.deadline_epoch_seconds).as_str());
    text.append("\n    Deadline remaining seconds: ");
    text.append(optional_signed_number(delivery.deadline_remaining_seconds).as_str());
    if delivery.claims.len() == 0 {
        text.append("\n    Claims: <none>\n");
    } else {
        let ghost all = claim_views(delivery.claims@);
        let mut listed: String = String::new();
        let mut i: usize = 0;
        assert(all.take(0) =~= Seq::empty());
        assert(listed@ =~= Seq::empty());
        while i < delivery.claims.len()
            invariant
                i <= delivery.claims.len(),
                all == claim_views(delivery.claims@),
                listed@ == claims_text(all.take(i as int)),
            decreases delivery.claims.len() - i,
        {
            assert(all.take(i + 1).drop_last() =~= all.take(i as int));
            assert(all[i as int] == delivery.claims@[i as int]@);
            write_claim(&mut listed, &delivery.claims[i]);
            i = i + 1;
        }
        assert(all.take(i as int) =~= all);
        let mut last = copied("\n    Claims:\n");
        last.append(listed.as_str());
        text.append(last.as_str());
    }
    output.append(text.as_str());
}

fn write_record(record: &Record) -> (text: String)
    ensures
        text@ == record_text(record@),
{
    let mut text = copied("Session: ");
    text.append(record.session_id.as_str());
    text.append("\n");
    write_snapshot(&mut text, &record.snapshot);
    write_delivery(&mut text, &record.delivery);
    text
}

fn drop_end_lines(text: String) -> (out: String)
    ensures
        out@ == without_end_lines(text@),
{
    let mut chars = chars_of(text.as_str());
    while chars.len() > 0 && chars[chars.len() - 1] == '\n'
        invariant
            without_end_lines(text@) == without_end_lines(chars@),
        decreases chars.len(),
    {
        let ghost before = chars@;
        chars.pop();
        assert(chars@ =~= before.drop_last());
    }
    text_of(chars.as_slice())
}

fn quote_or_null(text: &Option<String>) -> (out: String)
    ensures
        out@ == quoted_or_null(opt_view(*text)),
{
    match text {
        Some(text) => quote(text.as_str()),
        None => copied("null"),
    }
}

fn claim_to_json(claim: &Claim) -> (text: String)
    ensures
        text@ == claim_json(claim@),
{
    let mut text = copied("{\"file\":");
    text.append(quote(claim.file.as_str()).as_str());
    text.append(",\"operation\":");
    text.append(quote(claim.operation.as_str()).as_str());
    text.append(",\"state\":");
    text.append(quote_or_null(&claim.state).as_str());
    text.append("}");
    text
}

fn snapshot_to_json(snapshot: &Option<Row>) -> (text: String)
    ensures
        text@ == snapshot_json(
            match snapshot {
                Some(row) => Some(row@),
                None => None,
            },
        ),
{
    match snapshot {
        Some(row) => {
            let mut text = copied("{\"session_id\":");
            text.append(quote(row.session_id.as_str()).as_str());
            text.append(",\"amtr_key\":");
            text.append(quote_or_null(&row.amtr_key).as_str());
            text.append(",\"handoff\":");
            text.append(quote(row.handoff.as_str()).as_str());
            text.append(",\"compacted_at\":");
            text.append(quote(row.compacted_at.as_str()).as_str());
            text.append("}");
            text
        },
        None => copied("null"),
    }
}

fn claims_to_json(claims: &Vec<Claim>) -> (text: String)
    ensures
        text@ == join(
            claim_views(claims@).map_values(|claim: ClaimView| claim_json(claim)),
            ","@,
        ),
{
    let ghost parts = claim_views(claims@).map_values(|claim: ClaimView| claim_json(claim));
    let mut text: String = String::new();
    let mut i: usize = 0;
    assert(parts.take(0) =~= Seq::empty());
    assert(text@ =~= Seq::empty());
    while i < claims.len()
        invariant
            i <= claims.len(),
            parts == claim_views(claims@).map_values(|claim: ClaimView| claim_json(claim)),
            text@ == join(parts.take(i as int), ","@),
        decreases claims.len() - i,
    {
        assert(parts.take(i + 1).drop_last() =~= parts.take(i as int));
        assert(parts[i as int] == claim_json(claims@[i as int]@));
        if i > 0 {
            text.append(",");
        }
        text.append(claim_to_json(&claims[i]).as_str());
        assert(i == 0 ==> text@ =~= parts[0]);
        i = i + 1;
    }
    assert(parts.take(i as int) =~= parts);
    text
}

fn record_to_json(record: &Record) -> (text: String)
    ensures
        text@ == record_json(record@),
{
    let mut text = copied("{\"session_id\":");
    text.append(quote(record.session_id.as_str()).as_str());
    text.append(",\"snapshot\":");
    text.append(snapshot_to_json(&record.snapshot).as_str());
    text.append(",\"delivery\":{\"marker\":");
    text.append(quote_or_null(&record.delivery.marker).as_str());
    text.append(",\"deadline_epoch_seconds\":");
    match record.delivery.deadline_epoch_seconds {
        Some(number) => text.append(decimal_of(number).as_str()),
        None => text.append("null"),
    }
    text.append(",\"deadline_remaining_seconds\":");
    match record.delivery.deadline_remaining_seconds {
        Some(number) => text.append(signed_decimal_of(number).as_str()),
        None => text.append("null"),
    }
    text.append(",\"claims\":[");
    text.append(claims_to_json(&record.delivery.claims).as_str());
    text.append("]}}");
    text
}

/// Writes the records out: for people, or as JSON for programs. There is no
/// error to report.
pub fn render(records: &[Record], json: bool) -> (output: Result<String, Fault>)
    ensures
        output matches Ok(text) && text@ == (if json {
            machine(record_views(records@))
        } else {
            human(record_views(records@))
        }),
{
    let ghost all = record_views(records@);
    if records.len() == 0 && !json {
        return Ok(copied("No matching snapshots or delivery state."));
    }
    let ghost parts = if json {
        all.map_values(|record: RecordView| record_json(record))
    } else {
        all.map_values(|record: RecordView| record_text(record))
    };
    let between = if json {
        ","
    } else {
        "\n"
    };
    let mut text: String = String::new();
    let mut i: usize = 0;
    assert(parts.take(0) =~= Seq::empty());
    assert(text@ =~= Seq::empty());
    while i < records.len()
        invariant
            i <= records.len(),
            all == record_views(records@),
            parts == (if json {
                all.map_values(|record: RecordView| record_json(record))
            } else {
                all.map_values(|record: RecordView| record_text(record))
            }),
            text@ == join(parts.take(i as int), between@),
        decreases records.len() - i,
    {
        assert(parts.take(i + 1).drop_last() =~= parts.take(i as int));
        assert(all[i as int] == records@[i as int]@);
        if i > 0 {
            text.append(between);
        }
        let part = if json {
            record_to_json(&records[i])
        } else {
            write_record(&records[i])
        };
        assert(parts[i as int] == part@);
        text.append(part.as_str());
        assert(i == 0 ==> text@ =~= parts[0]);
        i = i + 1;
    }
    assert(parts.take(i as int) =~= parts);
    if json {
        let mut output = copied("[");
        output.append(text.as_str());
        output.append("]");
        Ok(output)
    } else {
        Ok(drop_end_lines(text))
    }
}

/// Whether an id reads as if `part` had begun in it, so that a name that begins
/// with the id cannot be split at `part` behind it.
pub open spec fn reads_like(session: Seq<char>, part: Seq<char>) -> bool {
    contains(session + "."@, part)
}

/// Whether behind every dot of `rest` but the first stands another character
/// than `c`.
spec fn follows_only_first(rest: Seq<char>, c: char) -> bool {
    forall|i: int| 0 < i < rest.len() - 1 && #[trigger] rest[i] == '.' ==> rest[i + 1] != c
}

/// Whether `part`, from its dot at `k` on, is not how `rest` begins: at `j` they
/// differ.
spec fn differs_at(part: Seq<char>, k: int, rest: Seq<char>, j: int) -> bool {
    0 <= j < rest.len() && k + j < part.len() && part[k + j] != rest[j]
}

proof fn lemma_position_behind(session: Seq<char>, rest: Seq<char>, part: Seq<char>, k: int, j: int)
    requires
        !reads_like(session, part),
        rest.len() > 0,
        rest[0] == '.',
        follows_only_first(rest, part[1]),
        part.len() >= 2,
        part[0] == '.',
        0 < k < part.len(),
        forall|i: int| 0 < i < part.len() - 1 && #[trigger] part[i] == '.' ==> i == k,
        differs_at(part, k, rest, j),
    ensures
        position(session + rest, part) == (if begins_with(rest, part) {
            Some(session.len() as int)
        } else {
            None::<int>
        }),
{
    reveal_strlit(".");
    let name = session + rest;
    let n = session.len() as int;
    assert forall|at: int| at != n implies !#[trigger] occurs_at(name, part, at) by {
        if occurs_at(name, part, at) {
            let found = name.subrange(at, at + part.len());
            assert(found =~= part);
            if at > n {
                assert(found[0] == rest[at - n]);
                assert(found[1] == rest[at - n + 1]);
            } else if at + part.len() <= n + 1 {
                let ended = session + "."@;
                assert(ended.subrange(at, at + part.len()) =~= found);
                assert(occurs_at(ended, part, at));
            } else {
                let i = n - at;
                assert(found[i] == rest[0]);
                assert(part[i] == '.');
                assert(i == k);
                assert(found[k + j] == rest[j]);
            }
        }
    }
    if begins_with(rest, part) {
        assert(name.subrange(n, n + part.len()) =~= rest.subrange(0, part.len() as int));
        assert(first_at(name, part, n));
        first_position(name, part, n);
    } else if occurs_at(name, part, n) {
        assert(name.subrange(n, n + part.len()) =~= rest.subrange(0, part.len() as int));
    }
}

proof fn lemma_claim_tail(pid: u32, sequence: u64)
    ensures
        ({
            let tail = decimal(pid as nat) + "."@ + decimal(sequence as nat);
            &&& tail.len() >= 3
            &&& is_decimal(tail[0])
            &&& is_decimal(tail.last())
            &&& forall|i: int|
                0 <= i < tail.len() ==> is_decimal(#[trigger] tail[i]) || (tail[i] == '.' && i + 1
                    < tail.len() && is_decimal(tail[i + 1]))
        }),
{
    reveal_strlit(".");
    let first = decimal(pid as nat);
    let second = decimal(sequence as nat);
    let tail = first + "."@ + second;
    numeral_reads_back(pid as nat, 10);
    numeral_reads_back(sequence as nat, 10);
    numeral_holds_digits(pid as nat, 10, 0);
    numeral_holds_digits(sequence as nat, 10, 0);
    numeral_holds_digits(sequence as nat, 10, second.len() - 1);
    assert(tail[0] == first[0]);
    assert(tail.last() == second[second.len() - 1]);
    assert forall|i: int| 0 <= i < tail.len() implies is_decimal(#[trigger] tail[i]) || (tail[i]
        == '.' && i + 1 < tail.len() && is_decimal(tail[i + 1])) by {
        if i < first.len() {
            numeral_holds_digits(pid as nat, 10, i);
            assert(tail[i] == first[i]);
        } else if i > first.len() {
            numeral_holds_digits(sequence as nat, 10, i - first.len() - 1);
            assert(tail[i] == second[i - first.len() - 1]);
        } else {
            assert(tail[i + 1] == second[0]);
        }
    }
}

proof fn lemma_not_at_end(name: Seq<char>, suffix: Seq<char>)
    requires
        name.len() > 0,
        suffix.len() > 0,
        name.last() != suffix.last(),
    ensures
        !ends_with(name, suffix),
{
    if ends_with(name, suffix) {
        let at = name.len() - suffix.len();
        assert(name.subrange(at, at + suffix.len())[suffix.len() - 1] == name.last());
    }
}

/// A claim file is known by its name: it is shown as a claim of its session,
/// for what it was made for. This leaves out ids that read like such a claim
/// themselves, which could not be told from one.
pub proof fn delivering_claims_are_known_by_name(session: Seq<char>, pid: u32, sequence: u64)
    requires
        !reads_like(session, ".marker.delivering."@),
    ensures
        classified(claim_path(session + ".marker"@, Operation::Delivering, pid, sequence)) == Some(
            (session, KindView::Claim("delivering"@)),
        ),
{
    lemma_claim_tail(pid, sequence);
    let n = session.len() as int;
    let tail = decimal(pid as nat) + "."@ + decimal(sequence as nat);
    let name = claim_path(session + ".marker"@, Operation::Delivering, pid, sequence);
    reveal_strlit(".marker.delivering.");
    let rest = ".marker.delivering."@ + tail;
    assert(name =~= session + rest) by {
        reveal_strlit(".");
        reveal_strlit(".marker");
        reveal_strlit("delivering");
        assert(".marker.delivering."@ =~= ".marker"@ + "."@ + "delivering"@ + "."@);
    }
    lemma_claim_ends(name, tail);
    lemma_dots(".marker.delivering."@, tail, 'm');
    lemma_position_behind(session, rest, ".marker.delivering."@, 7, 1);
    assert(rest.subrange(0, 19) =~= ".marker.delivering."@);
    assert(name.take(n) =~= session);
}

/// A claim file is known by its name: it is shown as a claim of its session,
/// for what it was made for. This leaves out ids that read like such a claim
/// themselves, which could not be told from one.
pub proof fn expiring_claims_are_known_by_name(session: Seq<char>, pid: u32, sequence: u64)
    requires
        !reads_like(session, ".marker.delivering."@),
        !reads_like(session, ".marker.expiring."@),
    ensures
        classified(claim_path(session + ".marker"@, Operation::Expiring, pid, sequence)) == Some(
            (session, KindView::Claim("expiring"@)),
        ),
{
    lemma_claim_tail(pid, sequence);
    let n = session.len() as int;
    let tail = decimal(pid as nat) + "."@ + decimal(sequence as nat);
    let name = claim_path(session + ".marker"@, Operation::Expiring, pid, sequence);
    reveal_strlit(".marker.delivering.");
    reveal_strlit(".marker.expiring.");
    let rest = ".marker.expiring."@ + tail;
    assert(name =~= session + rest) by {
        reveal_strlit(".");
        reveal_strlit(".marker");
        reveal_strlit("expiring");
        assert(".marker.expiring."@ =~= ".marker"@ + "."@ + "expiring"@ + "."@);
    }
    lemma_claim_ends(name, tail);
    lemma_dots(".marker.expiring."@, tail, 'm');
    lemma_position_behind(session, rest, ".marker.delivering."@, 7, 1);
    lemma_position_behind(session, rest, ".marker.expiring."@, 7, 1);
    assert(rest.subrange(0, 17) =~= ".marker.expiring."@);
    if begins_with(rest, ".marker.delivering."@) {
        assert(rest.subrange(0, 19)[8] == rest[8]);
        assert(rest[8] == ".marker.expiring."@[8]);
    }
    assert(name.take(n) =~= session);
}

/// A candidate for a deadline is known by its name: it is shown as a claim of
/// its session, for what it was made for. This leaves out ids that read like a
/// claim themselves, which could not be told from one.
pub proof fn publishing_claims_are_known_by_name(session: Seq<char>, pid: u32, sequence: u64)
    requires
        !reads_like(session, ".marker.delivering."@),
        !reads_like(session, ".marker.expiring."@),
        !reads_like(session, ".deliver-deadline.publishing."@),
    ensures
        classified(
            claim_path(session + ".deliver-deadline"@, Operation::Publishing, pid, sequence),
        ) == Some((session, KindView::Claim("publishing"@))),
{
    lemma_claim_tail(pid, sequence);
    let n = session.len() as int;
    let tail = decimal(pid as nat) + "."@ + decimal(sequence as nat);
    let name = claim_path(session + ".deliver-deadline"@, Operation::Publishing, pid, sequence);
    reveal_strlit(".marker.delivering.");
    reveal_strlit(".marker.expiring.");
    reveal_strlit(".deliver-deadline.publishing.");
    let rest = ".deliver-deadline.publishing."@ + tail;
    assert(name =~= session + rest) by {
        reveal_strlit(".");
        reveal_strlit(".deliver-deadline");
        reveal_strlit("publishing");
        assert(".deliver-deadline.publishing."@ =~= ".deliver-deadline"@ + "."@ + "publishing"@
            + "."@);
    }
    lemma_claim_ends(name, tail);
    lemma_dots(".deliver-deadline.publishing."@, tail, 'm');
    lemma_dots(".deliver-deadline.publishing."@, tail, 'd');
    lemma_position_behind(session, rest, ".marker.delivering."@, 7, 8);
    lemma_position_behind(session, rest, ".marker.expiring."@, 7, 1);
    lemma_position_behind(session, rest, ".deliver-deadline.publishing."@, 17, 1);
    assert(rest.subrange(0, 29) =~= ".deliver-deadline.publishing."@);
    assert(rest[1] == ".deliver-deadline.publishing."@[1]);
    if begins_with(rest, ".marker.delivering."@) {
        assert(rest.subrange(0, 19)[1] == rest[1]);
    }
    if begins_with(rest, ".marker.expiring."@) {
        assert(rest.subrange(0, 17)[1] == rest[1]);
    }
    assert(name.take(n) =~= session);
}

proof fn lemma_claim_ends(name: Seq<char>, tail: Seq<char>)
    requires
        tail.len() > 0,
        is_decimal(tail.last()),
        name.len() > 0,
        name.last() == tail.last(),
    ensures
        !ends_with(name, ".marker"@),
        !ends_with(name, ".deliver-deadline"@),
{
    reveal_strlit(".marker");
    reveal_strlit(".deliver-deadline");
    lemma_not_at_end(name, ".marker"@);
    lemma_not_at_end(name, ".deliver-deadline"@);
}

proof fn lemma_dots(word: Seq<char>, tail: Seq<char>, c: char)
    requires
        tail.len() > 0,
        is_decimal(tail[0]),
        forall|i: int|
            0 <= i < tail.len() ==> is_decimal(#[trigger] tail[i]) || (tail[i] == '.' && i + 1
                < tail.len() && is_decimal(tail[i + 1])),
        !is_decimal(c),
        forall|i: int|
            0 < i < word.len() - 1 && #[trigger] word[i] == '.' ==> word[i + 1] != c,
    ensures
        follows_only_first(word + tail, c),
{
    let rest = word + tail;
    let m = word.len() as int;
    assert forall|i: int| 0 < i < rest.len() - 1 && #[trigger] rest[i] == '.' implies rest[i + 1]
        != c by {
        if i < m - 1 {
            assert(rest[i] == word[i]);
            assert(rest[i + 1] == word[i + 1]);
        } else if i == m - 1 {
            assert(rest[i + 1] == tail[0]);
        } else {
            assert(rest[i] == tail[i - m]);
            assert(rest[i + 1] == tail[i - m + 1]);
        }
    }
}

/// The marker and the deadline of a session are known by their names.
pub proof fn markers_are_known_by_name(session: Seq<char>)
    ensures
        classified(session + ".marker"@) == Some((session, KindView::Marker)),
        classified(session + ".deliver-deadline"@) == Some((session, KindView::Deadline)),
{
    reveal_strlit(".marker");
    reveal_strlit(".deliver-deadline");
    let n = session.len() as int;
    let marker = session + ".marker"@;
    assert(marker.subrange(n, n + 7) =~= ".marker"@);
    assert(marker.take(n) =~= session);
    let deadline = session + ".deliver-deadline"@;
    assert(deadline.subrange(n, n + 17) =~= ".deliver-deadline"@);
    assert(deadline.take(n) =~= session);
    lemma_not_at_end(deadline, ".marker"@);
}

/// A row is neither a marker nor a deadline nor a claim. This leaves out ids
/// that read like a claim themselves.
pub proof fn rows_are_no_delivery_state(session: Seq<char>)
    requires
        !reads_like(session, ".marker.delivering."@),
        !reads_like(session, ".marker.expiring."@),
        !reads_like(session, ".deliver-deadline.publishing."@),
    ensures
        classified(session + ".json"@) is None,
{
    reveal_strlit(".marker");
    reveal_strlit(".deliver-deadline");
    reveal_strlit(".json");
    reveal_strlit(".marker.delivering.");
    reveal_strlit(".marker.expiring.");
    reveal_strlit(".deliver-deadline.publishing.");
    let row = session + ".json"@;
    lemma_not_at_end(row, ".marker"@);
    lemma_not_at_end(row, ".deliver-deadline"@);
    lemma_position_behind(session, ".json"@, ".marker.delivering."@, 7, 1);
    lemma_position_behind(session, ".json"@, ".marker.expiring."@, 7, 1);
    lemma_position_behind(session, ".json"@, ".deliver-deadline.publishing."@, 17, 1);
}

} // verus!
