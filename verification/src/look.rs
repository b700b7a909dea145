//! How a store is looked at: which of its files are read, and that nothing is
//! done to any of them.

use vstd::prelude::*;

use crate::disk::{BodyView, Content, Disk, at};
use crate::peek::{
    Known, Listing, Record, StoreFile, classified, classify, from_rows, lists, record_views, shown,
    time_in, wanted, with_files,
};
use crate::store::{
    Row, RowView, Store, cortex_in, is_row_file, is_row_name, joined, path_join, row_views,
};
use crate::store_laws::rows_are_known_by_their_extension;
use crate::text::{
    copied, ends_with, opt_view, precedes, precedes_is_irreflexive, precedes_is_transitive, views,
};

verus! {

/// One thing to do to see what is stored.
pub enum Look {
    /// List the directory.
    List(String),
    /// Read the file as a row.
    Row { name: String, path: String },
    /// Read the file as text.
    Text { name: String, path: String },
}

/// One thing to do, as contracts speak of it.
pub enum LookView {
    List(Seq<char>),
    Row { name: Seq<char>, path: Seq<char> },
    Text { name: Seq<char>, path: Seq<char> },
}

impl View for Look {
    type V = LookView;

    open spec fn view(&self) -> LookView {
        match self {
            Look::List(path) => LookView::List(path@),
            Look::Row { name, path } => LookView::Row { name: name@, path: path@ },
            Look::Text { name, path } => LookView::Text { name: name@, path: path@ },
        }
    }
}

/// What `looks` say.
pub open spec fn look_views(looks: Seq<Look>) -> Seq<LookView> {
    looks.map_values(|look: Look| look@)
}

/// The first look at a store lists its rows and markers. Where there is no store
/// nothing is looked at.
pub open spec fn first_looks(base: Option<Seq<char>>) -> Seq<LookView> {
    match base {
        Some(base) => seq![LookView::List(cortex_in(base))],
        None => Seq::empty(),
    }
}

/// How the file `name` is looked at.
pub open spec fn looks_at_file(cortex: Seq<char>, name: Seq<char>) -> Seq<LookView> {
    let path = joined(cortex, name);
    let as_row = if is_row_name(name) {
        seq![LookView::Row { name, path }]
    } else {
        Seq::empty()
    };
    if classified(name) is Some {
        as_row.push(LookView::Text { name, path })
    } else {
        as_row
    }
}

/// How the files `names` are looked at.
pub open spec fn looks_at_files(cortex: Seq<char>, names: Seq<Seq<char>>) -> Seq<LookView>
    decreases names.len(),
{
    if names.len() == 0 {
        Seq::empty()
    } else {
        looks_at_files(cortex, names.drop_last()) + looks_at_file(cortex, names.last())
    }
}

/// The first thing to do to see what is stored.
pub fn begin(store: Option<&Store>) -> (looks: Vec<Look>)
    ensures
        look_views(looks@) == first_looks(
            match store {
                Some(store) => Some(store@),
                None => None,
            },
        ),
{
    let mut looks: Vec<Look> = Vec::new();
    assert(look_views(looks@) =~= Seq::empty());
    if let Some(store) = store {
        looks.push(Look::List(store.cortex()));
        assert(look_views(looks@) =~= seq![LookView::List(cortex_in(store@))]);
    }
    looks
}

/// What else to do, once the files of the store are known by name: rows are read
/// as rows, and markers, deadlines and claims as text.
pub fn go_on(store: &Store, names: &Vec<String>) -> (looks: Vec<Look>)
    ensures
        look_views(looks@) == looks_at_files(cortex_in(store@), views(names@)),
{
    let cortex = store.cortex();
    let ghost all = views(names@);
    let mut looks: Vec<Look> = Vec::new();
    let mut i: usize = 0;
    assert(all.take(0) =~= Seq::empty());
    assert(look_views(looks@) =~= Seq::empty());
    while i < names.len()
        invariant
            i <= names.len(),
            all == views(names@),
            cortex@ == cortex_in(store@),
            look_views(looks@) == looks_at_files(cortex@, all.take(i as int)),
        decreases names.len() - i,
    {
        let name = names[i].as_str();
        let ghost before = look_views(looks@);
        assert(all.take(i + 1).drop_last() =~= all.take(i as int));
        assert(all[i as int] == name@);
        let path = path_join(cortex.as_str(), name);
        let ghost row = LookView::Row { name: name@, path: path@ };
        let ghost text = LookView::Text { name: name@, path: path@ };
        if is_row_file(name) {
            looks.push(Look::Row { name: copied(name), path: copied(path.as_str()) });
            assert(look_views(looks@) =~= before.push(row));
        }
        let ghost between = look_views(looks@);
        if classify(name).is_some() {
            looks.push(Look::Text { name: copied(name), path });
            assert(look_views(looks@) =~= between.push(text));
        }
        assert(look_views(looks@) =~= before + looks_at_file(cortex@, name@));
        i = i + 1;
    }
    assert(all.take(i as int) =~= all);
    looks
}

/// The files after a look: reading leaves all of them as they are.
pub open spec fn after_look(disk: Disk, look: LookView) -> Disk {
    match look {
        LookView::List(_) => disk,
        LookView::Row { .. } => disk,
        LookView::Text { .. } => disk,
    }
}

/// The files after some looks.
pub open spec fn after_looks(disk: Disk, looks: Seq<LookView>) -> Disk
    decreases looks.len(),
{
    if looks.len() == 0 {
        disk
    } else {
        after_look(after_looks(disk, looks.drop_last()), looks.last())
    }
}

/// The rows among the files `names`.
pub open spec fn rows_on(disk: Disk, cortex: Seq<char>, names: Seq<Seq<char>>) -> Seq<RowView>
    decreases names.len(),
{
    if names.len() == 0 {
        Seq::empty()
    } else {
        let before = rows_on(disk, cortex, names.drop_last());
        match at(disk, joined(cortex, names.last())) {
            Some(Content::Whole(BodyView::Row(row))) if is_row_name(names.last()) => before.push(
                row,
            ),
            _ => before,
        }
    }
}

/// What the file `path` says, unless it cannot be read as text.
pub open spec fn text_on(disk: Disk, path: Seq<char>) -> Option<Seq<char>> {
    match at(disk, path) {
        Some(Content::Whole(BodyView::Text(text))) => Some(text),
        _ => None,
    }
}

/// The markers, deadlines and claims among the files `names`.
pub open spec fn files_on(disk: Disk, cortex: Seq<char>, names: Seq<Seq<char>>) -> Seq<
    (Seq<char>, Option<Seq<char>>),
>
    decreases names.len(),
{
    if names.len() == 0 {
        Seq::empty()
    } else {
        let before = files_on(disk, cortex, names.drop_last());
        if classified(names.last()) is Some {
            before.push((names.last(), text_on(disk, joined(cortex, names.last()))))
        } else {
            before
        }
    }
}

/// What `files` hold.
pub open spec fn file_views(files: Seq<StoreFile>) -> Seq<(Seq<char>, Option<Seq<char>>)> {
    files.map_values(|file: StoreFile| (file.0@, opt_view(file.1)))
}

/// Whether a listing is what a look at the files `names` brings.
pub open spec fn is_listing(
    listing: Listing,
    disk: Disk,
    cortex: Seq<char>,
    names: Seq<Seq<char>>,
) -> bool {
    &&& row_views(listing.rows@) == rows_on(disk, cortex, names)
    &&& file_views(listing.files@) == files_on(disk, cortex, names)
}

proof fn lemma_looks_leave_the_disk(disk: Disk, looks: Seq<LookView>)
    ensures
        after_looks(disk, looks) == disk,
    decreases looks.len(),
{
    if looks.len() > 0 {
        lemma_looks_leave_the_disk(disk, looks.drop_last());
    }
}

proof fn lemma_rows_by_view(a: Seq<Row>, b: Seq<Row>)
    requires
        row_views(a) == row_views(b),
    ensures
        from_rows(a) == from_rows(b),
    decreases a.len(),
{
    assert(a.len() == row_views(a).len() && b.len() == row_views(b).len());
    if a.len() > 0 {
        assert(row_views(a.drop_last()) =~= row_views(a).drop_last());
        assert(row_views(b.drop_last()) =~= row_views(b).drop_last());
        lemma_rows_by_view(a.drop_last(), b.drop_last());
        assert(row_views(a)[a.len() - 1] == a.last()@);
        assert(row_views(b)[b.len() - 1] == b.last()@);
        assert(from_rows(a) =~= from_rows(b));
    }
}

proof fn lemma_files_by_view(known: Known, a: Seq<StoreFile>, b: Seq<StoreFile>, now: u64)
    requires
        file_views(a) == file_views(b),
    ensures
        with_files(known, a, now) == with_files(known, b, now),
    decreases a.len(),
{
    assert(a.len() == file_views(a).len() && b.len() == file_views(b).len());
    if a.len() > 0 {
        assert(file_views(a.drop_last()) =~= file_views(a).drop_last());
        assert(file_views(b.drop_last()) =~= file_views(b).drop_last());
        lemma_files_by_view(known, a.drop_last(), b.drop_last(), now);
        assert(file_views(a)[a.len() - 1] == (a.last().0@, opt_view(a.last().1)));
        assert(file_views(b)[b.len() - 1] == (b.last().0@, opt_view(b.last().1)));
    }
}

proof fn lemma_list_of_fewer(records: Seq<Record>, known: Known)
    requires
        lists(records, known),
        records.len() > 0,
    ensures
        lists(records.drop_last(), known.remove(records.last().session_id@)),
{
    let front = records.drop_last();
    let last = records[records.len() - 1];
    let fewer = known.remove(last.session_id@);
    assert forall|i: int, j: int| 0 <= i < j < front.len() implies precedes(
        (#[trigger] front[i]).session_id@,
        (#[trigger] front[j]).session_id@,
    ) by {
        assert(front[i] == records[i] && front[j] == records[j]);
    }
    assert forall|i: int| 0 <= i < front.len() implies fewer.dom().contains(
        (#[trigger] front[i]).session_id@,
    ) && fewer[front[i].session_id@] == front[i]@ by {
        assert(front[i] == records[i]);
        assert(precedes(records[i].session_id@, last.session_id@));
        precedes_is_irreflexive(last.session_id@);
    }
    assert forall|id: Seq<char>| #[trigger] fewer.dom().contains(id) implies exists|i: int|
        0 <= i < front.len() && (#[trigger] front[i]).session_id@ == id by {
        assert(known.dom().contains(id));
        let i = choose|i: int| 0 <= i < records.len() && (#[trigger] records[i]).session_id@ == id;
        assert(front[i] == records[i]);
    }
}

/// There is one list of what is known.
pub proof fn what_is_known_is_listed_in_one_way(a: Seq<Record>, b: Seq<Record>, known: Known)
    requires
        lists(a, known),
        lists(b, known),
    ensures
        record_views(a) == record_views(b),
    decreases a.len(),
{
    if a.len() == 0 {
        if b.len() > 0 {
            assert(known.dom().contains(b[0].session_id@));
        }
        assert(record_views(a) =~= record_views(b));
    } else {
        let x = a[a.len() - 1].session_id@;
        assert(known.dom().contains(x));
        let j = choose|j: int| 0 <= j < b.len() && (#[trigger] b[j]).session_id@ == x;
        let y = b[b.len() - 1].session_id@;
        assert(known.dom().contains(y));
        let k = choose|k: int| 0 <= k < a.len() && (#[trigger] a[k]).session_id@ == y;
        if j < b.len() - 1 {
            assert(precedes(b[j].session_id@, b[b.len() - 1].session_id@));
            if k < a.len() - 1 {
                assert(precedes(a[k].session_id@, a[a.len() - 1].session_id@));
                precedes_is_transitive(x, y, x);
            }
            precedes_is_irreflexive(x);
        }
        lemma_list_of_fewer(a, known);
        lemma_list_of_fewer(b, known);
        what_is_known_is_listed_in_one_way(a.drop_last(), b.drop_last(), known.remove(x));
        assert(a.last()@ == known[x]);
        assert(b.last()@ == known[x]);
        assert(record_views(a) =~= record_views(a.drop_last()).push(a.last()@));
        assert(record_views(b) =~= record_views(b.drop_last()).push(b.last()@));
    }
}

/// Looking at a store changes no file of it, whatever state it is in. A second
/// look sees the same rows, markers, deadlines and claims: at the same time it
/// shows the same records, whatever is asked for.
pub proof fn looking_changes_nothing(
    disk: Disk,
    base: Seq<char>,
    names: Seq<Seq<char>>,
    first: Listing,
    second: Listing,
    session: Option<Seq<char>>,
    key: Option<Seq<char>>,
    a: Seq<Record>,
    b: Seq<Record>,
)
    requires
        is_listing(first, disk, cortex_in(base), names),
        is_listing(
            second,
            after_looks(disk, first_looks(Some(base)) + looks_at_files(cortex_in(base), names)),
            cortex_in(base),
            names,
        ),
        time_in(first) == time_in(second),
        lists(a, wanted(shown(Some(first)), session, key)),
        lists(b, wanted(shown(Some(second)), session, key)),
    ensures
        after_looks(disk, first_looks(Some(base)) + looks_at_files(cortex_in(base), names)) == disk,
        record_views(a) == record_views(b),
{
    lemma_looks_leave_the_disk(
        disk,
        first_looks(Some(base)) + looks_at_files(cortex_in(base), names),
    );
    lemma_rows_by_view(first.rows@, second.rows@);
    lemma_files_by_view(from_rows(first.rows@), first.files@, second.files@, time_in(first));
    what_is_known_is_listed_in_one_way(a, b, wanted(shown(Some(first)), session, key));
}

/// Where there is no store nothing is looked at and nothing is shown.
pub proof fn no_store_shows_nothing(
    disk: Disk,
    session: Option<Seq<char>>,
    key: Option<Seq<char>>,
    records: Seq<Record>,
)
    requires
        lists(records, wanted(shown(None), session, key)),
    ensures
        first_looks(None) == Seq::<LookView>::empty(),
        after_looks(disk, first_looks(None)) == disk,
        records.len() == 0,
{
    if records.len() > 0 {
        assert(wanted(shown(None), session, key).dom().contains(records[0].session_id@));
    }
}

/// Every file of the store that is a row is read as a row, and every one that is
/// a marker, a deadline or a claim is read as text, each under its own name and
/// path, in the order of the files. Nothing else is read.
pub proof fn every_file_is_looked_at(
    cortex: Seq<char>,
    a: Seq<Seq<char>>,
    b: Seq<Seq<char>>,
    name: Seq<char>,
)
    ensures
        looks_at_files(cortex, a + b) == looks_at_files(cortex, a) + looks_at_files(cortex, b),
        looks_at_files(cortex, Seq::empty()).len() == 0,
        first_looks(Some(name)) == seq![LookView::List(joined(name, "prefrontal-cortex"@))],
        ({
            let looks = looks_at_files(cortex, seq![name]);
            let path = joined(cortex, name);
            &&& looks.contains(LookView::Row { name, path }) <==> name.len() > 5 && ends_with(
                name,
                ".json"@,
            )
            &&& looks.contains(LookView::Text { name, path }) <==> classified(name) is Some
            &&& forall|look: LookView| #[trigger]
                looks.contains(look) ==> look == (LookView::Row { name, path }) || look == (
                LookView::Text { name, path })
            &&& looks.no_duplicates()
        }),
    decreases b.len(),
{
    rows_are_known_by_their_extension(name);
    let one = seq![name];
    let path = joined(cortex, name);
    assert(one.drop_last() =~= Seq::empty());
    assert(looks_at_files(cortex, Seq::empty()) =~= Seq::<LookView>::empty());
    assert(looks_at_files(cortex, one) =~= looks_at_file(cortex, name));
    let looks = looks_at_file(cortex, name);
    let row = LookView::Row { name, path };
    let text = LookView::Text { name, path };
    if is_row_name(name) {
        assert(looks[0] == row);
    }
    if classified(name) is Some {
        assert(looks[looks.len() - 1] == text);
    }
    if b.len() == 0 {
        assert(a + b =~= a);
        assert(looks_at_files(cortex, a) + looks_at_files(cortex, b) =~= looks_at_files(cortex, a));
    } else {
        every_file_is_looked_at(cortex, a, b.drop_last(), name);
        assert((a + b).drop_last() =~= a + b.drop_last());
        assert(looks_at_files(cortex, a + b) =~= looks_at_files(cortex, a) + looks_at_files(
            cortex,
            b,
        ));
    }
}

} // verus!
