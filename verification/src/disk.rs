//! What is done to the files of the store, step by step.
//!
//! Nothing here touches a file. The operations of the store are returned as
//! lists of [`Step`]s, to be performed in order up to the first that fails.

use vstd::prelude::*;

use crate::numeral::{decimal, decimal_of, numerals_are_distinct};
use crate::store::{Row, RowView};
use crate::text::{chars_of, copied, copy_range, text_of};

verus! {

/// What a file of the store holds.
pub enum Body {
    /// A snapshot, written as JSON.
    Row(Row),
    /// Plain text.
    Text(String),
}

/// What a file holds, as contracts speak of it.
pub enum BodyView {
    Row(RowView),
    Text(Seq<char>),
}

impl View for Body {
    type V = BodyView;

    open spec fn view(&self) -> BodyView {
        match self {
            Body::Row(row) => BodyView::Row(row@),
            Body::Text(text) => BodyView::Text(text@),
        }
    }
}

/// One thing to do to a file.
pub enum Step {
    /// Open the file for its owner only, empty, whether or not it exists.
    Create(String),
    /// Write the whole body into the file that was created.
    Write(String, Body),
    /// Bring what was written to the disk itself.
    Sync(String),
    /// Give the file another name, in place of any file of that name.
    Rename(String, String),
    /// Remove the file. One that is not there is removed already.
    Remove(String),
}

/// One thing to do, as contracts speak of it.
pub enum StepView {
    Create(Seq<char>),
    Write(Seq<char>, BodyView),
    Sync(Seq<char>),
    Rename(Seq<char>, Seq<char>),
    Remove(Seq<char>),
}

impl View for Step {
    type V = StepView;

    open spec fn view(&self) -> StepView {
        match self {
            Step::Create(path) => StepView::Create(path@),
            Step::Write(path, body) => StepView::Write(path@, body@),
            Step::Sync(path) => StepView::Sync(path@),
            Step::Rename(from, to) => StepView::Rename(from@, to@),
            Step::Remove(path) => StepView::Remove(path@),
        }
    }
}

/// What `steps` say.
pub open spec fn step_views(steps: Seq<Step>) -> Seq<StepView> {
    steps.map_values(|step: Step| step@)
}

/// The directory part of a path, with the separator at its end.
pub open spec fn dir_of(path: Seq<char>) -> Seq<char>
    decreases path.len(),
{
    if path.len() == 0 || path.last() == '/' {
        path
    } else {
        dir_of(path.drop_last())
    }
}

/// The last component of a path.
pub open spec fn name_of(path: Seq<char>) -> Seq<char> {
    path.skip(dir_of(path).len() as int)
}

/// What stands before the last dot of a name, if it has one.
pub open spec fn before_last_dot(name: Seq<char>) -> Option<Seq<char>>
    decreases name.len(),
{
    if name.len() == 0 {
        None
    } else if name.last() == '.' {
        Some(name.drop_last())
    } else {
        before_last_dot(name.drop_last())
    }
}

/// A file name without its extension. A dot at the start begins no extension.
pub open spec fn stem_of(name: Seq<char>) -> Seq<char> {
    match before_last_dot(name) {
        Some(stem) if stem.len() > 0 => stem,
        _ => name,
    }
}

/// The name under which a file is written before it gets its own. It differs
/// from process to process.
pub open spec fn temp_path(path: Seq<char>, pid: u32) -> Seq<char> {
    dir_of(path) + stem_of(name_of(path)) + ".tmp."@ + decimal(pid as nat)
}

proof fn lemma_dir_of(path: Seq<char>)
    ensures
        dir_of(path).len() <= path.len(),
        dir_of(path) == path.take(dir_of(path).len() as int),
        dir_of(path).len() > 0 ==> dir_of(path).last() == '/',
        forall|i: int| dir_of(path).len() <= i < path.len() ==> path[i] != '/',
    decreases path.len(),
{
    if path.len() > 0 && path.last() != '/' {
        let front = path.drop_last();
        lemma_dir_of(front);
        assert(front.take(dir_of(front).len() as int) =~= path.take(dir_of(path).len() as int));
        assert forall|i: int| dir_of(path).len() <= i < path.len() implies path[i] != '/' by {
            if i < front.len() {
                assert(front[i] == path[i]);
            }
        }
    } else {
        assert(path.take(path.len() as int) =~= path);
    }
}

/// The name of the file in which `path` is written first.
pub fn temp_of(path: &str, pid: u32) -> (temp: String)
    ensures
        temp@ == temp_path(path@, pid),
{
    let chars = chars_of(path);
    let mut start: usize = chars.len();
    assert(path@.take(start as int) =~= path@);
    while start > 0 && chars[start - 1] != '/'
        invariant
            start <= chars.len(),
            chars@ == path@,
            dir_of(path@) == dir_of(path@.take(start as int)),
        decreases start,
    {
        assert(path@.take(start as int).drop_last() =~= path@.take(start - 1));
        start = start - 1;
    }
    assert(dir_of(path@) == path@.take(start as int));
    let name = copy_range(&chars, start, chars.len());
    assert(name@ =~= name_of(path@));
    let mut end: usize = name.len();
    assert(name@.take(end as int) =~= name@);
    while end > 0 && name[end - 1] != '.'
        invariant
            end <= name.len(),
            before_last_dot(name@) == before_last_dot(name@.take(end as int)),
        decreases end,
    {
        assert(name@.take(end as int).drop_last() =~= name@.take(end - 1));
        end = end - 1;
    }
    assert(end > 0 ==> name@.take(end as int).drop_last() =~= name@.take(end - 1));
    let keep: usize = if end > 1 {
        end - 1
    } else {
        name.len()
    };
    let stem = copy_range(&name, 0, keep);
    assert(stem@ =~= stem_of(name@));
    let mut temp = text_of(copy_range(&chars, 0, start).as_slice());
    temp.append(text_of(stem.as_slice()).as_str());
    temp.append(".tmp.");
    temp.append(decimal_of(pid as u64).as_str());
    assert(temp@ =~= temp_path(path@, pid));
    temp
}

/// The steps that write a file whole: into a file of another name first, which
/// then takes the name.
pub open spec fn atomic_write(path: Seq<char>, body: BodyView, pid: u32) -> Seq<StepView> {
    let temp = temp_path(path, pid);
    seq![
        StepView::Create(temp),
        StepView::Write(temp, body),
        StepView::Sync(temp),
        StepView::Rename(temp, path),
    ]
}

/// Writes a file whole.
pub fn write_atomic(path: &str, body: Body, pid: u32) -> (steps: Vec<Step>)
    ensures
        step_views(steps@) == atomic_write(path@, body@, pid),
{
    let temp = temp_of(path, pid);
    let mut steps: Vec<Step> = Vec::new();
    steps.push(Step::Create(copied(temp.as_str())));
    steps.push(Step::Write(copied(temp.as_str()), body));
    steps.push(Step::Sync(copied(temp.as_str())));
    steps.push(Step::Rename(temp, copied(path)));
    assert(step_views(steps@) =~= atomic_write(path@, body@, pid));
    steps
}

/// What a reader finds in a file.
pub enum Content {
    /// Anything, up to a body that has not been written to its end.
    Partial,
    /// All of a body.
    Whole(BodyView),
}

/// The files of the store, by their paths.
pub type Disk = Map<Seq<char>, Content>;

/// The files after one step.
pub open spec fn after(disk: Disk, step: StepView) -> Disk {
    match step {
        StepView::Create(path) => disk.insert(path, Content::Partial),
        StepView::Write(path, body) => disk.insert(path, Content::Whole(body)),
        StepView::Sync(path) => disk,
        StepView::Rename(from, to) => if disk.dom().contains(from) {
            disk.remove(from).insert(to, disk[from])
        } else {
            disk
        },
        StepView::Remove(path) => disk.remove(path),
    }
}

/// The files after some steps.
pub open spec fn after_all(disk: Disk, steps: Seq<StepView>) -> Disk
    decreases steps.len(),
{
    if steps.len() == 0 {
        disk
    } else {
        after(after_all(disk, steps.drop_last()), steps.last())
    }
}

/// What is found under a path.
pub open spec fn at(disk: Disk, path: Seq<char>) -> Option<Content> {
    if disk.dom().contains(path) {
        Some(disk[path])
    } else {
        None
    }
}

proof fn lemma_before_last_dot(name: Seq<char>)
    ensures
        match before_last_dot(name) {
            Some(stem) => {
                &&& stem.len() < name.len()
                &&& stem == name.take(stem.len() as int)
                &&& name[stem.len() as int] == '.'
                &&& forall|i: int| stem.len() < i < name.len() ==> name[i] != '.'
            },
            None => forall|i: int| 0 <= i < name.len() ==> name[i] != '.',
        },
    decreases name.len(),
{
    if name.len() > 0 && name.last() != '.' {
        let front = name.drop_last();
        lemma_before_last_dot(front);
        assert forall|i: int| 0 <= i < front.len() implies front[i] == name[i] by {}
        if before_last_dot(name) is Some {
            let stem = before_last_dot(name)->0;
            assert(front.take(stem.len() as int) =~= name.take(stem.len() as int));
        }
    } else if name.len() > 0 {
        assert(name.take(name.len() - 1) =~= name.drop_last());
    }
}

/// A file is never written in place: the name it is written under first is
/// another one.
pub proof fn temp_path_differs(path: Seq<char>, pid: u32)
    ensures
        temp_path(path, pid) != path,
{
    lemma_dir_of(path);
    let name = name_of(path);
    let dir = dir_of(path);
    lemma_before_last_dot(name);
    reveal_strlit(".tmp.");
    lemma_decimal_is_not_empty(pid as nat);
    let temp = temp_path(path, pid);
    let tail = ".tmp."@ + decimal(pid as nat);
    assert(path =~= dir + name);
    if temp == path {
        let stem = stem_of(name);
        assert(temp =~= dir + (stem + tail));
        assert(temp.skip(dir.len() as int) =~= stem + tail);
        assert(path.skip(dir.len() as int) =~= name);
        assert(name == stem + tail);
        if stem == name {
            assert(name.len() == stem.len() + tail.len());
        } else {
            assert(name[stem.len() as int + 4] == tail[4]);
            assert(tail[4] == '.');
        }
        assert(false);
    }
}

proof fn lemma_decimal_is_not_empty(n: nat)
    ensures
        decimal(n).len() > 0,
{
}

/// A reader never sees a file that is half written. However far the steps have
/// come, the path holds what it held before or all of the new body, and once
/// they are done the latter.
pub proof fn no_file_is_seen_half_written(
    disk: Disk,
    path: Seq<char>,
    body: BodyView,
    pid: u32,
    done: int,
)
    requires
        0 <= done <= 4,
    ensures
        ({
            let seen = after_all(disk, atomic_write(path, body, pid).take(done));
            &&& at(seen, path) == (if done < 4 {
                at(disk, path)
            } else {
                Some(Content::Whole(body))
            })
            &&& forall|other: Seq<char>|
                other != path && other != temp_path(path, pid) ==> #[trigger] at(seen, other) == at(
                    disk,
                    other,
                )
            &&& done == 4 ==> at(seen, temp_path(path, pid)) is None
        }),
{
    temp_path_differs(path, pid);
    let steps = atomic_write(path, body, pid);
    assert(steps.take(4).drop_last() =~= steps.take(3));
    assert(steps.take(3).drop_last() =~= steps.take(2));
    assert(steps.take(2).drop_last() =~= steps.take(1));
    assert(steps.take(1).drop_last() =~= steps.take(0));
    assert(after_all(disk, steps.take(0)) == disk);
    let one = after_all(disk, steps.take(1));
    assert(one == after(disk, steps[0]));
    let two = after_all(disk, steps.take(2));
    assert(two == after(one, steps[1]));
    let three = after_all(disk, steps.take(3));
    assert(three == after(two, steps[2]));
    let four = after_all(disk, steps.take(4));
    assert(four == after(three, steps[3]));
}

/// What a file holds once it has been written whole, and that nothing else has
/// changed.
pub proof fn written_whole(disk: Disk, path: Seq<char>, body: BodyView, pid: u32)
    ensures
        ({
            let seen = after_all(disk, atomic_write(path, body, pid));
            &&& at(seen, path) == Some(Content::Whole(body))
            &&& forall|other: Seq<char>|
                other != path && other != temp_path(path, pid) ==> #[trigger] at(seen, other) == at(
                    disk,
                    other,
                )
            &&& at(seen, temp_path(path, pid)) is None
        }),
{
    no_file_is_seen_half_written(disk, path, body, pid, 4);
    let steps = atomic_write(path, body, pid);
    assert(steps.take(4) =~= steps);
}

/// A file is written beside itself: in its own directory, under its name without
/// the extension, with the number of the process behind it. `dir` is empty or
/// ends in a separator.
pub proof fn files_are_written_beside_themselves(
    dir: Seq<char>,
    stem: Seq<char>,
    extension: Seq<char>,
    pid: u32,
)
    requires
        dir.len() == 0 || dir.last() == '/',
        stem.len() > 0,
        forall|i: int| 0 <= i < stem.len() ==> #[trigger] stem[i] != '/',
        forall|i: int|
            0 <= i < extension.len() ==> #[trigger] extension[i] != '/' && extension[i] != '.',
    ensures
        temp_path(dir + stem + seq!['.'] + extension, pid) == dir + stem + seq!['.', 't', 'm', 'p', '.']
            + decimal(pid as nat),
{
    reveal_strlit(".tmp.");
    assert(".tmp."@ =~= seq!['.', 't', 'm', 'p', '.']);
    let path = dir + stem + seq!['.'] + extension;
    lemma_dir_of(path);
    let found = dir_of(path);
    if found.len() < dir.len() {
        assert(path[dir.len() - 1] == '/');
    }
    if found.len() > dir.len() {
        let i = found.len() - 1;
        assert(path[i] == found.last());
        if i < dir.len() + stem.len() {
            assert(path[i] == stem[i - dir.len()]);
        } else if i > dir.len() + stem.len() {
            assert(path[i] == extension[i - dir.len() - stem.len() - 1]);
        }
    }
    assert(found =~= dir);
    let name = stem + seq!['.'] + extension;
    assert(name_of(path) =~= name);
    lemma_before_last_dot(name);
    assert(name[stem.len() as int] == '.');
    assert(before_last_dot(name) is Some);
    let before = before_last_dot(name)->0;
    if before.len() > stem.len() {
        assert(name[before.len() as int] == extension[before.len() - stem.len() - 1]);
    }
    assert(before =~= stem);
    assert(temp_path(path, pid) =~= dir + stem + seq!['.', 't', 'm', 'p', '.'] + decimal(pid as nat));
}

/// Two processes never write a file under the same name first.
pub proof fn processes_write_apart(path: Seq<char>, a: u32, b: u32)
    requires
        temp_path(path, a) == temp_path(path, b),
    ensures
        a == b,
{
    let front = dir_of(path) + stem_of(name_of(path)) + ".tmp."@;
    assert(temp_path(path, a).skip(front.len() as int) =~= decimal(a as nat));
    assert(temp_path(path, b).skip(front.len() as int) =~= decimal(b as nat));
    numerals_are_distinct(a as nat, b as nat, 10);
}

/// A file gets its name only once all of it has been written and brought to the
/// disk, under another name.
pub proof fn files_are_synced_before_they_are_named(path: Seq<char>, body: BodyView, pid: u32)
    ensures
        ({
            let steps = atomic_write(path, body, pid);
            let temp = temp_path(path, pid);
            &&& steps.len() == 4
            &&& steps[0] == StepView::Create(temp)
            &&& steps[1] == StepView::Write(temp, body)
            &&& steps[2] == StepView::Sync(temp)
            &&& steps[3] == StepView::Rename(temp, path)
        }),
{
}

/// A file whose name has no extension, and one whose only dot begins the name, is
/// written under its whole name with the number of the process behind it.
pub proof fn files_without_an_extension_keep_their_name(
    dir: Seq<char>,
    name: Seq<char>,
    pid: u32,
)
    requires
        dir.len() == 0 || dir.last() == '/',
        name.len() > 0,
        forall|i: int| 0 <= i < name.len() ==> #[trigger] name[i] != '/',
        forall|i: int| 0 < i < name.len() ==> #[trigger] name[i] != '.',
    ensures
        temp_path(dir + name, pid) == dir + name + seq!['.', 't', 'm', 'p', '.'] + decimal(
            pid as nat,
        ),
{
    reveal_strlit(".tmp.");
    assert(".tmp."@ =~= seq!['.', 't', 'm', 'p', '.']);
    let path = dir + name;
    lemma_dir_of(path);
    let found = dir_of(path);
    if found.len() < dir.len() {
        assert(path[dir.len() - 1] == '/');
    }
    if found.len() > dir.len() {
        let i = found.len() - 1;
        assert(path[i] == found.last());
        assert(path[i] == name[i - dir.len()]);
    }
    assert(found =~= dir);
    assert(name_of(path) =~= name);
    lemma_before_last_dot(name);
    assert(temp_path(path, pid) =~= dir + name + seq!['.', 't', 'm', 'p', '.'] + decimal(
        pid as nat,
    ));
}

} // verus!
