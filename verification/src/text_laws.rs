//! What trimming, splitting, joining and ordering texts comes to, said of the
//! characters themselves.

use vstd::prelude::*;

use crate::text::{
    begins_with, contains, ends_with, occurs_at, position, position_is_first,
    is_blank, is_space, join, lemma_trim_end, lemma_trim_start, lines, precedes, split, trim_start,
    trimmed, without_return,
};

verus! {

/// White space is the twenty-five characters that Unicode calls so.
pub proof fn white_space_is_what_unicode_says(c: char)
    ensures
        is_space(c) <==> seq![
            0x09u32, 0x0a, 0x0b, 0x0c, 0x0d, 0x20, 0x85, 0xa0, 0x1680, 0x2000, 0x2001, 0x2002, 0x2003,
            0x2004, 0x2005, 0x2006, 0x2007, 0x2008, 0x2009, 0x200a, 0x2028, 0x2029, 0x202f, 0x205f,
            0x3000,
        ].contains(c as u32),
{
    let all = seq![
        0x09u32, 0x0a, 0x0b, 0x0c, 0x0d, 0x20, 0x85, 0xa0, 0x1680, 0x2000, 0x2001, 0x2002, 0x2003,
        0x2004, 0x2005, 0x2006, 0x2007, 0x2008, 0x2009, 0x200a, 0x2028, 0x2029, 0x202f, 0x205f,
        0x3000,
    ];
    let n = c as u32;
    if is_space(c) {
        let i: int = if n <= 0x0d {
            n - 0x09
        } else if n == 0x20 {
            5
        } else if n == 0x85 {
            6
        } else if n == 0xa0 {
            7
        } else if n == 0x1680 {
            8
        } else if n <= 0x200a {
            9 + (n - 0x2000)
        } else if n == 0x2028 {
            20
        } else if n == 0x2029 {
            21
        } else if n == 0x202f {
            22
        } else if n == 0x205f {
            23
        } else {
            24
        };
        assert(all[i] == n);
    }
}

/// Whether `text` is white space but for what stands from `from` up to `to`,
/// and that, where it is not empty, neither begins nor ends with white space.
pub open spec fn is_solid_part(text: Seq<char>, from: int, to: int) -> bool {
    &&& 0 <= from <= to <= text.len()
    &&& forall|i: int| 0 <= i < from ==> is_space(#[trigger] text[i])
    &&& forall|i: int| to <= i < text.len() ==> is_space(#[trigger] text[i])
    &&& from < to ==> !is_space(text[from]) && !is_space(text[to - 1])
}

/// Every text has such a part.
pub proof fn there_is_a_solid_part(text: Seq<char>) -> (part: (int, int))
    ensures
        is_solid_part(text, part.0, part.1),
        trimmed(text) == text.subrange(part.0, part.1),
{
    lemma_trim_start(text);
    lemma_trim_end(trim_start(text));
    let start = trim_start(text);
    let from = text.len() - start.len();
    let to = from + trimmed(text).len();
    assert(trimmed(text) =~= text.subrange(from, to));
    assert forall|i: int| to <= i < text.len() implies is_space(#[trigger] text[i]) by {
        assert(start[i - from] == text[i]);
    }
    if from < to {
        assert(start[0] == text[from]);
        assert(trimmed(text).last() == text[to - 1]);
    }
    (from, to)
}

/// Trimming cuts white space off at both ends and leaves all that stands between
/// the first and the last other character, as it is.
pub proof fn trimming_leaves_the_solid_part(text: Seq<char>, from: int, to: int)
    requires
        is_solid_part(text, from, to),
    ensures
        trimmed(text) == text.subrange(from, to),
{
    let (a, b) = there_is_a_solid_part(text);
    if from < to {
        assert(!is_space(text[from]) && !is_space(text[to - 1]));
        assert(a <= from && to <= b);
        assert(!is_space(text[a]) && !is_space(text[b - 1]));
        assert(from <= a && b <= to);
    } else {
        if a < b {
            assert(is_space(text[a]));
        }
        assert(text.subrange(from, to) =~= text.subrange(a, b));
    }
}

/// Trimming the start cuts off the white space before the first other character
/// and nothing more.
pub proof fn trimming_the_start_stops_at_the_first_character(text: Seq<char>, from: int)
    requires
        0 <= from <= text.len(),
        forall|i: int| 0 <= i < from ==> is_space(#[trigger] text[i]),
        from < text.len() ==> !is_space(text[from]),
    ensures
        trim_start(text) == text.skip(from),
{
    lemma_trim_start(text);
    let at = text.len() - trim_start(text).len();
    if at < from {
        assert(trim_start(text).first() == text[at]);
        assert(is_space(text[at]));
    }
    if from < at {
        assert(is_space(text[from]));
    }
}

/// A text is blank exactly when none of its characters is solid.
pub proof fn blank_text_has_no_solid_character(text: Seq<char>, i: int)
    requires
        0 <= i < text.len(),
        !is_space(text[i]),
    ensures
        !is_blank(text),
        trimmed(text).len() > 0,
{
    let (a, b) = there_is_a_solid_part(text);
    if a == b {
        assert(is_space(text[i]));
    }
}

/// The parts that a text is split into give the text back with the separator
/// between them, and none of them holds a separator.
pub proof fn split_parts_give_the_text_back(text: Seq<char>, at: char)
    ensures
        split(text, at).len() > 0,
        join(split(text, at), seq![at]) == text,
        forall|i: int, j: int|
            0 <= i < split(text, at).len() && 0 <= j < split(text, at)[i].len()
                ==> #[trigger] split(text, at)[i][j] != at,
    decreases text.len(),
{
    let parts = split(text, at);
    if text.len() == 0 {
        assert(join(parts, seq![at]) =~= text);
    } else {
        let front = text.drop_last();
        let before = split(front, at);
        split_parts_give_the_text_back(front, at);
        if text.last() == at {
            assert(parts.drop_last() =~= before);
            assert(join(parts, seq![at]) =~= text);
        } else {
            let rest = before.drop_last();
            let last = before.last().push(text.last());
            assert(parts =~= rest.push(last));
            assert(parts.drop_last() =~= rest);
            if rest.len() == 0 {
                assert(join(before, seq![at]) == before.last());
                assert(join(parts, seq![at]) =~= text);
            } else {
                assert(join(before, seq![at]) == join(rest, seq![at]) + seq![at] + before.last());
                assert(parts.last() == last);
                assert(join(parts, seq![at]) == join(rest, seq![at]) + seq![at] + last);
                assert(join(parts, seq![at]) =~= front.push(text.last()));
                assert(front.push(text.last()) =~= text);
            }
        }
        assert forall|i: int, j: int|
            0 <= i < parts.len() && 0 <= j < parts[i].len() implies #[trigger] parts[i][j] != at by {
            if i < before.len() {
                if j < before[i].len() {
                    assert(before[i][j] != at);
                }
            }
        }
    }
}

/// Joining goes on where it stopped: what two rows of parts come to has the
/// separator between what each of them comes to, and a single part is itself.
pub proof fn joined_rows_meet_at_a_separator(
    a: Seq<Seq<char>>,
    b: Seq<Seq<char>>,
    between: Seq<char>,
)
    requires
        a.len() > 0,
        b.len() > 0,
    ensures
        join(a + b, between) == join(a, between) + between + join(b, between),
        a.len() == 1 ==> join(a, between) == a[0],
    decreases b.len(),
{
    let all = a + b;
    assert(all.drop_last() =~= a + b.drop_last());
    if b.len() == 1 {
        assert(a + b.drop_last() =~= a);
    } else {
        joined_rows_meet_at_a_separator(a, b.drop_last(), between);
        assert(join(all, between) =~= join(a, between) + between + join(b, between));
    }
}

proof fn lemma_split_whole(line: Seq<char>, at: char)
    requires
        forall|i: int| 0 <= i < line.len() ==> #[trigger] line[i] != at,
    ensures
        split(line, at) == seq![line],
    decreases line.len(),
{
    if line.len() > 0 {
        let front = line.drop_last();
        assert forall|i: int| 0 <= i < front.len() implies #[trigger] front[i] != at by {
            assert(front[i] == line[i]);
        }
        lemma_split_whole(front, at);
        assert(line[line.len() - 1] != at);
        assert(front.push(line.last()) =~= line);
        assert(split(line, at) =~= seq![line]);
    } else {
        assert(line =~= Seq::empty());
    }
}

proof fn lemma_split_first(line: Seq<char>, rest: Seq<char>, at: char)
    requires
        forall|i: int| 0 <= i < line.len() ==> #[trigger] line[i] != at,
    ensures
        split(line + seq![at] + rest, at) == seq![line] + split(rest, at),
    decreases rest.len(),
{
    let text = line + seq![at] + rest;
    if rest.len() == 0 {
        assert(text.drop_last() =~= line);
        lemma_split_whole(line, at);
        assert(split(text, at) =~= seq![line] + split(rest, at));
    } else {
        let front = rest.drop_last();
        lemma_split_first(line, front, at);
        assert(text.drop_last() =~= line + seq![at] + front);
        assert(split(front, at).len() > 0) by {
            split_parts_give_the_text_back(front, at);
        }
        assert(split(text, at) =~= seq![line] + split(rest, at));
    }
}

/// The first line of a text is what stands before its first newline, without a
/// carriage return just before that newline; the other lines are those of what
/// stands behind it. A text without a newline is one line, and an empty text is
/// none.
pub proof fn lines_come_one_by_one(line: Seq<char>, rest: Seq<char>)
    requires
        forall|i: int| 0 <= i < line.len() ==> #[trigger] line[i] != '\n',
    ensures
        lines(Seq::empty()) == Seq::<Seq<char>>::empty(),
        line.len() > 0 ==> lines(line) == seq![line],
        lines(line + seq!['\n'] + rest) == seq![
            if line.len() > 0 && line.last() == '\r' {
                line.drop_last()
            } else {
                line
            },
        ] + lines(rest),
{
    lemma_split_whole(Seq::empty(), '\n');
    lemma_split_whole(line, '\n');
    lemma_split_first(line, rest, '\n');
    split_parts_give_the_text_back(rest, '\n');
    let all = split(line + seq!['\n'] + rest, '\n');
    let parts = split(rest, '\n');
    assert(lines(Seq::empty()) =~= Seq::<Seq<char>>::empty());
    if line.len() > 0 {
        assert(lines(line) =~= seq![line]);
    }
    assert(all.drop_last() =~= seq![line] + parts.drop_last());
    assert(all.last() == parts.last());
    assert(all.drop_last().map_values(|line: Seq<char>| without_return(line)) =~= seq![
        without_return(line),
    ] + parts.drop_last().map_values(|line: Seq<char>| without_return(line)));
    assert(lines(line + seq!['\n'] + rest) =~= seq![without_return(line)] + lines(rest));
}

/// Of two texts that agree up to `at`, and of which the second goes on there, the
/// first comes before the second if it ends there or has the smaller character
/// there.
pub proof fn the_first_difference_decides(a: Seq<char>, b: Seq<char>, at: int)
    requires
        0 <= at <= a.len(),
        at < b.len(),
        forall|i: int| 0 <= i < at ==> #[trigger] a[i] == b[i],
        at == a.len() || a[at] < b[at],
    ensures
        precedes(a, b),
        !precedes(b, a),
    decreases at,
{
    if at > 0 {
        assert(a[0] == b[0]);
        assert forall|i: int| 0 <= i < at - 1 implies #[trigger] a.skip(1)[i] == b.skip(1)[i] by {
            assert(a[i + 1] == b[i + 1]);
        }
        the_first_difference_decides(a.skip(1), b.skip(1), at - 1);
    }
}

/// A part stands at a place exactly when it fits there and every character of it
/// is the one that stands there.
pub proof fn parts_stand_where_they_agree(text: Seq<char>, part: Seq<char>, at: int)
    ensures
        occurs_at(text, part, at) <==> 0 <= at && at + part.len() <= text.len() && forall|k: int|
            0 <= k < part.len() ==> #[trigger] part[k] == text[at + k],
{
    if 0 <= at && at + part.len() <= text.len() {
        let here = text.subrange(at, at + part.len());
        if here == part {
            assert forall|k: int| 0 <= k < part.len() implies #[trigger] part[k] == text[at + k] by {
                assert(here[k] == part[k]);
            }
        }
        if forall|k: int| 0 <= k < part.len() ==> #[trigger] part[k] == text[at + k] {
            assert(here =~= part);
        }
    }
}

/// A text begins with what something stands behind, ends with what something
/// stands before, and contains what stands between; and where a part is found,
/// it is found at its first place.
pub proof fn parts_are_found(before: Seq<char>, part: Seq<char>, behind: Seq<char>)
    ensures
        begins_with(part + behind, part),
        ends_with(before + part, part),
        contains(before + part + behind, part),
        position(before + part + behind, part) matches Some(at) && 0 <= at <= before.len()
            && occurs_at(before + part + behind, part, at) && forall|k: int|
            k < at ==> !#[trigger] occurs_at(before + part + behind, part, k),
{
    let all = before + part + behind;
    let n = before.len() as int;
    assert((part + behind).subrange(0, part.len() as int) =~= part);
    assert((before + part).subrange(n, n + part.len()) =~= part);
    assert(all.subrange(n, n + part.len()) =~= part);
    assert(occurs_at(all, part, n));
    position_is_first(all, part);
}

} // verus!
