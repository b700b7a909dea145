//! Text as a sequence of characters.

use vstd::prelude::*;

verus! {

/// `String::push` of std appends one character to the end.
pub assume_specification[ String::push ](text: &mut String, c: char)
    ensures
        final(text)@ == old(text)@.push(c),
;

/// The characters of the Unicode `White_Space` property.
pub open spec fn is_space(c: char) -> bool {
    let n = c as u32;
    ||| 0x09 <= n <= 0x0d
    ||| n == 0x20
    ||| n == 0x85
    ||| n == 0xa0
    ||| n == 0x1680
    ||| 0x2000 <= n <= 0x200a
    ||| n == 0x2028
    ||| n == 0x2029
    ||| n == 0x202f
    ||| n == 0x205f
    ||| n == 0x3000
}

/// Whether `c` is white space.
pub fn is_whitespace(c: char) -> (space: bool)
    ensures
        space == is_space(c),
{
    let n: u32 = c as u32;
    (0x09 <= n && n <= 0x0d) || n == 0x20 || n == 0x85 || n == 0xa0 || n == 0x1680 || (0x2000 <= n
        && n <= 0x200a) || n == 0x2028 || n == 0x2029 || n == 0x202f || n == 0x205f || n == 0x3000
}

/// The characters of `text`, in order.
pub fn chars_of(text: &str) -> (chars: Vec<char>)
    ensures
        chars@ == text@,
{
    let mut chars: Vec<char> = Vec::new();
    for c in it: text.chars()
        invariant
            it.seq() == text@,
            chars@ == text@.take(it.index() as int),
    {
        chars.push(c);
    }
    chars
}

/// The text that holds `chars`.
pub fn text_of(chars: &[char]) -> (text: String)
    ensures
        text@ == chars@,
{
    let mut text: String = String::new();
    let mut i: usize = 0;
    while i < chars.len()
        invariant
            i <= chars.len(),
            text@ == chars@.take(i as int),
        decreases chars.len() - i,
    {
        text.push(chars[i]);
        i = i + 1;
    }
    text
}

/// `text` without the white space at its start.
pub open spec fn trim_start(text: Seq<char>) -> Seq<char>
    decreases text.len(),
{
    if text.len() > 0 && is_space(text.first()) {
        trim_start(text.drop_first())
    } else {
        text
    }
}

/// `text` without the white space at its end.
pub open spec fn trim_end(text: Seq<char>) -> Seq<char>
    decreases text.len(),
{
    if text.len() > 0 && is_space(text.last()) {
        trim_end(text.drop_last())
    } else {
        text
    }
}

/// `text` without the white space at either end.
pub open spec fn trimmed(text: Seq<char>) -> Seq<char> {
    trim_end(trim_start(text))
}

/// Whether `text` holds nothing but white space.
pub open spec fn is_blank(text: Seq<char>) -> bool {
    forall|i: int| 0 <= i < text.len() ==> is_space(#[trigger] text[i])
}

/// Text trims to nothing exactly when it is blank.
pub proof fn blank_trims_to_nothing(text: Seq<char>)
    ensures
        is_blank(text) <==> trimmed(text).len() == 0,
{
    lemma_trim_start(text);
    lemma_trim_end(trim_start(text));
    let solid = trim_start(text);
    if is_blank(text) {
        if solid.len() > 0 {
            assert(solid.first() == text[text.len() - solid.len()]);
        }
    } else {
        let i = choose|i: int| 0 <= i < text.len() && !is_space(#[trigger] text[i]);
        assert(i >= text.len() - solid.len());
        assert(solid[i - (text.len() - solid.len())] == text[i]);
    }
}

/// Trimming cuts away white space, stops at the first other character, and
/// leaves what is already trimmed alone.
pub proof fn trimming_is_stable(text: Seq<char>)
    ensures
        trimmed(trimmed(text)) == trimmed(text),
        trimmed(text).len() > 0 ==> !is_space(trimmed(text).first()) && !is_space(
            trimmed(text).last(),
        ),
{
    lemma_trim_start(text);
    lemma_trim_end(trim_start(text));
    let out = trimmed(text);
    if out.len() > 0 {
        assert(out.first() == trim_start(text).first());
    }
}

pub(crate) proof fn lemma_trim_start(text: Seq<char>)
    ensures
        trim_start(text).len() <= text.len(),
        trim_start(text) == text.skip(text.len() - trim_start(text).len()),
        forall|i: int|
            0 <= i < text.len() - trim_start(text).len() ==> is_space(#[trigger] text[i]),
        trim_start(text).len() > 0 ==> !is_space(trim_start(text).first()),
    decreases text.len(),
{
    if text.len() > 0 && is_space(text.first()) {
        let rest = text.drop_first();
        lemma_trim_start(rest);
        assert forall|i: int| 0 <= i < text.len() - trim_start(text).len() implies is_space(
            #[trigger] text[i],
        ) by {
            if i > 0 {
                assert(rest[i - 1] == text[i]);
            }
        }
        assert(trim_start(text) =~= text.skip(text.len() - trim_start(text).len()));
    } else {
        assert(text =~= text.skip(0));
    }
}

pub(crate) proof fn lemma_trim_end(text: Seq<char>)
    ensures
        trim_end(text).len() <= text.len(),
        trim_end(text) == text.take(trim_end(text).len() as int),
        forall|i: int| trim_end(text).len() <= i < text.len() ==> is_space(#[trigger] text[i]),
        trim_end(text).len() > 0 ==> !is_space(trim_end(text).last()),
    decreases text.len(),
{
    if text.len() > 0 && is_space(text.last()) {
        let rest = text.drop_last();
        lemma_trim_end(rest);
        assert forall|i: int| trim_end(text).len() <= i < text.len() implies is_space(
            #[trigger] text[i],
        ) by {
            if i < text.len() - 1 {
                assert(rest[i] == text[i]);
            }
        }
        assert(trim_end(text) =~= text.take(trim_end(text).len() as int));
    } else {
        assert(text =~= text.take(text.len() as int));
    }
}

/// Trimming the start of a text keeps the end of it.
pub proof fn trim_start_is_a_suffix(text: Seq<char>)
    ensures
        trim_start(text).len() <= text.len(),
        trim_start(text) == text.skip(text.len() - trim_start(text).len()),
    decreases text.len(),
{
    if text.len() > 0 && is_space(text.first()) {
        trim_start_is_a_suffix(text.drop_first());
        let kept = trim_start(text);
        assert(text.drop_first().skip(text.len() - 1 - kept.len()) =~= text.skip(
            text.len() - kept.len(),
        ));
    } else {
        assert(text.skip(0) =~= text);
    }
}

/// Text with no white space at either end trims to itself.
pub proof fn solid_text_is_trimmed(text: Seq<char>)
    requires
        text.len() > 0,
        !is_space(text.first()),
        !is_space(text.last()),
    ensures
        trimmed(text) == text,
{
}

/// The characters of `text` without the white space at its start.
pub fn trim_start_chars(text: &str) -> (chars: Vec<char>)
    ensures
        chars@ == trim_start(text@),
{
    let all = chars_of(text);
    let mut start: usize = 0;
    assert(text@.skip(0) =~= text@);
    while start < all.len() && is_whitespace(all[start])
        invariant
            start <= all.len(),
            all@ == text@,
            trim_start(text@) == trim_start(text@.skip(start as int)),
        decreases all.len() - start,
    {
        assert(text@.skip(start as int).drop_first() =~= text@.skip(start + 1));
        start = start + 1;
    }
    copy_range(&all, start, all.len())
}

/// The characters of `text` without the white space at either end.
pub fn trim_chars(text: &str) -> (chars: Vec<char>)
    ensures
        chars@ == trimmed(text@),
{
    let mut chars = trim_start_chars(text);
    let ghost start = chars@;
    while chars.len() > 0 && is_whitespace(chars[chars.len() - 1])
        invariant
            trim_end(start) == trim_end(chars@),
        decreases chars.len(),
    {
        assert(chars@.drop_last() == chars@.take(chars.len() - 1));
        let dropped = chars.pop();
    }
    chars
}

/// `text` without the white space at either end.
pub fn trim(text: &str) -> (out: String)
    ensures
        out@ == trimmed(text@),
{
    let chars = trim_chars(text);
    text_of(chars.as_slice())
}

/// Whether `text` holds nothing but white space.
pub fn blank(text: &str) -> (empty: bool)
    ensures
        empty == is_blank(text@),
{
    proof {
        blank_trims_to_nothing(text@);
    }
    trim_chars(text).len() == 0
}

/// The characters of `chars` from `from` up to but not at `to`.
pub fn copy_range(chars: &Vec<char>, from: usize, to: usize) -> (out: Vec<char>)
    requires
        from <= to <= chars.len(),
    ensures
        out@ == chars@.subrange(from as int, to as int),
{
    let mut out: Vec<char> = Vec::new();
    let mut i: usize = from;
    while i < to
        invariant
            from <= i <= to <= chars.len(),
            out@ == chars@.subrange(from as int, i as int),
        decreases to - i,
    {
        out.push(chars[i]);
        i = i + 1;
    }
    out
}

/// Whether `part` stands in `text` at position `at`.
pub open spec fn occurs_at(text: Seq<char>, part: Seq<char>, at: int) -> bool {
    &&& 0 <= at
    &&& at + part.len() <= text.len()
    &&& text.subrange(at, at + part.len()) == part
}

/// Whether `part` stands somewhere in `text`.
pub open spec fn contains(text: Seq<char>, part: Seq<char>) -> bool {
    exists|at: int| #[trigger] occurs_at(text, part, at)
}

/// Whether `at` is the first position at which `part` stands in `text`.
pub open spec fn first_at(text: Seq<char>, part: Seq<char>, at: int) -> bool {
    &&& occurs_at(text, part, at)
    &&& forall|before: int| before < at ==> !#[trigger] occurs_at(text, part, before)
}

/// The first position at which `part` stands in `text`.
pub open spec fn position(text: Seq<char>, part: Seq<char>) -> Option<int> {
    if contains(text, part) {
        Some(choose|at: int| #[trigger] first_at(text, part, at))
    } else {
        None
    }
}

/// There is one first position, if there is any.
pub proof fn first_position(text: Seq<char>, part: Seq<char>, at: int)
    requires
        first_at(text, part, at),
    ensures
        position(text, part) == Some(at),
{
    assert(occurs_at(text, part, at));
    let other = choose|other: int| #[trigger] first_at(text, part, other);
    if at < other {
        assert(!occurs_at(text, part, at));
    }
    if other < at {
        assert(!occurs_at(text, part, other));
    }
}

/// Where `part` stands in `text` at all, it stands there first somewhere.
pub proof fn position_is_first(text: Seq<char>, part: Seq<char>)
    ensures
        match position(text, part) {
            Some(at) => first_at(text, part, at),
            None => !contains(text, part),
        },
{
    if contains(text, part) {
        let at = choose|at: int| #[trigger] occurs_at(text, part, at);
        lemma_first_up_to(text, part, at);
    }
}

proof fn lemma_first_up_to(text: Seq<char>, part: Seq<char>, at: int)
    requires
        occurs_at(text, part, at),
    ensures
        exists|first: int| #[trigger] first_at(text, part, first),
    decreases at,
{
    if exists|before: int| before < at && #[trigger] occurs_at(text, part, before) {
        let before = choose|before: int| before < at && #[trigger] occurs_at(text, part, before);
        lemma_first_up_to(text, part, before);
    } else {
        assert(first_at(text, part, at));
    }
}

/// Whether `text` begins with `part`.
pub open spec fn begins_with(text: Seq<char>, part: Seq<char>) -> bool {
    occurs_at(text, part, 0)
}

/// Whether `text` ends with `part`.
pub open spec fn ends_with(text: Seq<char>, part: Seq<char>) -> bool {
    occurs_at(text, part, text.len() - part.len())
}

/// Whether `part` stands in `chars` at position `at`.
pub fn matches_at(chars: &Vec<char>, part: &Vec<char>, at: usize) -> (found: bool)
    ensures
        found == occurs_at(chars@, part@, at as int),
{
    if chars.len() < at || chars.len() - at < part.len() {
        return false;
    }
    let mut i: usize = 0;
    while i < part.len()
        invariant
            i <= part.len(),
            at + part.len() <= chars.len(),
            forall|k: int| 0 <= k < i ==> chars@[at + k] == #[trigger] part@[k],
        decreases part.len() - i,
    {
        if chars[at + i] != part[i] {
            assert(chars@.subrange(at as int, at + part.len())[i as int] != part@[i as int]);
            return false;
        }
        i = i + 1;
    }
    assert(chars@.subrange(at as int, at + part.len()) =~= part@);
    true
}

/// The first position at which `part` stands in `chars`.
pub fn find(chars: &Vec<char>, part: &Vec<char>) -> (at: Option<usize>)
    ensures
        match at {
            Some(at) => position(chars@, part@) == Some(at as int) && at + part@.len()
                <= chars@.len(),
            None => position(chars@, part@) is None,
        },
{
    let mut i: usize = 0;
    while i <= chars.len()
        invariant
            i <= chars.len() + 1,
            forall|before: int| before < i ==> !#[trigger] occurs_at(chars@, part@, before),
        decreases chars.len() + 1 - i,
    {
        if matches_at(chars, part, i) {
            proof {
                first_position(chars@, part@, i as int);
            }
            return Some(i);
        }
        if i == chars.len() {
            return None;
        }
        i = i + 1;
    }
    None
}

/// Whether `text` begins with `part`.
pub fn has_prefix(text: &str, part: &str) -> (found: bool)
    ensures
        found == begins_with(text@, part@),
{
    matches_at(&chars_of(text), &chars_of(part), 0)
}

/// Whether `part` stands somewhere in `text`.
pub fn has_part(text: &str, part: &str) -> (found: bool)
    ensures
        found == contains(text@, part@),
{
    find(&chars_of(text), &chars_of(part)).is_some()
}

/// What follows `prefix` in `text`, when `text` begins with it.
pub fn strip_prefix(text: &str, prefix: &str) -> (rest: Option<String>)
    ensures
        match rest {
            Some(rest) => begins_with(text@, prefix@) && rest@ == text@.skip(prefix@.len() as int),
            None => !begins_with(text@, prefix@),
        },
{
    let chars = chars_of(text);
    let part = chars_of(prefix);
    if matches_at(&chars, &part, 0) {
        let rest = copy_range(&chars, part.len(), chars.len());
        Some(text_of(rest.as_slice()))
    } else {
        None
    }
}

/// What stands before `suffix` in `text`, when `text` ends with it.
pub fn strip_suffix(text: &str, suffix: &str) -> (rest: Option<String>)
    ensures
        match rest {
            Some(rest) => ends_with(text@, suffix@) && rest@ == text@.take(
                text@.len() - suffix@.len(),
            ),
            None => !ends_with(text@, suffix@),
        },
{
    let chars = chars_of(text);
    let part = chars_of(suffix);
    if part.len() <= chars.len() && matches_at(&chars, &part, chars.len() - part.len()) {
        let rest = copy_range(&chars, 0, chars.len() - part.len());
        Some(text_of(rest.as_slice()))
    } else {
        None
    }
}

/// What stands before the first `part` in `text`, when there is one.
pub fn before_first(text: &str, part: &str) -> (before: Option<String>)
    ensures
        opt_view(before) == (match position(text@, part@) {
            Some(at) => Some(text@.take(at)),
            None => None::<Seq<char>>,
        }),
{
    let chars = chars_of(text);
    match find(&chars, &chars_of(part)) {
        Some(at) => {
            let before = copy_range(&chars, 0, at);
            Some(text_of(before.as_slice()))
        },
        None => None,
    }
}

/// Whether two texts hold the same characters.
pub fn same(a: &str, b: &str) -> (equal: bool)
    ensures
        equal == (a@ == b@),
{
    let left = chars_of(a);
    let right = chars_of(b);
    let equal = left.len() == right.len() && matches_at(&left, &right, 0);
    assert(a@.subrange(0, a@.len() as int) =~= a@);
    equal
}

/// A copy of `text`.
pub fn copied(text: &str) -> (copy: String)
    ensures
        copy@ == text@,
{
    text.to_owned()
}

/// The order of texts: by the first character in which they differ, and a
/// text that ends early comes first.
pub open spec fn precedes(a: Seq<char>, b: Seq<char>) -> bool
    decreases b.len(),
{
    if b.len() == 0 {
        false
    } else if a.len() == 0 {
        true
    } else if a[0] != b[0] {
        a[0] < b[0]
    } else {
        precedes(a.skip(1), b.skip(1))
    }
}

/// No text precedes itself.
pub proof fn precedes_is_irreflexive(a: Seq<char>)
    ensures
        !precedes(a, a),
    decreases a.len(),
{
    if a.len() > 0 {
        precedes_is_irreflexive(a.skip(1));
    }
}

/// Of two different texts one precedes the other.
pub proof fn precedes_is_total(a: Seq<char>, b: Seq<char>)
    ensures
        a == b || precedes(a, b) || precedes(b, a),
    decreases a.len(),
{
    if a.len() > 0 && b.len() > 0 && a[0] == b[0] {
        precedes_is_total(a.skip(1), b.skip(1));
        if a.skip(1) == b.skip(1) {
            assert(a =~= seq![a[0]] + a.skip(1));
            assert(b =~= seq![b[0]] + b.skip(1));
        }
    } else if a.len() == 0 && b.len() == 0 {
        assert(a =~= b);
    }
}

/// What precedes a text also precedes all that this text precedes.
pub proof fn precedes_is_transitive(a: Seq<char>, b: Seq<char>, c: Seq<char>)
    requires
        precedes(a, b),
        precedes(b, c),
    ensures
        precedes(a, c),
    decreases a.len(),
{
    if a.len() > 0 && b.len() > 0 && c.len() > 0 && a[0] == b[0] && b[0] == c[0] {
        precedes_is_transitive(a.skip(1), b.skip(1), c.skip(1));
    }
}

/// Whether `a` comes before `b`.
pub fn comes_before(a: &str, b: &str) -> (before: bool)
    ensures
        before == precedes(a@, b@),
{
    let left = chars_of(a);
    let right = chars_of(b);
    let mut i: usize = 0;
    assert(a@.skip(0) =~= a@);
    assert(b@.skip(0) =~= b@);
    while i < left.len() && i < right.len()
        invariant
            i <= left.len(),
            i <= right.len(),
            left@ == a@,
            right@ == b@,
            precedes(a@, b@) == precedes(a@.skip(i as int), b@.skip(i as int)),
        decreases left.len() - i,
    {
        if left[i] != right[i] {
            return left[i] < right[i];
        }
        assert(a@.skip(i as int).skip(1) =~= a@.skip(i + 1));
        assert(b@.skip(i as int).skip(1) =~= b@.skip(i + 1));
        i = i + 1;
    }
    i < right.len()
}

/// The parts of `text` between the characters `at`. There is one more of them
/// than there are such characters.
pub open spec fn split(text: Seq<char>, at: char) -> Seq<Seq<char>>
    decreases text.len(),
{
    if text.len() == 0 {
        seq![Seq::empty()]
    } else {
        let parts = split(text.drop_last(), at);
        if text.last() == at {
            parts.push(Seq::empty())
        } else {
            parts.drop_last().push(parts.last().push(text.last()))
        }
    }
}

/// What `parts` hold.
pub open spec fn views(parts: Seq<String>) -> Seq<Seq<char>> {
    parts.map_values(|part: String| part@)
}

/// Splits `text` at every `at`.
pub fn split_at_each(text: &str, at: char) -> (parts: Vec<String>)
    ensures
        views(parts@) == split(text@, at),
        parts.len() > 0,
{
    let chars = chars_of(text);
    let mut parts: Vec<String> = Vec::new();
    let mut part: String = String::new();
    let mut i: usize = 0;
    assert(text@.take(0) =~= Seq::empty());
    assert(views(parts@).push(part@) =~= seq![Seq::<char>::empty()]);
    while i < chars.len()
        invariant
            i <= chars.len(),
            chars@ == text@,
            split(text@.take(i as int), at) == views(parts@).push(part@),
        decreases chars.len() - i,
    {
        let ghost before = views(parts@).push(part@);
        assert(text@.take(i + 1).drop_last() =~= text@.take(i as int));
        assert(before.drop_last() =~= views(parts@));
        if chars[i] == at {
            let mut next: String = String::new();
            std::mem::swap(&mut next, &mut part);
            parts.push(next);
            assert(views(parts@) =~= before);
        } else {
            part.push(chars[i]);
        }
        i = i + 1;
    }
    assert(text@.take(i as int) =~= text@);
    let ghost before = views(parts@).push(part@);
    parts.push(part);
    assert(views(parts@) =~= before);
    parts
}

/// `line` without a carriage return at its end.
pub open spec fn without_return(line: Seq<char>) -> Seq<char> {
    if line.len() > 0 && line.last() == '\r' {
        line.drop_last()
    } else {
        line
    }
}

/// The lines of `text`. A line ends at a newline, and a carriage return just
/// before the newline belongs to the line ending. The last line needs none.
pub open spec fn lines(text: Seq<char>) -> Seq<Seq<char>> {
    let parts = split(text, '\n');
    let whole = parts.drop_last().map_values(|line: Seq<char>| without_return(line));
    if parts.last().len() == 0 {
        whole
    } else {
        whole.push(parts.last())
    }
}

/// Splits `text` into its lines.
pub fn lines_of(text: &str) -> (out: Vec<String>)
    ensures
        views(out@) == lines(text@),
{
    let parts = split_at_each(text, '\n');
    let ghost all = split(text@, '\n');
    let ghost whole = all.drop_last().map_values(|line: Seq<char>| without_return(line));
    let mut out: Vec<String> = Vec::new();
    let mut i: usize = 0;
    while i < parts.len() - 1
        invariant
            parts.len() > 0,
            i <= parts.len() - 1,
            views(parts@) == all,
            whole == all.drop_last().map_values(|line: Seq<char>| without_return(line)),
            views(out@) == whole.take(i as int),
        decreases parts.len() - i,
    {
        assert(parts@[i as int]@ == all[i as int]);
        let chars = chars_of(parts[i].as_str());
        let end: usize = if chars.len() > 0 && chars[chars.len() - 1] == '\r' {
            chars.len() - 1
        } else {
            chars.len()
        };
        let line = copy_range(&chars, 0, end);
        assert(line@ =~= without_return(all[i as int]));
        let ghost before = views(out@);
        out.push(text_of(line.as_slice()));
        assert(views(out@) =~= before.push(line@));
        assert(whole.take(i + 1) =~= whole.take(i as int).push(whole[i as int]));
        i = i + 1;
    }
    assert(whole.take(i as int) =~= whole);
    assert(parts@[i as int]@ == all[i as int]);
    if !parts[i].as_str().is_empty() {
        let ghost before = views(out@);
        out.push(copied(parts[i].as_str()));
        assert(views(out@) =~= before.push(all.last()));
    }
    out
}

/// `parts` in a row with `between` between them.
pub open spec fn join(parts: Seq<Seq<char>>, between: Seq<char>) -> Seq<char>
    decreases parts.len(),
{
    if parts.len() == 0 {
        Seq::empty()
    } else if parts.len() == 1 {
        parts[0]
    } else {
        join(parts.drop_last(), between) + between + parts.last()
    }
}

/// What `text` holds, if there is one.
pub open spec fn opt_view(text: Option<String>) -> Option<Seq<char>> {
    match text {
        Some(text) => Some(text@),
        None => None,
    }
}

/// Appends `more` to `out`.
pub fn push_chars(out: &mut Vec<char>, more: &Vec<char>)
    ensures
        final(out)@ == old(out)@ + more@,
{
    let ghost start = out@;
    let mut i: usize = 0;
    assert(out@ =~= start + more@.take(0));
    while i < more.len()
        invariant
            i <= more.len(),
            out@ == start + more@.take(i as int),
        decreases more.len() - i,
    {
        out.push(more[i]);
        i = i + 1;
    }
    assert(more@.take(i as int) =~= more@);
}

} // verus!
