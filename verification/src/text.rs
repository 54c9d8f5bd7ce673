//! Source text as bytes: comparison, search and white-space scanning.
//!
//! Spans are byte offsets, so every operation here is stated over `Seq<u8>`.

use vstd::prelude::*;

verus! {

/// The byte `,`.
pub const COMMA: u8 = 0x2C;

/// The byte of a plain space.
pub const SPACE: u8 = 0x20;

/// The byte of a line feed.
pub const LINE_FEED: u8 = 0x0A;

/// `pattern` stands in `text` at offset `at`.
pub open spec fn occurs_at(text: Seq<u8>, pattern: Seq<u8>, at: int) -> bool {
    &&& 0 <= at
    &&& at + pattern.len() <= text.len()
    &&& text.subrange(at, at + pattern.len()) == pattern
}

/// The byte strings that a list of owned texts holds.
pub open spec fn texts_of(list: Seq<Vec<u8>>) -> Seq<Seq<u8>> {
    list.map_values(|t: Vec<u8>| t@)
}

/// The parts in order, with `separator` between each two.
pub open spec fn joined(parts: Seq<Seq<u8>>, separator: Seq<u8>) -> Seq<u8>
    decreases parts.len(),
{
    if parts.len() == 0 {
        Seq::empty()
    } else if parts.len() == 1 {
        parts[0]
    } else {
        joined(parts.drop_last(), separator) + separator + parts.last()
    }
}

/// One-byte white space: tab, line feed, vertical tab, form feed, carriage
/// return and space.
pub open spec fn is_narrow_whitespace(b: u8) -> bool {
    (0x09 <= b && b <= 0x0D) || b == 0x20
}

/// Two-byte white space: U+0085 and U+00A0.
pub open spec fn is_medium_whitespace(b0: u8, b1: u8) -> bool {
    b0 == 0xC2 && (b1 == 0x85 || b1 == 0xA0)
}

/// Three-byte white space: U+1680, U+2000 to U+200A, U+2028, U+2029, U+202F,
/// U+205F and U+3000.
pub open spec fn is_wide_whitespace(b0: u8, b1: u8, b2: u8) -> bool {
    ||| (b0 == 0xE1 && b1 == 0x9A && b2 == 0x80)
    ||| (b0 == 0xE2 && b1 == 0x80 && ((0x80 <= b2 && b2 <= 0x8A) || b2 == 0xA8 || b2 == 0xA9 || b2
        == 0xAF))
    ||| (b0 == 0xE2 && b1 == 0x81 && b2 == 0x9F)
    ||| (b0 == 0xE3 && b1 == 0x80 && b2 == 0x80)
}

/// Width in bytes of the white-space character whose UTF-8 encoding starts at
/// `at`, and 0 where none starts there. White space is every character with
/// the Unicode property White_Space.
pub open spec fn whitespace_width(text: Seq<u8>, at: int) -> int {
    if at < 0 || at >= text.len() {
        0
    } else if is_narrow_whitespace(text[at]) {
        1
    } else if at + 1 < text.len() && is_medium_whitespace(text[at], text[at + 1]) {
        2
    } else if at + 2 < text.len() && is_wide_whitespace(text[at], text[at + 1], text[at + 2]) {
        3
    } else {
        0
    }
}

/// Width in bytes of the white-space character whose UTF-8 encoding ends just
/// before `at`, and 0 where none ends there.
pub open spec fn whitespace_width_before(text: Seq<u8>, at: int) -> int {
    if at <= 0 || at > text.len() {
        0
    } else if is_narrow_whitespace(text[at - 1]) {
        1
    } else if at >= 2 && is_medium_whitespace(text[at - 2], text[at - 1]) {
        2
    } else if at >= 3 && is_wide_whitespace(text[at - 3], text[at - 2], text[at - 1]) {
        3
    } else {
        0
    }
}

/// The offset reached from `from` by stepping forward over white space.
pub open spec fn skip_whitespace(text: Seq<u8>, from: int) -> int
    decreases text.len() - from,
{
    if whitespace_width(text, from) > 0 {
        skip_whitespace(text, from + whitespace_width(text, from))
    } else {
        from
    }
}

/// The offset reached from `from` by stepping backward over white space.
pub open spec fn skip_whitespace_back(text: Seq<u8>, from: int) -> int
    decreases from,
{
    if whitespace_width_before(text, from) > 0 {
        skip_whitespace_back(text, from - whitespace_width_before(text, from))
    } else {
        from
    }
}

/// The offset reached from `from` by stepping forward over plain spaces.
pub open spec fn skip_spaces(text: Seq<u8>, from: int) -> int
    decreases text.len() - from,
{
    if 0 <= from < text.len() && text[from] == SPACE {
        skip_spaces(text, from + 1)
    } else {
        from
    }
}

/// Stepping forward over white space stays inside the text.
pub proof fn lemma_skip_whitespace_bounds(text: Seq<u8>, from: int)
    requires
        0 <= from <= text.len(),
    ensures
        from <= skip_whitespace(text, from) <= text.len(),
    decreases text.len() - from,
{
    if whitespace_width(text, from) > 0 {
        lemma_skip_whitespace_bounds(text, from + whitespace_width(text, from));
    }
}

/// Stepping backward over white space stays inside the text.
pub proof fn lemma_skip_whitespace_back_bounds(text: Seq<u8>, from: int)
    requires
        0 <= from <= text.len(),
    ensures
        0 <= skip_whitespace_back(text, from) <= from,
    decreases from,
{
    if whitespace_width_before(text, from) > 0 {
        lemma_skip_whitespace_back_bounds(text, from - whitespace_width_before(text, from));
    }
}

/// Stepping forward over plain spaces stays inside the text.
pub proof fn lemma_skip_spaces_bounds(text: Seq<u8>, from: int)
    requires
        0 <= from <= text.len(),
    ensures
        from <= skip_spaces(text, from) <= text.len(),
    decreases text.len() - from,
{
    if from < text.len() && text[from] == SPACE {
        lemma_skip_spaces_bounds(text, from + 1);
    }
}

/// Whether two byte strings are equal.
pub fn bytes_equal(a: &[u8], b: &[u8]) -> (same: bool)
    ensures
        same == (a@ == b@),
{
    if a.len() != b.len() {
        return false;
    }
    let mut i: usize = 0;
    while i < a.len()
        invariant
            i <= a.len(),
            a.len() == b.len(),
            forall|k: int| 0 <= k < i ==> a@[k] == b@[k],
        decreases a.len() - i,
    {
        if a[i] != b[i] {
            return false;
        }
        i = i + 1;
    }
    assert(a@ =~= b@);
    true
}

/// Whether `pattern` stands in `text` at offset `at`.
pub fn matches_at(text: &[u8], pattern: &[u8], at: usize) -> (found: bool)
    ensures
        found == occurs_at(text@, pattern@, at as int),
{
    if at > text.len() || pattern.len() > text.len() - at {
        return false;
    }
    let mut i: usize = 0;
    while i < pattern.len()
        invariant
            i <= pattern.len(),
            at + pattern.len() <= text.len(),
            forall|k: int| 0 <= k < i ==> text@[at + k] == pattern@[k],
        decreases pattern.len() - i,
    {
        if text[at + i] != pattern[i] {
            assert(text@.subrange(at as int, at + pattern.len())[i as int] == text@[at + i]);
            return false;
        }
        i = i + 1;
    }
    assert(text@.subrange(at as int, at + pattern.len()) =~= pattern@);
    true
}

/// Whether `name` is one of `names`.
pub fn contains_name(names: &Vec<Vec<u8>>, name: &[u8]) -> (found: bool)
    ensures
        found == texts_of(names@).contains(name@),
{
    let mut i: usize = 0;
    while i < names.len()
        invariant
            i <= names.len(),
            forall|k: int| 0 <= k < i ==> texts_of(names@)[k] != name@,
        decreases names.len() - i,
    {
        if bytes_equal(names[i].as_slice(), name) {
            assert(texts_of(names@)[i as int] == name@);
            return true;
        }
        i = i + 1;
    }
    false
}

/// Appends `tail` to `text`.
pub fn append_bytes(text: &mut Vec<u8>, tail: &[u8])
    ensures
        final(text)@ == old(text)@ + tail@,
{
    let mut i: usize = 0;
    while i < tail.len()
        invariant
            i <= tail.len(),
            text@ == old(text)@ + tail@.take(i as int),
        decreases tail.len() - i,
    {
        text.push(tail[i]);
        assert(tail@.take(i + 1) == tail@.take(i as int).push(tail@[i as int]));
        i = i + 1;
    }
    assert(tail@.take(i as int) == tail@);
}

/// Joins `parts` with `separator` between each two.
pub fn join_texts(parts: &Vec<Vec<u8>>, separator: &[u8]) -> (out: Vec<u8>)
    ensures
        out@ == joined(texts_of(parts@), separator@),
{
    let mut out: Vec<u8> = Vec::new();
    let mut i: usize = 0;
    assert(texts_of(parts@).take(0) =~= Seq::<Seq<u8>>::empty());
    while i < parts.len()
        invariant
            i <= parts.len(),
            out@ == joined(texts_of(parts@).take(i as int), separator@),
        decreases parts.len() - i,
    {
        let ghost front = texts_of(parts@).take(i + 1);
        assert(front.drop_last() =~= texts_of(parts@).take(i as int));
        assert(front.last() == parts@[i as int]@);
        if i > 0 {
            append_bytes(&mut out, separator);
        }
        append_bytes(&mut out, parts[i].as_slice());
        assert(out@ =~= joined(front, separator@));
        i = i + 1;
    }
    assert(texts_of(parts@).take(i as int) =~= texts_of(parts@));
    out
}

/// Width of the white-space character that starts at `at`, or 0.
pub fn whitespace_width_at(text: &[u8], at: usize) -> (width: usize)
    ensures
        width == whitespace_width(text@, at as int),
{
    if at >= text.len() {
        return 0;
    }
    let b0 = text[at];
    if (0x09 <= b0 && b0 <= 0x0D) || b0 == 0x20 {
        return 1;
    }
    if text.len() - at >= 2 {
        let b1 = text[at + 1];
        if b0 == 0xC2 && (b1 == 0x85 || b1 == 0xA0) {
            return 2;
        }
        if text.len() - at >= 3 {
            let b2 = text[at + 2];
            if wide_whitespace(b0, b1, b2) {
                return 3;
            }
        }
    }
    0
}

/// Width of the white-space character that ends just before `at`, or 0.
pub fn whitespace_width_ending_at(text: &[u8], at: usize) -> (width: usize)
    ensures
        width == whitespace_width_before(text@, at as int),
{
    if at == 0 || at > text.len() {
        return 0;
    }
    let b2 = text[at - 1];
    if (0x09 <= b2 && b2 <= 0x0D) || b2 == 0x20 {
        return 1;
    }
    if at >= 2 {
        let b1 = text[at - 2];
        if b1 == 0xC2 && (b2 == 0x85 || b2 == 0xA0) {
            return 2;
        }
        if at >= 3 {
            let b0 = text[at - 3];
            if wide_whitespace(b0, b1, b2) {
                return 3;
            }
        }
    }
    0
}

fn wide_whitespace(b0: u8, b1: u8, b2: u8) -> (wide: bool)
    ensures
        wide == is_wide_whitespace(b0, b1, b2),
{
    (b0 == 0xE1 && b1 == 0x9A && b2 == 0x80) || (b0 == 0xE2 && b1 == 0x80 && ((0x80 <= b2 && b2
        <= 0x8A) || b2 == 0xA8 || b2 == 0xA9 || b2 == 0xAF)) || (b0 == 0xE2 && b1 == 0x81 && b2
        == 0x9F) || (b0 == 0xE3 && b1 == 0x80 && b2 == 0x80)
}

/// Steps forward from `from` over white space.
pub fn skip_whitespace_from(text: &[u8], from: usize) -> (at: usize)
    requires
        from <= text.len(),
    ensures
        at == skip_whitespace(text@, from as int),
        from <= at <= text.len(),
{
    let mut at = from;
    loop
        invariant
            from <= at <= text.len(),
            skip_whitespace(text@, from as int) == skip_whitespace(text@, at as int),
        decreases text.len() - at,
    {
        let width = whitespace_width_at(text, at);
        if width == 0 {
            return at;
        }
        at = at + width;
    }
}

/// Steps backward from `from` over white space.
pub fn skip_whitespace_back_from(text: &[u8], from: usize) -> (at: usize)
    requires
        from <= text.len(),
    ensures
        at == skip_whitespace_back(text@, from as int),
        at <= from,
{
    let mut at = from;
    loop
        invariant
            at <= from <= text.len(),
            skip_whitespace_back(text@, from as int) == skip_whitespace_back(text@, at as int),
        decreases at,
    {
        let width = whitespace_width_ending_at(text, at);
        if width == 0 {
            return at;
        }
        at = at - width;
    }
}

/// Steps forward from `from` over plain spaces.
pub fn skip_spaces_from(text: &[u8], from: usize) -> (at: usize)
    requires
        from <= text.len(),
    ensures
        at == skip_spaces(text@, from as int),
        from <= at <= text.len(),
{
    let mut at = from;
    while at < text.len() && text[at] == SPACE
        invariant
            from <= at <= text.len(),
            skip_spaces(text@, from as int) == skip_spaces(text@, at as int),
        decreases text.len() - at,
    {
        at = at + 1;
    }
    at
}

} // verus!
