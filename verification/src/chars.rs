//! Character classes, and the elements of a character sequence.

use vstd::prelude::*;

verus! {

/// The element at `at`; the null character out of range, so that two offsets
/// out of range compare equal.
pub open spec fn element(s: Seq<char>, at: int) -> char {
    if 0 <= at < s.len() {
        s[at]
    } else {
        '\0'
    }
}

/// The scalar value of a character.
pub open spec fn code(c: char) -> int {
    c as int
}

pub fn char_code(c: char) -> (value: i64)
    ensures
        value == code(c),
{
    c as u32 as i64
}

pub open spec fn lower_code(code: int) -> bool {
    97 <= code <= 122
}

pub open spec fn upper_code(code: int) -> bool {
    65 <= code <= 90
}

pub open spec fn digit_code(code: int) -> bool {
    48 <= code <= 57
}

/// ASCII letters and digits make up words.
pub open spec fn word_code(code: int) -> bool {
    lower_code(code) || upper_code(code) || digit_code(code)
}

pub open spec fn word_char(c: char) -> bool {
    word_code(code(c))
}

pub fn is_word_char(code: i64) -> (word: bool)
    ensures
        word == word_code(code as int),
{
    (97 <= code && code <= 122) || (65 <= code && code <= 90) || (48 <= code && code <= 57)
}

/// The scalar values that count as spacing between words: every space
/// separator, tab, vertical tab, form feed, the two Unicode line breaks and the
/// byte order mark.
pub open spec fn space_code(code: int) -> bool {
    ||| code == 32 || code == 9 || code == 11 || code == 12
    ||| code == 0xa0 || code == 0x1680 || 0x2000 <= code <= 0x200a
    ||| code == 0x2028 || code == 0x2029 || code == 0x202f
    ||| code == 0x205f || code == 0x3000 || code == 0xfeff
}

pub fn is_space_code(code: i64) -> (space: bool)
    ensures
        space == space_code(code as int),
{
    code == 32 || code == 9 || code == 11 || code == 12 || code == 0xa0 || code == 0x1680 || (0x2000
        <= code && code <= 0x200a) || code == 0x2028 || code == 0x2029 || code == 0x202f || code
        == 0x205f || code == 0x3000 || code == 0xfeff
}

/// The boundary category of a scalar value, `-1` standing for the end of the
/// sequence: 0 lower case, 1 upper case, 2 digit, 3 end, 4 other, 5 separator,
/// 6 space, 7 carriage return, 8 line feed.
pub open spec fn category(code: int) -> int {
    if code == 10 {
        8
    } else if code == 13 {
        7
    } else if space_code(code) {
        6
    } else if lower_code(code) {
        0
    } else if upper_code(code) {
        1
    } else if digit_code(code) {
        2
    } else if code == -1 {
        3
    } else if code == 44 || code == 59 {
        5
    } else {
        4
    }
}

pub fn boundary_category(code: i64) -> (cat: i64)
    ensures
        cat == category(code as int),
        0 <= cat <= 8,
{
    if code == 10 {
        8
    } else if code == 13 {
        7
    } else if is_space_code(code) {
        6
    } else if 97 <= code && code <= 122 {
        0
    } else if 65 <= code && code <= 90 {
        1
    } else if 48 <= code && code <= 57 {
        2
    } else if code == -1 {
        3
    } else if code == 44 || code == 59 {
        5
    } else {
        4
    }
}

/// How well a change may start or end next to a character of a category.
pub open spec fn category_weight(cat: int) -> int {
    if cat == 3 || cat == 7 || cat == 8 {
        10
    } else if cat == 4 {
        2
    } else if cat == 5 {
        30
    } else if cat == 6 {
        3
    } else {
        0
    }
}

pub fn category_boundary(cat: i64) -> (weight: i64)
    ensures
        weight == category_weight(cat as int),
        0 <= weight <= 30,
{
    if cat == 3 || cat == 7 || cat == 8 {
        10
    } else if cat == 4 {
        2
    } else if cat == 5 {
        30
    } else if cat == 6 {
        3
    } else {
        0
    }
}

/// The Unicode property `White_Space`.
pub open spec fn white(c: char) -> bool {
    let code = code(c);
    ||| 9 <= code <= 13 || code == 32 || code == 0x85 || code == 0xa0
    ||| code == 0x1680 || 0x2000 <= code <= 0x200a || code == 0x2028
    ||| code == 0x2029 || code == 0x202f || code == 0x205f || code == 0x3000
}

pub fn is_whitespace(c: char) -> (white_space: bool)
    ensures
        white_space == white(c),
{
    let code: i64 = char_code(c);
    (9 <= code && code <= 13) || code == 32 || code == 0x85 || code == 0xa0 || code == 0x1680 || (
    0x2000 <= code && code <= 0x200a) || code == 0x2028 || code == 0x2029 || code == 0x202f || code
        == 0x205f || code == 0x3000
}

/// A sequence without its leading white space.
pub open spec fn trim_start(s: Seq<char>) -> Seq<char>
    decreases s.len(),
{
    if s.len() > 0 && white(s[0]) {
        trim_start(s.drop_first())
    } else {
        s
    }
}

/// A sequence without its trailing white space.
pub open spec fn trim_end(s: Seq<char>) -> Seq<char>
    decreases s.len(),
{
    if s.len() > 0 && white(s.last()) {
        trim_end(s.drop_last())
    } else {
        s
    }
}

/// A sequence without the white space around it.
pub open spec fn trim(s: Seq<char>) -> Seq<char> {
    trim_end(trim_start(s))
}

/// The offsets between which `chars` is left when its surrounding white space
/// is taken off.
pub fn trim_bounds(chars: &[char]) -> (bounds: (usize, usize))
    ensures
        bounds.0 <= bounds.1 <= chars@.len(),
        chars@.subrange(bounds.0 as int, bounds.1 as int) == trim(chars@),
{
    let mut start: usize = 0;
    let n: usize = chars.len();
    assert(chars@.subrange(0, n as int) =~= chars@);
    while start < n && is_whitespace(chars[start])
        invariant
            start <= n == chars@.len(),
            trim_start(chars@) == trim_start(chars@.subrange(start as int, n as int)),
        decreases n - start,
    {
        assert(chars@.subrange(start as int, n as int).drop_first() =~= chars@.subrange(
            start + 1,
            n as int,
        ));
        start = start + 1;
    }
    let ghost rest = chars@.subrange(start as int, n as int);
    assert(trim_start(chars@) == rest);
    let mut end: usize = n;
    while end > start && is_whitespace(chars[end - 1])
        invariant
            start <= end <= n == chars@.len(),
            trim_end(rest) == trim_end(chars@.subrange(start as int, end as int)),
        decreases end,
    {
        assert(chars@.subrange(start as int, end as int).drop_last() =~= chars@.subrange(
            start as int,
            end - 1,
        ));
        end = end - 1;
    }
    (start, end)
}

/// The characters of a string, one by one.
pub fn chars_of(s: &str) -> (chars: Vec<char>)
    ensures
        chars@ == s@,
{
    let mut chars: Vec<char> = Vec::new();
    for c in it: s.chars()
        invariant
            chars@ == it.seq().take(it.index() as int),
            it.seq() == s@,
    {
        assert(it.seq().take(it.index() + 1) =~= it.seq().take(it.index() as int).push(
            it.seq()[it.index() as int],
        ));
        chars.push(c);
    }
    assert(s@.take(s@.len() as int) =~= s@);
    chars
}

} // verus!
