//! Text helpers: trimming, splitting, comparing and decimal digits.

use vstd::prelude::*;
use vstd::string::*;
use vstd::utf8::*;

verus! {

/// Appends one character to a `String`.
pub assume_specification[ String::push ](s: &mut String, c: char)
    ensures
        final(s)@ == old(s)@.push(c),
;

/// The Unicode `White_Space` property.
pub open spec fn white_space(c: char) -> bool {
    ||| '\u{9}' <= c <= '\u{d}'
    ||| c == ' '
    ||| c == '\u{85}'
    ||| c == '\u{a0}'
    ||| c == '\u{1680}'
    ||| '\u{2000}' <= c <= '\u{200a}'
    ||| c == '\u{2028}'
    ||| c == '\u{2029}'
    ||| c == '\u{202f}'
    ||| c == '\u{205f}'
    ||| c == '\u{3000}'
}

/// `s` without its leading white space.
pub open spec fn trimmed_start(s: Seq<char>) -> Seq<char>
    decreases s.len(),
{
    if s.len() > 0 && white_space(s[0]) {
        trimmed_start(s.skip(1))
    } else {
        s
    }
}

/// `s` without its trailing white space.
pub open spec fn trimmed_end(s: Seq<char>) -> Seq<char>
    decreases s.len(),
{
    if s.len() > 0 && white_space(s.last()) {
        trimmed_end(s.drop_last())
    } else {
        s
    }
}

/// `s` without the white space on either side.
pub open spec fn trimmed(s: Seq<char>) -> Seq<char> {
    trimmed_end(trimmed_start(s))
}

pub fn is_white_space(c: char) -> (r: bool)
    ensures
        r == white_space(c),
{
    ('\u{9}' <= c && c <= '\u{d}') || c == ' ' || c == '\u{85}' || c == '\u{a0}' || c == '\u{1680}'
        || ('\u{2000}' <= c && c <= '\u{200a}') || c == '\u{2028}' || c == '\u{2029}'
        || c == '\u{202f}' || c == '\u{205f}' || c == '\u{3000}'
}

/// The characters of `s`.
pub fn chars_of(s: &str) -> (r: Vec<char>)
    ensures
        r@ == s@,
{
    let mut out: Vec<char> = Vec::new();
    for c in it: s.chars()
        invariant
            out@ == s@.take(it.index() as int),
            it.seq() == s@,
    {
        out.push(c);
        assert(s@.take(it.index() + 1) == s@.take(it.index() as int).push(c));
    }
    assert(s@.take(s@.len() as int) == s@);
    out
}

/// The string made of `chars`.
pub fn string_of(chars: &[char]) -> (r: String)
    ensures
        r@ == chars@,
{
    let mut out = String::new();
    let mut i: usize = 0;
    while i < chars.len()
        invariant
            i <= chars@.len(),
            out@ == chars@.take(i as int),
        decreases chars@.len() - i,
    {
        out.push(chars[i]);
        i = i + 1;
        assert(chars@.take(i as int) == chars@.take(i - 1).push(chars@[i - 1]));
    }
    assert(chars@.take(i as int) == chars@);
    out
}

/// Removes the white space on either side of `s`.
pub fn trim<'a>(s: &'a str) -> (r: &'a str)
    ensures
        r@ == trimmed(s@),
{
    let chars = chars_of(s);
    let mut from: usize = 0;
    assert(chars@.skip(0) == chars@);
    while from < chars.len() && is_white_space(chars[from])
        invariant
            from <= chars@.len(),
            trimmed_start(chars@.skip(from as int)) == trimmed_start(chars@),
        decreases chars@.len() - from,
    {
        assert(chars@.skip(from as int).skip(1) == chars@.skip(from + 1));
        from = from + 1;
    }
    let ghost started = chars@.skip(from as int);
    let mut to: usize = chars.len();
    assert(started == chars@.subrange(from as int, to as int));
    while from < to && is_white_space(chars[to - 1])
        invariant
            from <= to <= chars@.len(),
            trimmed_end(chars@.subrange(from as int, to as int)) == trimmed_end(started),
        decreases to,
    {
        assert(chars@.subrange(from as int, to as int).drop_last() == chars@.subrange(
            from as int,
            to - 1,
        ));
        to = to - 1;
    }
    s.substring_char(from, to)
}

/// Whether two texts are the same.
pub fn same_text(a: &str, b: &str) -> (r: bool)
    ensures
        r == (a@ == b@),
{
    let r = same_bytes(a.as_bytes(), b.as_bytes());
    proof {
        encode_utf8_decode_utf8(a@);
        encode_utf8_decode_utf8(b@);
    }
    r
}

/// Whether two byte sequences are the same.
pub fn same_bytes(a: &[u8], b: &[u8]) -> (r: bool)
    ensures
        r == (a@ == b@),
{
    if a.len() != b.len() {
        return false;
    }
    let mut i: usize = 0;
    while i < a.len()
        invariant
            i <= a@.len() == b@.len(),
            forall|k: int| 0 <= k < i ==> a@[k] == b@[k],
        decreases a@.len() - i,
    {
        if a[i] != b[i] {
            return false;
        }
        i = i + 1;
    }
    assert(a@ == b@);
    true
}

/// Whether two character sequences are the same.
pub fn same_chars(a: &[char], b: &[char]) -> (r: bool)
    ensures
        r == (a@ == b@),
{
    if a.len() != b.len() {
        return false;
    }
    let mut i: usize = 0;
    while i < a.len()
        invariant
            i <= a@.len() == b@.len(),
            forall|k: int| 0 <= k < i ==> a@[k] == b@[k],
        decreases a@.len() - i,
    {
        if a[i] != b[i] {
            return false;
        }
        i = i + 1;
    }
    assert(a@ == b@);
    true
}

/// Whether `a` comes before `b` when texts are ordered character by character.
pub open spec fn before(a: Seq<char>, b: Seq<char>) -> bool
    decreases a.len(),
{
    if b.len() == 0 {
        false
    } else if a.len() == 0 {
        true
    } else if a[0] == b[0] {
        before(a.skip(1), b.skip(1))
    } else {
        a[0] < b[0]
    }
}

/// Whether `a` comes before `b`, see [`before`].
pub fn comes_before(a: &str, b: &str) -> (r: bool)
    ensures
        r == before(a@, b@),
{
    let left = chars_of(a);
    let right = chars_of(b);
    let mut i: usize = 0;
    assert(left@.skip(0) == left@);
    assert(right@.skip(0) == right@);
    while i < left.len() && i < right.len()
        invariant
            i <= left@.len(),
            i <= right@.len(),
            left@ == a@,
            right@ == b@,
            before(left@, right@) == before(left@.skip(i as int), right@.skip(i as int)),
        decreases left@.len() - i,
    {
        if left[i] != right[i] {
            assert(left@.skip(i as int)[0] == left@[i as int]);
            assert(right@.skip(i as int)[0] == right@[i as int]);
            return left[i] < right[i];
        }
        assert(left@.skip(i as int).skip(1) == left@.skip(i + 1));
        assert(right@.skip(i as int).skip(1) == right@.skip(i + 1));
        i = i + 1;
    }
    i < right.len()
}

/// The order of texts is irreflexive.
pub proof fn before_irreflexive(a: Seq<char>)
    ensures
        !before(a, a),
    decreases a.len(),
{
    if a.len() > 0 {
        before_irreflexive(a.skip(1));
    }
}

/// The order of texts is transitive.
pub proof fn before_transitive(a: Seq<char>, b: Seq<char>, c: Seq<char>)
    requires
        before(a, b),
        before(b, c),
    ensures
        before(a, c),
    decreases a.len(),
{
    if a.len() > 0 && a[0] == b[0] && b[0] == c[0] {
        before_transitive(a.skip(1), b.skip(1), c.skip(1));
    }
}

/// Of two different texts one comes before the other.
pub proof fn before_total(a: Seq<char>, b: Seq<char>)
    ensures
        before(a, b) || a == b || before(b, a),
    decreases a.len(),
{
    if a.len() > 0 && b.len() > 0 && a[0] == b[0] {
        before_total(a.skip(1), b.skip(1));
        if a.skip(1) == b.skip(1) {
            assert(a == seq![a[0]] + a.skip(1));
            assert(b == seq![b[0]] + b.skip(1));
        }
    } else if a.len() == 0 && b.len() == 0 {
        assert(a == b);
    }
}

/// The parts of `s` between the occurrences of `separator`; always at least one.
pub open spec fn split_at_each(s: Seq<char>, separator: char) -> Seq<Seq<char>>
    decreases s.len(),
{
    if s.len() == 0 {
        seq![Seq::<char>::empty()]
    } else {
        let rest = split_at_each(s.drop_last(), separator);
        if s.last() == separator {
            rest.push(Seq::<char>::empty())
        } else {
            rest.drop_last().push(rest.last().push(s.last()))
        }
    }
}

/// Splits `chars` at every `separator`.
pub fn split(chars: &[char], separator: char) -> (r: Vec<Vec<char>>)
    ensures
        r@.map_values(|part: Vec<char>| part@) == split_at_each(chars@, separator),
        r@.len() > 0,
{
    let mut parts: Vec<Vec<char>> = Vec::new();
    let mut current: Vec<char> = Vec::new();
    let ghost view = |part: Vec<char>| part@;
    let mut i: usize = 0;
    assert(parts@.map_values(view).push(current@) == split_at_each(chars@.take(0), separator));
    while i < chars.len()
        invariant
            i <= chars@.len(),
            view == (|part: Vec<char>| part@),
            parts@.map_values(view).push(current@) == split_at_each(
                chars@.take(i as int),
                separator,
            ),
        decreases chars@.len() - i,
    {
        let c = chars[i];
        let ghost before = parts@.map_values(view).push(current@);
        assert(chars@.take(i + 1).drop_last() == chars@.take(i as int));
        assert(chars@.take(i + 1).last() == c);
        assert(before.last() == current@);
        assert(before.drop_last() == parts@.map_values(view));
        if c == separator {
            parts.push(current);
            current = Vec::new();
            assert(parts@.map_values(view) == before);
        } else {
            current.push(c);
        }
        i = i + 1;
    }
    assert(chars@.take(i as int) == chars@);
    let ghost done = parts@.map_values(view).push(current@);
    parts.push(current);
    assert(parts@.map_values(view) == done);
    parts
}

/// The position of the first `c` in `s`, or the length of `s`.
pub open spec fn index_of(s: Seq<char>, c: char) -> int
    decreases s.len(),
{
    if s.len() == 0 || s[0] == c {
        0
    } else {
        1 + index_of(s.skip(1), c)
    }
}

/// Finds the first `c` in `s`, see [`index_of`].
pub fn find_first(s: &[char], c: char) -> (at: usize)
    ensures
        at == index_of(s@, c),
        at <= s@.len(),
{
    let mut at: usize = 0;
    assert(s@.skip(0) == s@);
    while at < s.len() && s[at] != c
        invariant
            at <= s@.len(),
            index_of(s@, c) == at + index_of(s@.skip(at as int), c),
        decreases s@.len() - at,
    {
        assert(s@.skip(at as int).skip(1) == s@.skip(at + 1));
        at = at + 1;
    }
    assert(at < s@.len() ==> s@.skip(at as int)[0] == c);
    at
}

/// The texts in a list.
pub open spec fn texts(list: Seq<String>) -> Seq<Seq<char>> {
    list.map_values(|text: String| text@)
}

/// The names in a list.
pub open spec fn name_set(names: Seq<String>) -> Set<Seq<char>> {
    Set::new(|name: Seq<char>| exists|i: int| 0 <= i < names.len() && (#[trigger] names[i])@ == name)
}

/// Views an optional text.
pub open spec fn text_view(text: Option<String>) -> Option<Seq<char>> {
    match text {
        Some(text) => Some(text@),
        None => None,
    }
}

/// The decimal digits of `n`.
pub open spec fn digits(n: nat) -> Seq<char>
    decreases n,
{
    if n < 10 {
        seq![(n + 48) as char]
    } else {
        digits(n / 10).push((n % 10 + 48) as char)
    }
}

/// A decimal number consists of digits.
pub proof fn digits_are_digits(n: nat)
    ensures
        digits(n).len() > 0,
        forall|i: int| 0 <= i < digits(n).len() ==> '0' <= #[trigger] digits(n)[i] <= '9',
    decreases n,
{
    if n >= 10 {
        digits_are_digits(n / 10);
    }
}

/// Writes `n` in decimal.
pub fn decimal(n: u64) -> (r: String)
    ensures
        r@ == digits(n as nat),
    decreases n,
{
    if n < 10 {
        let mut out = String::new();
        out.push((n as u8 + 48) as char);
        assert(out@ == digits(n as nat));
        out
    } else {
        let mut out = decimal(n / 10);
        out.push(((n % 10) as u8 + 48) as char);
        out
    }
}

/// ASCII letters in lower case, every other character as it is.
pub open spec fn lower(c: char) -> char {
    if 'A' <= c <= 'Z' {
        (c as u32 + 32) as char
    } else {
        c
    }
}

pub open spec fn lowered(s: Seq<char>) -> Seq<char> {
    s.map_values(|c: char| lower(c))
}

/// Whether `s` starts with `prefix`.
pub open spec fn starts_with(s: Seq<char>, prefix: Seq<char>) -> bool {
    prefix.len() <= s.len() && s.take(prefix.len() as int) == prefix
}

/// `c` in lower case when it is an ASCII letter.
pub fn to_lower(c: char) -> (r: char)
    ensures
        r == lower(c),
{
    if 'A' <= c && c <= 'Z' {
        (c as u8 + 32) as char
    } else {
        c
    }
}

/// White space is what has the Unicode property of that name, code point by code point.
pub proof fn white_space_by_code_point(c: char)
    ensures
        white_space(c) <==> ({
            let code = c as u32;
            ||| 9 <= code <= 13
            ||| code == 32
            ||| code == 0x85
            ||| code == 0xa0
            ||| code == 0x1680
            ||| 0x2000 <= code <= 0x200a
            ||| code == 0x2028
            ||| code == 0x2029
            ||| code == 0x202f
            ||| code == 0x205f
            ||| code == 0x3000
        }),
{
}

/// Trimming takes white space off either end and nothing else: what is left is a part of the text,
/// character for character, with white space alone around it and none at its own ends.
pub proof fn trimming_takes_white_space_alone(s: Seq<char>)
    ensures
        exists|i: int, j: int|
            {
                &&& 0 <= i <= j <= s.len()
                &&& trimmed(s) == #[trigger] s.subrange(i, j)
                &&& forall|k: int| 0 <= k < i ==> white_space(#[trigger] s[k])
                &&& forall|k: int| j <= k < s.len() ==> white_space(#[trigger] s[k])
                &&& i < j ==> !white_space(s[i]) && !white_space(s[j - 1])
            },
{
    let i = started_at(s);
    let rest = trimmed_start(s);
    let n = ended_at(rest);
    assert(rest == s.subrange(i, s.len() as int));
    assert(trimmed(s) == s.subrange(i, i + n));
    assert forall|k: int| i + n <= k < s.len() implies white_space(#[trigger] s[k]) by {
        assert(rest[k - i] == s[k]);
    }
    if n > 0 {
        assert(rest[n - 1] == s[i + n - 1]);
        assert(rest[0] == s[i]);
    }
}

/// Where a text starts behind its leading white space.
proof fn started_at(s: Seq<char>) -> (i: int)
    ensures
        0 <= i <= s.len(),
        trimmed_start(s) == s.skip(i),
        forall|k: int| 0 <= k < i ==> white_space(#[trigger] s[k]),
        i < s.len() ==> !white_space(s[i]),
    decreases s.len(),
{
    if s.len() > 0 && white_space(s[0]) {
        let i = started_at(s.skip(1));
        assert(s.skip(1).skip(i) == s.skip(i + 1));
        assert forall|k: int| 0 <= k < i + 1 implies white_space(#[trigger] s[k]) by {
            if k > 0 {
                assert(s.skip(1)[k - 1] == s[k]);
            }
        }
        i + 1
    } else {
        assert(s.skip(0) == s);
        0
    }
}

/// Where a text ends before its trailing white space.
proof fn ended_at(s: Seq<char>) -> (n: int)
    ensures
        0 <= n <= s.len(),
        trimmed_end(s) == s.take(n),
        forall|k: int| n <= k < s.len() ==> white_space(#[trigger] s[k]),
        n > 0 ==> !white_space(s[n - 1]),
    decreases s.len(),
{
    if s.len() > 0 && white_space(s.last()) {
        let n = ended_at(s.drop_last());
        assert(s.drop_last().take(n) == s.take(n));
        assert forall|k: int| n <= k < s.len() implies white_space(#[trigger] s[k]) by {
            if k < s.len() - 1 {
                assert(s.drop_last()[k] == s[k]);
            }
        }
        n
    } else {
        assert(s.take(s.len() as int) == s);
        s.len() as int
    }
}

/// A text between white space is what trimming leaves, character for character.
pub proof fn trimming_leaves_the_middle(left: Seq<char>, middle: Seq<char>, right: Seq<char>)
    requires
        forall|i: int| 0 <= i < left.len() ==> white_space(#[trigger] left[i]),
        forall|i: int| 0 <= i < right.len() ==> white_space(#[trigger] right[i]),
        middle.len() > 0,
        !white_space(middle[0]),
        !white_space(middle.last()),
    ensures
        trimmed(left + middle + right) == middle,
{
    let all = left + middle + right;
    let i = started_at(all);
    if i < left.len() {
        assert(all[i] == left[i]);
    }
    if i > left.len() {
        assert(all[left.len() as int] == middle[0]);
    }
    let rest = trimmed_start(all);
    assert(rest == middle + right);
    let n = ended_at(rest);
    if n > middle.len() {
        assert(rest[n - 1] == right[n - 1 - middle.len()]);
    }
    if n < middle.len() {
        assert(rest[middle.len() - 1] == middle.last());
    }
    assert(rest.take(n) == middle);
}

/// A text of white space alone leaves nothing when it is trimmed.
pub proof fn trimming_leaves_nothing_of_white_space(s: Seq<char>)
    requires
        forall|i: int| 0 <= i < s.len() ==> white_space(#[trigger] s[i]),
    ensures
        trimmed(s).len() == 0,
{
    let i = started_at(s);
    let n = ended_at(trimmed_start(s));
}

/// Lower case concerns the letters from A to Z alone, and no character comes or goes.
pub proof fn lower_case_concerns_ascii_letters(s: Seq<char>)
    ensures
        lowered(s).len() == s.len(),
        forall|i: int|
            #![trigger lowered(s)[i]]
            0 <= i < s.len() ==> lowered(s)[i] as u32 == (if 65 <= s[i] as u32 <= 90 {
                s[i] as int + 32
            } else {
                s[i] as int
            }),
{
}

/// Each part of a split text stands between two separators or the ends of the text, and holds none.
pub proof fn parts_stand_between_separators(s: Seq<char>, separator: char, j: int) -> (place: (
    int,
    int,
))
    requires
        0 <= j < split_at_each(s, separator).len(),
    ensures
        ({
            let (from, to) = place;
            &&& 0 <= from <= to <= s.len()
            &&& split_at_each(s, separator)[j] == s.subrange(from, to)
            &&& from == 0 || s[from - 1] == separator
            &&& if j == split_at_each(s, separator).len() - 1 {
                to == s.len()
            } else {
                to < s.len() && s[to] == separator
            }
            &&& forall|k: int| from <= k < to ==> #[trigger] s[k] != separator
        }),
    decreases s.len(),
{
    if s.len() == 0 {
        assert(split_at_each(s, separator)[j] == s.subrange(0, 0));
        (0, 0)
    } else {
        let front = s.drop_last();
        let rest = split_at_each(front, separator);
        split_has_parts(front, separator);
        let last = split_at_each(s, separator).len() - 1;
        if s.last() == separator {
            if j == last {
                assert(split_at_each(s, separator)[j] == s.subrange(s.len() as int, s.len() as int));
                (s.len() as int, s.len() as int)
            } else {
                let (from, to) = parts_stand_between_separators(front, separator, j);
                assert(front.subrange(from, to) == s.subrange(from, to));
                assert forall|k: int| from <= k < to implies #[trigger] s[k] != separator by {
                    assert(front[k] == s[k]);
                }
                (from, to)
            }
        } else {
            let (from, to) = parts_stand_between_separators(front, separator, j);
            assert forall|k: int| from <= k < to implies #[trigger] s[k] != separator by {
                assert(front[k] == s[k]);
            }
            if j == last {
                assert(split_at_each(s, separator)[j] == s.subrange(from, s.len() as int));
                (from, s.len() as int)
            } else {
                assert(front.subrange(from, to) == s.subrange(from, to));
                (from, to)
            }
        }
    }
}

/// What stands between two separators or the ends of a text, and holds none, is one of the parts
/// the text is split into.
pub proof fn what_stands_between_separators_is_a_part(
    s: Seq<char>,
    separator: char,
    from: int,
    to: int,
) -> (j: int)
    requires
        0 <= from <= to <= s.len(),
        from == 0 || s[from - 1] == separator,
        to == s.len() || s[to] == separator,
        forall|k: int| from <= k < to ==> #[trigger] s[k] != separator,
    ensures
        0 <= j < split_at_each(s, separator).len(),
        split_at_each(s, separator)[j] == s.subrange(from, to),
        to < s.len() ==> j < split_at_each(s, separator).len() - 1,
        to == s.len() ==> j == split_at_each(s, separator).len() - 1,
    decreases s.len(),
{
    split_has_parts(s, separator);
    if s.len() == 0 {
        assert(split_at_each(s, separator)[0] == s.subrange(0, 0));
        0
    } else {
        let front = s.drop_last();
        let rest = split_at_each(front, separator);
        split_has_parts(front, separator);
        if to < s.len() {
            assert forall|k: int| from <= k < to implies #[trigger] front[k] != separator by {
                assert(front[k] == s[k]);
            }
            let j = what_stands_between_separators_is_a_part(front, separator, from, to);
            assert(front.subrange(from, to) == s.subrange(from, to));
            j
        } else if s.last() == separator {
            if from < to {
                assert(s[to - 1] != separator);
            }
            assert(s.subrange(from, to) == Seq::<char>::empty());
            rest.len() as int
        } else {
            if from == s.len() {
                assert(s[from - 1] == separator);
            }
            assert forall|k: int| from <= k < to - 1 implies #[trigger] front[k] != separator by {
                assert(front[k] == s[k]);
            }
            let j = what_stands_between_separators_is_a_part(front, separator, from, to - 1);
            assert(front.subrange(from, to - 1).push(s.last()) == s.subrange(from, to));
            j
        }
    }
}

/// A split text has at least one part.
proof fn split_has_parts(s: Seq<char>, separator: char)
    ensures
        split_at_each(s, separator).len() > 0,
    decreases s.len(),
{
    if s.len() > 0 {
        split_has_parts(s.drop_last(), separator);
    }
}

/// Texts are ordered by their first different character; a text comes before what it starts.
pub proof fn first_difference_decides(
    common: Seq<char>,
    one: Seq<char>,
    other: Seq<char>,
)
    requires
        other.len() > 0,
        one.len() > 0 ==> one[0] < other[0],
    ensures
        before(common + one, common + other),
        !before(common + other, common + one),
    decreases common.len(),
{
    if common.len() > 0 {
        assert((common + one).skip(1) == common.skip(1) + one);
        assert((common + other).skip(1) == common.skip(1) + other);
        first_difference_decides(common.skip(1), one, other);
    } else {
        assert(common + one == one);
        assert(common + other == other);
    }
}

/// The place of a character is the first where it stands, or the end of the text.
pub proof fn index_is_that_of_the_first(s: Seq<char>, c: char)
    ensures
        0 <= index_of(s, c) <= s.len(),
        forall|k: int| 0 <= k < index_of(s, c) ==> #[trigger] s[k] != c,
        index_of(s, c) < s.len() ==> s[index_of(s, c)] == c,
    decreases s.len(),
{
    if s.len() > 0 && s[0] != c {
        let rest = s.skip(1);
        index_is_that_of_the_first(rest, c);
        assert forall|k: int| 0 <= k < index_of(s, c) implies #[trigger] s[k] != c by {
            if k > 0 {
                assert(rest[k - 1] == s[k]);
            }
        }
    }
}

/// Texts put together with a separator between each two of them.
pub open spec fn joined_with(parts: Seq<Seq<char>>, separator: char) -> Seq<char>
    decreases parts.len(),
{
    if parts.len() == 0 {
        Seq::empty()
    } else if parts.len() == 1 {
        parts[0]
    } else {
        joined_with(parts.drop_last(), separator) + seq![separator] + parts.last()
    }
}

/// Splitting undoes joining: texts without the separator come out of a text that was put together
/// from them, as they are and in order.
pub proof fn splitting_undoes_joining(parts: Seq<Seq<char>>, separator: char)
    requires
        parts.len() > 0,
        forall|i: int|
            #![trigger parts[i]]
            0 <= i < parts.len() ==> !parts[i].contains(separator),
    ensures
        split_at_each(joined_with(parts, separator), separator) == parts,
    decreases parts.len(),
{
    if parts.len() == 1 {
        split_of_one(parts[0], separator);
        assert(parts =~= seq![parts[0]]);
    } else {
        let front = parts.drop_last();
        assert forall|i: int|
            #![trigger front[i]]
            0 <= i < front.len() implies !front[i].contains(separator) by {
            assert(front[i] == parts[i]);
        }
        splitting_undoes_joining(front, separator);
        assert(parts[parts.len() - 1] == parts.last());
        split_behind(joined_with(front, separator), parts.last(), separator);
        assert(front.push(parts.last()) =~= parts);
    }
}

proof fn split_of_one(s: Seq<char>, separator: char)
    requires
        !s.contains(separator),
    ensures
        split_at_each(s, separator) == seq![s],
    decreases s.len(),
{
    if s.len() > 0 {
        let front = s.drop_last();
        assert(s.contains(s[s.len() - 1]));
        assert(!front.contains(separator)) by {
            if front.contains(separator) {
                let i = choose|i: int| 0 <= i < front.len() && front[i] == separator;
                assert(s[i] == separator);
            }
        }
        split_of_one(front, separator);
        assert(seq![front].drop_last().push(seq![front].last().push(s.last())) =~= seq![
            front.push(s.last()),
        ]);
        assert(front.push(s.last()) =~= s);
    } else {
        assert(s =~= Seq::<char>::empty());
    }
}

proof fn split_behind(front: Seq<char>, s: Seq<char>, separator: char)
    requires
        !s.contains(separator),
    ensures
        split_at_each(front + seq![separator] + s, separator) == split_at_each(
            front,
            separator,
        ).push(s),
    decreases s.len(),
{
    let all = front + seq![separator] + s;
    let before = split_at_each(front, separator);
    if s.len() > 0 {
        let less = s.drop_last();
        assert(s.contains(s[s.len() - 1]));
        assert(!less.contains(separator)) by {
            if less.contains(separator) {
                let i = choose|i: int| 0 <= i < less.len() && less[i] == separator;
                assert(s[i] == separator);
            }
        }
        split_behind(front, less, separator);
        assert(all.drop_last() =~= front + seq![separator] + less);
        assert(all.last() == s.last());
        assert(before.push(less).drop_last() =~= before);
        assert(less.push(s.last()) =~= s);
    } else {
        assert(all.drop_last() =~= front);
        assert(all.last() == separator);
        assert(s =~= Seq::<char>::empty());
    }
}

} // verus!
