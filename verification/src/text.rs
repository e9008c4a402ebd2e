//! Text: case folding, trimming, searching, splitting and decimal numbers.
//!
//! The model of a string is the sequence of its characters.

use vstd::prelude::*;

verus! {

/// The characters of a string.
pub type Text = Seq<char>;

// ---------------------------------------------------------------------------
// Case
// ---------------------------------------------------------------------------

/// Whether every character is below U+0080.
pub open spec fn is_ascii_text(s: Text) -> bool {
    forall|i: int| 0 <= i < s.len() ==> (#[trigger] s[i] as u32) < 128
}

/// The code of `c`, with the letters `A` to `Z` moved onto `a` to `z`.
pub open spec fn folded(c: char) -> u32 {
    let code = c as u32;
    if 65 <= code <= 90 {
        (code + 32) as u32
    } else {
        code
    }
}

/// `s` with the letters `A` to `Z` replaced by `a` to `z`.
pub open spec fn ascii_lowercase(s: Text) -> Text {
    s.map_values(|c: char| folded(c) as char)
}

/// What `str::to_lowercase` gives for a text with a character outside ASCII and
/// without the letters `A` to `Z`.
pub uninterp spec fn unicode_lowercase(s: Seq<char>) -> Seq<char>;

/// The lower-case form of a text.
pub open spec fn lowercase(s: Text) -> Text {
    if is_ascii_text(s) {
        ascii_lowercase(s)
    } else {
        unicode_lowercase(ascii_lowercase(s))
    }
}

/// `str::to_lowercase`. An ASCII text comes back with `A` to `Z` replaced by
/// `a` to `z`. In any other text these letters become `a` to `z` too, and their case
/// has no bearing on what becomes of the other characters: not even on the sigma,
/// whose form depends on whether letters stand beside it, whatever their case. So the
/// result is fixed by the text with `A` to `Z` replaced, and is only named.
#[verifier::external_body]
pub(crate) fn to_lowercase(s: &str) -> (lower: String)
    ensures
        is_ascii_text(s@) ==> lower@ == ascii_lowercase(s@),
        !is_ascii_text(s@) ==> lower@ == unicode_lowercase(ascii_lowercase(s@)),
{
    s.to_lowercase()
}

/// Whether two texts agree when ASCII letters are compared without case.
pub open spec fn same_ignoring_ascii_case(a: Text, b: Text) -> bool {
    &&& a.len() == b.len()
    &&& forall|i: int| 0 <= i < a.len() ==> folded(#[trigger] a[i]) == folded(b[i])
}

/// The characters of `s` as a vector.
pub fn chars_of(s: &str) -> (chars: Vec<char>)
    ensures
        chars@ == s@,
{
    let mut chars: Vec<char> = Vec::new();
    for c in it: s.chars()
        invariant
            it.seq() == s@,
            chars@ == s@.take(it.index() as int),
    {
        chars.push(c);
    }
    assert(s@.take(s@.len() as int) =~= s@);
    chars
}

/// Whether two texts are the same.
pub fn same_text(a: &str, b: &str) -> (same: bool)
    ensures
        same == (a@ == b@),
{
    a.to_owned() == b.to_owned()
}

fn fold_char(c: char) -> (code: u32)
    ensures
        code == folded(c),
{
    let code: u32 = c as u32;
    if 65 <= code && code <= 90 {
        code + 32
    } else {
        code
    }
}

/// Whether two texts agree when ASCII letters are compared without case.
pub fn eq_ignore_ascii_case(a: &str, b: &str) -> (same: bool)
    ensures
        same == same_ignoring_ascii_case(a@, b@),
{
    let left = chars_of(a);
    let right = chars_of(b);
    if left.len() != right.len() {
        return false;
    }
    let mut i: usize = 0;
    while i < left.len()
        invariant
            left@ == a@,
            right@ == b@,
            left.len() == right.len(),
            i <= left.len(),
            forall|j: int| 0 <= j < i ==> folded(#[trigger] a@[j]) == folded(b@[j]),
        decreases left.len() - i,
    {
        if fold_char(left[i]) != fold_char(right[i]) {
            assert(folded(a@[i as int]) != folded(b@[i as int]));
            return false;
        }
        i += 1;
    }
    true
}

// ---------------------------------------------------------------------------
// Whitespace
// ---------------------------------------------------------------------------

/// Whether `c` has the Unicode property White_Space.
pub open spec fn is_space(c: char) -> bool {
    let code = c as u32;
    ||| 0x9 <= code <= 0xd
    ||| code == 0x20
    ||| code == 0x85
    ||| code == 0xa0
    ||| code == 0x1680
    ||| 0x2000 <= code <= 0x200a
    ||| code == 0x2028
    ||| code == 0x2029
    ||| code == 0x202f
    ||| code == 0x205f
    ||| code == 0x3000
}

/// `s` without the whitespace at its two ends.
pub open spec fn trimmed(s: Text) -> Text
    decreases s.len(),
{
    if s.len() > 0 && is_space(s.first()) {
        trimmed(s.drop_first())
    } else if s.len() > 0 && is_space(s.last()) {
        trimmed(s.drop_last())
    } else {
        s
    }
}

/// Whether `c` has the Unicode property White_Space.
pub fn is_whitespace(c: char) -> (space: bool)
    ensures
        space == is_space(c),
{
    let code: u32 = c as u32;
    (0x9 <= code && code <= 0xd) || code == 0x20 || code == 0x85 || code == 0xa0 || code == 0x1680
        || (0x2000 <= code && code <= 0x200a) || code == 0x2028 || code == 0x2029 || code == 0x202f
        || code == 0x205f || code == 0x3000
}

/// `s` without the whitespace at its two ends.
pub fn trim<'a>(s: &'a str) -> (rest: &'a str)
    ensures
        rest@ == trimmed(s@),
{
    let chars = chars_of(s);
    let mut from: usize = 0;
    let mut to: usize = chars.len();
    assert(s@.subrange(0, s@.len() as int) =~= s@);
    while from < to && is_whitespace(chars[from])
        invariant
            chars@ == s@,
            to == s@.len(),
            from <= to,
            trimmed(s@) == trimmed(s@.subrange(from as int, to as int)),
        decreases to - from,
    {
        proof {
            let part = s@.subrange(from as int, to as int);
            assert(part.first() == s@[from as int]);
            assert(part.drop_first() =~= s@.subrange(from + 1, to as int));
        }
        from += 1;
    }
    while from < to && is_whitespace(chars[to - 1])
        invariant
            chars@ == s@,
            from <= to <= s@.len(),
            from < to ==> !is_space(s@[from as int]),
            trimmed(s@) == trimmed(s@.subrange(from as int, to as int)),
        decreases to - from,
    {
        proof {
            let part = s@.subrange(from as int, to as int);
            assert(part.first() == s@[from as int]);
            assert(part.last() == s@[to - 1]);
            assert(part.drop_last() =~= s@.subrange(from as int, to - 1));
        }
        to -= 1;
    }
    proof {
        let part = s@.subrange(from as int, to as int);
        if from < to {
            assert(part.first() == s@[from as int]);
            assert(part.last() == s@[to - 1]);
        }
    }
    s.substring_char(from, to)
}

// ---------------------------------------------------------------------------
// Searching
// ---------------------------------------------------------------------------

/// Whether `part` stands in `s` at position `at`.
pub open spec fn occurs_at(s: Text, part: Text, at: int) -> bool {
    &&& 0 <= at
    &&& at + part.len() <= s.len()
    &&& s.subrange(at, at + part.len()) == part
}

/// Whether `part` stands somewhere in `s`.
pub open spec fn contains_text(s: Text, part: Text) -> bool {
    exists|at: int| #[trigger] occurs_at(s, part, at)
}

/// How often `part` stands in `s`, when occurrences are taken from the left and
/// do not overlap.
pub open spec fn occurrences(s: Text, part: Text) -> nat
    decreases s.len(),
{
    if part.len() == 0 || s.len() < part.len() {
        0
    } else if occurs_at(s, part, 0) {
        1 + occurrences(s.skip(part.len() as int), part)
    } else {
        occurrences(s.skip(1), part)
    }
}

fn stands_at(s: &Vec<char>, part: &Vec<char>, at: usize) -> (found: bool)
    requires
        at + part@.len() <= s@.len(),
    ensures
        found == occurs_at(s@, part@, at as int),
{
    let mut i: usize = 0;
    let length: usize = s.len();
    let ghost window = s@.subrange(at as int, at + part@.len());
    while i < part.len()
        invariant
            length == s@.len(),
            at + part@.len() <= length,
            window == s@.subrange(at as int, at + part@.len()),
            i <= part@.len(),
            forall|j: int| 0 <= j < i ==> s@[at + j] == #[trigger] part@[j],
        decreases part@.len() - i,
    {
        if s[at + i] != part[i] {
            assert(window[i as int] != part@[i as int]);
            return false;
        }
        i += 1;
    }
    assert(window =~= part@);
    true
}

/// Whether `part` stands somewhere in `s`.
pub fn contains(s: &str, part: &str) -> (found: bool)
    ensures
        found == contains_text(s@, part@),
{
    let all = chars_of(s);
    let pattern = chars_of(part);
    if all.len() < pattern.len() {
        return false;
    }
    let last: usize = all.len() - pattern.len();
    let mut at: usize = 0;
    loop
        invariant
            all@ == s@,
            pattern@ == part@,
            last + part@.len() == s@.len(),
            at <= last,
            forall|j: int| 0 <= j < at ==> !#[trigger] occurs_at(s@, part@, j),
        decreases last - at,
    {
        if stands_at(&all, &pattern, at) {
            return true;
        }
        if at == last {
            return false;
        }
        at += 1;
    }
}

/// How often `part` stands in `s`, when occurrences are taken from the left and
/// do not overlap.
pub fn count_occurrences(s: &str, part: &str) -> (count: usize)
    ensures
        count == occurrences(s@, part@),
{
    let all = chars_of(s);
    let pattern = chars_of(part);
    if pattern.len() == 0 {
        return 0;
    }
    let mut at: usize = 0;
    let mut count: usize = 0;
    assert(s@.skip(0) =~= s@);
    while all.len() - at >= pattern.len()
        invariant
            all@ == s@,
            pattern@ == part@,
            part@.len() > 0,
            at <= s@.len(),
            count <= at,
            occurrences(s@, part@) == count + occurrences(s@.skip(at as int), part@),
        decreases s@.len() - at,
    {
        let ghost rest = s@.skip(at as int);
        assert(rest.subrange(0, part@.len() as int) =~= s@.subrange(at as int, at + part@.len()));
        if stands_at(&all, &pattern, at) {
            assert(occurs_at(rest, part@, 0));
            assert(rest.skip(part@.len() as int) =~= s@.skip(at + part@.len()));
            count += 1;
            at += pattern.len();
        } else {
            assert(!occurs_at(rest, part@, 0));
            assert(rest.skip(1) =~= s@.skip(at + 1));
            at += 1;
        }
    }
    count
}

// ---------------------------------------------------------------------------
// Lines
// ---------------------------------------------------------------------------

/// The position of the first `c` in `s`, or the length of `s` if there is none.
pub open spec fn first_position(s: Text, c: char) -> int
    decreases s.len(),
{
    if s.len() == 0 || s.first() == c {
        0
    } else {
        1 + first_position(s.drop_first(), c)
    }
}

/// The first position of a character is no further than the end, holds the
/// character unless it is the end, and no earlier position holds it.
pub proof fn lemma_first_position(s: Text, c: char)
    ensures
        0 <= first_position(s, c) <= s.len(),
        first_position(s, c) < s.len() ==> s[first_position(s, c)] == c,
        forall|j: int| 0 <= j < first_position(s, c) ==> s[j] != c,
    decreases s.len(),
{
    if s.len() > 0 && s.first() != c {
        let rest = s.drop_first();
        lemma_first_position(rest, c);
        assert forall|j: int| 0 <= j < first_position(s, c) implies s[j] != c by {
            if j > 0 {
                assert(s[j] == rest[j - 1]);
            }
        }
    }
}

/// The pieces of `s` between line feeds.
pub open spec fn lines(s: Text) -> Seq<Text>
    decreases s.len(),
    via lines_decreases
{
    let end = first_position(s, '\n');
    if end < s.len() {
        seq![s.take(end)] + lines(s.skip(end + 1))
    } else {
        seq![s]
    }
}

#[via_fn]
proof fn lines_decreases(s: Text) {
    lemma_first_position(s, '\n');
}

/// The position of the first `c` at or after `from`, or the length of `chars`.
pub(crate) fn find_char(chars: &Vec<char>, from: usize, c: char) -> (at: usize)
    requires
        from <= chars@.len(),
    ensures
        at == from + first_position(chars@.skip(from as int), c),
        from <= at <= chars@.len(),
{
    let mut at: usize = from;
    let ghost rest = chars@.skip(from as int);
    while at < chars.len() && chars[at] != c
        invariant
            from <= at <= chars@.len(),
            rest == chars@.skip(from as int),
            first_position(rest, c) == at - from + first_position(chars@.skip(at as int), c),
        decreases chars@.len() - at,
    {
        assert(chars@.skip(at as int).first() == chars@[at as int]);
        assert(chars@.skip(at as int).drop_first() =~= chars@.skip(at + 1));
        at += 1;
    }
    proof {
        if at < chars@.len() {
            assert(chars@.skip(at as int).first() == chars@[at as int]);
        }
    }
    at
}

// ---------------------------------------------------------------------------
// Decimal numbers
// ---------------------------------------------------------------------------

/// The character of a digit.
pub open spec fn digit(d: nat) -> char {
    (48 + d) as char
}

/// `n` in decimal, without leading zeros.
pub open spec fn decimal(n: nat) -> Text
    decreases n,
{
    if n < 10 {
        seq![digit(n)]
    } else {
        decimal(n / 10).push(digit(n % 10))
    }
}

/// `i` in decimal, with a minus sign where it is negative.
pub open spec fn signed_decimal(i: int) -> Text {
    if i < 0 {
        "-"@ + decimal((-i) as nat)
    } else {
        decimal(i as nat)
    }
}

fn digit_text(d: u64) -> (text: &'static str)
    requires
        d < 10,
    ensures
        text@ == seq![digit(d as nat)],
{
    proof {
        reveal_strlit("0");
        reveal_strlit("1");
        reveal_strlit("2");
        reveal_strlit("3");
        reveal_strlit("4");
        reveal_strlit("5");
        reveal_strlit("6");
        reveal_strlit("7");
        reveal_strlit("8");
        reveal_strlit("9");
    }
    if d == 0 {
        "0"
    } else if d == 1 {
        "1"
    } else if d == 2 {
        "2"
    } else if d == 3 {
        "3"
    } else if d == 4 {
        "4"
    } else if d == 5 {
        "5"
    } else if d == 6 {
        "6"
    } else if d == 7 {
        "7"
    } else if d == 8 {
        "8"
    } else {
        "9"
    }
}

/// Appends `n` in decimal to `text`.
pub fn append_decimal(text: &mut String, n: u64)
    ensures
        final(text)@ == old(text)@ + decimal(n as nat),
    decreases n,
{
    if n >= 10 {
        append_decimal(text, n / 10);
    }
    text.append(digit_text(n % 10));
}

/// Appends `i` in decimal to `text`, with a minus sign where it is negative.
pub fn append_signed(text: &mut String, i: i32)
    ensures
        final(text)@ == old(text)@ + signed_decimal(i as int),
{
    let wide: i64 = i as i64;
    if wide < 0 {
        text.append("-");
        append_decimal(text, (-wide) as u64);
    } else {
        append_decimal(text, wide as u64);
    }
}

/// Whether `c` is one of `0` to `9`.
pub open spec fn is_digit(c: char) -> bool {
    48 <= c as u32 <= 57
}

/// Whether a text is made of at least one digit and nothing else.
pub open spec fn is_number(s: Text) -> bool {
    &&& s.len() > 0
    &&& forall|i: int| 0 <= i < s.len() ==> is_digit(#[trigger] s[i])
}

/// The number that a row of digits stands for.
pub open spec fn number(s: Text) -> nat
    decreases s.len(),
{
    if s.len() == 0 {
        0
    } else {
        10 * number(s.drop_last()) + (s.last() as nat - 48) as nat
    }
}

/// The value that `s` stands for if it is a number of at most `max`.
pub open spec fn bounded_number(s: Text, max: nat) -> Option<nat> {
    if is_number(s) && number(s) <= max {
        Some(number(s))
    } else {
        None
    }
}

/// A number in decimal reads as itself.
pub proof fn lemma_decimal_reads_back(n: nat)
    ensures
        is_number(decimal(n)),
        number(decimal(n)) == n,
    decreases n,
{
    reveal_with_fuel(number, 2);
    let text = decimal(n);
    let d = n % 10;
    assert(digit(d) as nat == 48 + d) by {
        lemma_digit(d);
    }
    if n < 10 {
        assert(text.drop_last() =~= Seq::<char>::empty());
    } else {
        lemma_decimal_reads_back(n / 10);
        assert(text.drop_last() =~= decimal(n / 10));
        assert forall|i: int| 0 <= i < text.len() implies is_digit(#[trigger] text[i]) by {
            if i < text.len() - 1 {
                assert(text[i] == decimal(n / 10)[i]);
            }
        }
    }
}

/// The code of a digit.
proof fn lemma_digit(d: nat)
    requires
        d < 10,
    ensures
        digit(d) as nat == 48 + d,
        is_digit(digit(d)),
        digit(d) != ' ',
        digit(d) != '+',
{
}

/// The value of an unsigned number in decimal, which may start with a plus sign.
pub open spec fn parsed_unsigned(s: Text, max: nat) -> Option<nat> {
    if s.len() > 0 && s[0] == '+' {
        bounded_number(s.skip(1), max)
    } else {
        bounded_number(s, max)
    }
}

/// The value of an `i32` in decimal, which may start with a sign.
pub open spec fn parsed_i32(s: Text) -> Option<int> {
    if s.len() > 0 && s[0] == '-' {
        match bounded_number(s.skip(1), 0x8000_0000) {
            Some(n) => Some(-n),
            None => None,
        }
    } else {
        match parsed_unsigned(s, 0x7fff_ffff) {
            Some(n) => Some(n as int),
            None => None,
        }
    }
}

/// The value of the digits of `chars` from `from` on, if there is at least one,
/// there is nothing else, and the value is at most `max`.
fn number_from(chars: &Vec<char>, from: usize, max: u64) -> (value: Option<u64>)
    requires
        from <= chars@.len(),
    ensures
        match value {
            Some(n) => bounded_number(chars@.skip(from as int), max as nat) == Some(n as nat),
            None => bounded_number(chars@.skip(from as int), max as nat) is None,
        },
{
    let ghost s = chars@.skip(from as int);
    if from == chars.len() {
        return None;
    }
    let mut at: usize = from;
    let mut value: u64 = 0;
    let mut over: bool = false;
    assert(s.take(0) =~= Seq::<char>::empty());
    while at < chars.len()
        invariant
            from <= at <= chars@.len(),
            s == chars@.skip(from as int),
            forall|i: int| 0 <= i < at - from ==> is_digit(#[trigger] s[i]),
            over ==> number(s.take(at - from)) > max,
            !over ==> number(s.take(at - from)) == value && value <= max,
        decreases chars@.len() - at,
    {
        let c: u32 = chars[at] as u32;
        assert(s[at - from] == chars@[at as int]);
        proof {
            lemma_code(chars@[at as int]);
        }
        if c < 48 || c > 57 {
            assert(!is_digit(s[at - from]));
            return None;
        }
        proof {
            assert(s.take(at - from + 1).drop_last() =~= s.take(at - from));
            assert(s.take(at - from + 1).last() == chars@[at as int]);
        }
        let d: u64 = (c - 48) as u64;
        if !over {
            let next: u128 = 10 * value as u128 + d as u128;
            if next > max as u128 {
                over = true;
            } else {
                value = next as u64;
            }
        }
        at += 1;
    }
    assert(s.take(s.len() as int) =~= s);
    if over {
        None
    } else {
        Some(value)
    }
}

/// Reads an unsigned decimal number of at most `max`, as `str::parse` does for
/// the unsigned types.
pub fn parse_unsigned(s: &str, max: u64) -> (value: Option<u64>)
    ensures
        match value {
            Some(n) => parsed_unsigned(s@, max as nat) == Some(n as nat),
            None => parsed_unsigned(s@, max as nat) is None,
        },
{
    let chars = chars_of(s);
    assert(s@.skip(0) =~= s@);
    if chars.len() > 0 && chars[0] == '+' {
        number_from(&chars, 1, max)
    } else {
        number_from(&chars, 0, max)
    }
}

/// Reads a decimal `i32`, as `str::parse` does.
pub fn parse_int(s: &str) -> (value: Option<i32>)
    ensures
        match value {
            Some(i) => parsed_i32(s@) == Some(i as int),
            None => parsed_i32(s@) is None,
        },
{
    let chars = chars_of(s);
    if chars.len() > 0 && chars[0] == '-' {
        match number_from(&chars, 1, 0x8000_0000) {
            Some(n) => Some((-(n as i64)) as i32),
            None => None,
        }
    } else {
        match parse_unsigned(s, 0x7fff_ffff) {
            Some(n) => Some(n as i32),
            None => None,
        }
    }
}

// ---------------------------------------------------------------------------
// Order
// ---------------------------------------------------------------------------

/// Whether `a` stands before `b` in the order of their characters.
pub open spec fn text_before(a: Text, b: Text) -> bool
    decreases a.len(),
{
    if b.len() == 0 {
        false
    } else if a.len() == 0 {
        true
    } else if a[0] == b[0] {
        text_before(a.drop_first(), b.drop_first())
    } else {
        (a[0] as u32) < (b[0] as u32)
    }
}

/// Whether `a` stands before `b` in the order of their characters.
pub fn is_before(a: &str, b: &str) -> (before: bool)
    ensures
        before == text_before(a@, b@),
{
    let left = chars_of(a);
    let right = chars_of(b);
    let mut i: usize = 0;
    assert(a@.skip(0) =~= a@);
    assert(b@.skip(0) =~= b@);
    while i < left.len() && i < right.len() && left[i] == right[i]
        invariant
            left@ == a@,
            right@ == b@,
            i <= left@.len(),
            i <= right@.len(),
            text_before(a@, b@) == text_before(a@.skip(i as int), b@.skip(i as int)),
        decreases left@.len() - i,
    {
        assert(a@.skip(i as int).drop_first() =~= a@.skip(i + 1));
        assert(b@.skip(i as int).drop_first() =~= b@.skip(i + 1));
        i += 1;
    }
    if i == right.len() {
        false
    } else if i == left.len() {
        true
    } else {
        (left[i] as u32) < (right[i] as u32)
    }
}

/// A character and its code are the same number.
proof fn lemma_code(c: char)
    ensures
        c as u32 as int == c as int,
{
}

/// No text stands before itself.
pub proof fn lemma_before_irreflexive(a: Text)
    ensures
        !text_before(a, a),
    decreases a.len(),
{
    if a.len() > 0 {
        lemma_before_irreflexive(a.drop_first());
    }
}

/// The order of texts is transitive.
pub proof fn lemma_before_transitive(a: Text, b: Text, c: Text)
    requires
        text_before(a, b),
        text_before(b, c),
    ensures
        text_before(a, c),
    decreases a.len(),
{
    if a.len() > 0 && a[0] == b[0] && b[0] == c[0] {
        lemma_before_transitive(a.drop_first(), b.drop_first(), c.drop_first());
    }
}

/// Of two different texts one stands before the other.
pub proof fn lemma_before_total(a: Text, b: Text)
    requires
        a != b,
    ensures
        text_before(a, b) || text_before(b, a),
    decreases a.len(),
{
    if a.len() > 0 && b.len() > 0 && a[0] == b[0] {
        if a.drop_first() == b.drop_first() {
            assert(a =~= seq![a[0]] + a.drop_first());
            assert(b =~= seq![b[0]] + b.drop_first());
        }
        lemma_before_total(a.drop_first(), b.drop_first());
    } else if a.len() == 0 && b.len() == 0 {
        assert(a =~= b);
    } else if a.len() > 0 && b.len() > 0 {
        lemma_code(a[0]);
        lemma_code(b[0]);
    }
}

} // verus!
