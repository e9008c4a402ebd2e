//! What holds of every text.

use crate::text::{
    ascii_lowercase, contains_text, decimal, digit, folded, is_ascii_text, is_digit, is_number,
    is_space, lemma_decimal_reads_back, lemma_first_position, lines, lowercase, number,
    occurrences, occurs_at, parsed_i32, parsed_unsigned, same_ignoring_ascii_case, signed_decimal,
    text_before, trimmed, Text,
};
use vstd::prelude::*;

verus! {

// ---------------------------------------------------------------------------
// Case
// ---------------------------------------------------------------------------

/// The capital letters become small ones.
pub proof fn lemma_capitals_become_small(i: int)
    requires
        0 <= i < 26,
    ensures
        lowercase(seq!["ABCDEFGHIJKLMNOPQRSTUVWXYZ"@[i]]) == seq![
            "abcdefghijklmnopqrstuvwxyz"@[i],
        ],
{
    reveal_strlit("ABCDEFGHIJKLMNOPQRSTUVWXYZ");
    reveal_strlit("abcdefghijklmnopqrstuvwxyz");
    let big = "ABCDEFGHIJKLMNOPQRSTUVWXYZ"@[i];
    let small = "abcdefghijklmnopqrstuvwxyz"@[i];
    assert(is_ascii_text(seq![big]));
    assert(folded(big) as char == small);
    assert(lowercase(seq![big]) =~= seq![small]);
}

/// Every other ASCII character stays as it is.
pub proof fn lemma_other_characters_stay(c: char)
    requires
        (c as u32) < 128,
        !"ABCDEFGHIJKLMNOPQRSTUVWXYZ"@.contains(c),
    ensures
        lowercase(seq![c]) == seq![c],
{
    reveal_strlit("ABCDEFGHIJKLMNOPQRSTUVWXYZ");
    let big = "ABCDEFGHIJKLMNOPQRSTUVWXYZ"@;
    assert(is_ascii_text(seq![c]));
    if 65 <= c as u32 <= 90 {
        assert(big[c as u32 - 65] == c);
    }
    assert(lowercase(seq![c]) =~= seq![c]);
}

/// An ASCII text is folded character by character.
pub proof fn lemma_lowercase_side_by_side(a: Text, b: Text)
    requires
        is_ascii_text(a),
        is_ascii_text(b),
    ensures
        lowercase(a + b) == lowercase(a) + lowercase(b),
{
    assert forall|i: int| 0 <= i < (a + b).len() implies (#[trigger] (a + b)[i] as u32) < 128 by {
        if i < a.len() {
            assert((a + b)[i] == a[i]);
        } else {
            assert((a + b)[i] == b[i - a.len()]);
        }
    }
    assert(lowercase(a + b) =~= lowercase(a) + lowercase(b));
}

/// Two ASCII texts agree ignoring case exactly if their lower-case forms are the same.
pub proof fn lemma_agreement_is_equal_lowercase(a: Text, b: Text)
    requires
        is_ascii_text(a),
        is_ascii_text(b),
    ensures
        same_ignoring_ascii_case(a, b) <==> lowercase(a) == lowercase(b),
{
    let x = ascii_lowercase(a);
    let y = ascii_lowercase(b);
    if same_ignoring_ascii_case(a, b) {
        assert(x =~= y);
    }
    if x == y {
        assert(a.len() == x.len() && b.len() == y.len());
        assert forall|i: int| 0 <= i < a.len() implies folded(#[trigger] a[i]) == folded(b[i]) by {
            assert((a[i] as u32) < 128 && (b[i] as u32) < 128);
            assert(x[i] == y[i]);
            assert(x[i] == folded(a[i]) as char && y[i] == folded(b[i]) as char);
        }
    }
}

/// Two texts agree ignoring ASCII case exactly if they are of one length and agree in
/// every character, or both have the same ASCII letter there.
pub proof fn lemma_agreement_character_by_character(a: Text, b: Text)
    ensures
        same_ignoring_ascii_case(a, b) <==> a.len() == b.len() && forall|i: int|
            0 <= i < a.len() ==> #[trigger] a[i] == b[i] || ((a[i] as u32) < 128 && (b[i] as u32)
                < 128 && lowercase(seq![a[i]]) == lowercase(seq![b[i]])),
{
    if a.len() == b.len() {
        assert forall|i: int| 0 <= i < a.len() implies (folded(#[trigger] a[i]) == folded(b[i])
            <==> (a[i] == b[i] || ((a[i] as u32) < 128 && (b[i] as u32) < 128 && lowercase(
            seq![a[i]],
        ) == lowercase(seq![b[i]])))) by {
            lemma_one_character(a[i], b[i]);
        }
        if same_ignoring_ascii_case(a, b) {
            assert forall|i: int| 0 <= i < a.len() implies #[trigger] a[i] == b[i] || ((a[i] as u32)
                < 128 && (b[i] as u32) < 128 && lowercase(seq![a[i]]) == lowercase(
                seq![b[i]],
            )) by {
                assert(folded(a[i]) == folded(b[i]));
            }
        }
    }
}

proof fn lemma_one_character(c: char, d: char)
    ensures
        folded(c) == folded(d) <==> (c == d || ((c as u32) < 128 && (d as u32) < 128 && lowercase(
            seq![c],
        ) == lowercase(seq![d]))),
{
    if (c as u32) < 128 && (d as u32) < 128 {
        assert(is_ascii_text(seq![c]) && is_ascii_text(seq![d]));
        lemma_agreement_is_equal_lowercase(seq![c], seq![d]);
        if folded(c) == folded(d) {
            assert(same_ignoring_ascii_case(seq![c], seq![d]));
        }
        if same_ignoring_ascii_case(seq![c], seq![d]) {
            assert(folded(seq![c][0]) == folded(seq![d][0]));
        }
    }
}

// ---------------------------------------------------------------------------
// Whitespace
// ---------------------------------------------------------------------------

/// Whitespace is these characters, and no others.
pub proof fn lemma_whitespace(c: char)
    ensures
        is_space(c) <==> seq![
            0x9u32,
            0xa,
            0xb,
            0xc,
            0xd,
            0x20,
            0x85,
            0xa0,
            0x1680,
            0x2000,
            0x2001,
            0x2002,
            0x2003,
            0x2004,
            0x2005,
            0x2006,
            0x2007,
            0x2008,
            0x2009,
            0x200a,
            0x2028,
            0x2029,
            0x202f,
            0x205f,
            0x3000,
        ].contains(c as u32),
{
    let all = seq![
        0x9u32,
        0xa,
        0xb,
        0xc,
        0xd,
        0x20,
        0x85,
        0xa0,
        0x1680,
        0x2000,
        0x2001,
        0x2002,
        0x2003,
        0x2004,
        0x2005,
        0x2006,
        0x2007,
        0x2008,
        0x2009,
        0x200a,
        0x2028,
        0x2029,
        0x202f,
        0x205f,
        0x3000,
    ];
    let code = c as u32;
    if 0x9 <= code <= 0xd {
        assert(all[code - 0x9] == code);
    } else if 0x2000 <= code <= 0x200a {
        assert(all[code - 0x2000 + 9] == code);
    } else {
        assert(all[5] == 0x20 && all[6] == 0x85 && all[7] == 0xa0 && all[8] == 0x1680);
        assert(all[20] == 0x2028 && all[21] == 0x2029 && all[22] == 0x202f);
        assert(all[23] == 0x205f && all[24] == 0x3000);
    }
}

/// Trimming takes whitespace from the two ends of a text, all of it, and nothing else.
pub proof fn lemma_trimming(lead: Text, core: Text, tail: Text)
    requires
        forall|i: int| 0 <= i < lead.len() ==> is_space(#[trigger] lead[i]),
        forall|i: int| 0 <= i < tail.len() ==> is_space(#[trigger] tail[i]),
        core.len() > 0 ==> !is_space(core.first()) && !is_space(core.last()),
    ensures
        trimmed(lead + core + tail) == core,
    decreases lead.len() + tail.len(),
{
    let s = lead + core + tail;
    if lead.len() > 0 {
        assert(s.first() == lead[0]);
        assert(s.drop_first() =~= lead.drop_first() + core + tail);
        assert forall|i: int| 0 <= i < lead.drop_first().len() implies is_space(
            #[trigger] lead.drop_first()[i],
        ) by {
            assert(lead.drop_first()[i] == lead[i + 1]);
        }
        lemma_trimming(lead.drop_first(), core, tail);
    } else if core.len() == 0 && tail.len() > 0 {
        assert(s.first() == tail[0]);
        assert(s.drop_first() =~= lead + core + tail.drop_first());
        assert forall|i: int| 0 <= i < tail.drop_first().len() implies is_space(
            #[trigger] tail.drop_first()[i],
        ) by {
            assert(tail.drop_first()[i] == tail[i + 1]);
        }
        lemma_trimming(lead, core, tail.drop_first());
    } else if tail.len() > 0 {
        assert(s.first() == core.first());
        assert(s.last() == tail.last());
        assert(s.drop_last() =~= lead + core + tail.drop_last());
        lemma_trimming(lead, core, tail.drop_last());
    } else {
        assert(s =~= core);
    }
}

// ---------------------------------------------------------------------------
// Searching
// ---------------------------------------------------------------------------

/// A text contains a part exactly if it is made of something, the part and something.
pub proof fn lemma_containing(s: Text, part: Text)
    ensures
        contains_text(s, part) <==> exists|before: Text, after: Text|
            s == #[trigger] (before + part + after),
{
    if contains_text(s, part) {
        let at = choose|at: int| #[trigger] occurs_at(s, part, at);
        let before = s.take(at);
        let after = s.skip(at + part.len());
        assert forall|i: int| 0 <= i < s.len() implies s[i] == #[trigger] (before + part
            + after)[i] by {
            if at <= i < at + part.len() {
                assert(s.subrange(at, at + part.len())[i - at] == s[i]);
            }
        }
        assert(s =~= before + part + after);
    }
    if exists|before: Text, after: Text| s == #[trigger] (before + part + after) {
        let (before, after) = choose|before: Text, after: Text|
            s == #[trigger] (before + part + after);
        let at = before.len() as int;
        assert(s.subrange(at, at + part.len()) =~= part);
        assert(occurs_at(s, part, at));
    }
}

/// Where no two occurrences of a part can overlap, its occurrences in a text are counted
/// one by one: they are as many as the positions at which the part stands.
pub proof fn lemma_occurrences_are_positions(s: Text, part: Text)
    requires
        part.len() > 0,
        forall|i: int| 0 < i < part.len() ==> #[trigger] part[i] != part[0],
    ensures
        ({
            let places = Set::new(
                |at: int|
                    0 <= at && at + part.len() <= s.len() && s.subrange(at, at + part.len())
                        == part,
            );
            places.finite() && occurrences(s, part) == places.len()
        }),
    decreases s.len(),
{
    let places = Set::new(
        |at: int|
            0 <= at && at + part.len() <= s.len() && s.subrange(at, at + part.len()) == part,
    );
    if s.len() < part.len() {
        assert(places =~= Set::<int>::empty());
    } else {
        let here = occurs_at(s, part, 0);
        let step = if here {
            part.len() as int
        } else {
            1int
        };
        let rest = s.skip(step);
        lemma_occurrences_are_positions(rest, part);
        let later = Set::new(
            |at: int|
                0 <= at && at + part.len() <= rest.len() && rest.subrange(at, at + part.len())
                    == part,
        );
        let shifted = Set::new(|at: int| later.contains(at - step));
        lemma_shift(later, shifted, step);
        assert forall|at: int| #[trigger] places.contains(at) implies shifted.contains(at) || (here
            && at == 0) by {
            if at >= step {
                assert(rest.subrange(at - step, at - step + part.len()) =~= s.subrange(
                    at,
                    at + part.len(),
                ));
                assert(later.contains(at - step));
            } else if here && at > 0 {
                assert(s.subrange(0, part.len() as int)[at] == s[at]);
                assert(s.subrange(at, at + part.len())[0] == s[at]);
            }
        }
        assert forall|at: int| #[trigger] shifted.contains(at) implies places.contains(at) by {
            assert(later.contains(at - step));
            assert(rest.subrange(at - step, at - step + part.len()) =~= s.subrange(
                at,
                at + part.len(),
            ));
        }
        if here {
            assert(places =~= shifted.insert(0));
            assert(!later.contains(0 - step));
            assert(!shifted.contains(0));
        } else {
            assert(places =~= shifted);
        }
    }
}

proof fn lemma_shift(set: Set<int>, shifted: Set<int>, step: int)
    requires
        set.finite(),
        forall|at: int| #[trigger] shifted.contains(at) <==> set.contains(at - step),
    ensures
        shifted.finite(),
        shifted.len() == set.len(),
    decreases set.len(),
{
    if set.len() == 0 {
        assert forall|at: int| !#[trigger] shifted.contains(at) by {
            assert(!set.contains(at - step));
        }
        assert(shifted =~= Set::<int>::empty());
    } else {
        let one = set.choose();
        assert(set.contains(one));
        let less = Set::new(|at: int| set.remove(one).contains(at - step));
        lemma_shift(set.remove(one), less, step);
        assert(shifted.contains(one + step));
        assert(!less.contains(one + step));
        assert(shifted =~= less.insert(one + step));
    }
}

// ---------------------------------------------------------------------------
// Lines
// ---------------------------------------------------------------------------

/// A text without a line feed is one line.
pub proof fn lemma_one_line(s: Text)
    requires
        forall|i: int| 0 <= i < s.len() ==> #[trigger] s[i] != '\n',
    ensures
        lines(s) == seq![s],
{
    lemma_first_position(s, '\n');
}

// ---------------------------------------------------------------------------
// Numbers
// ---------------------------------------------------------------------------

/// A number is written with its last digit after what is left of it without that digit.
pub proof fn lemma_decimal_digits(n: nat, d: nat)
    requires
        d < 10,
    ensures
        decimal(d) == seq!["0123456789"@[d as int]],
        n > 0 ==> decimal(10 * n + d) == decimal(n) + seq!["0123456789"@[d as int]],
{
    reveal_strlit("0123456789");
    assert("0123456789"@[d as int] == digit(d));
    if n > 0 {
        assert((10 * n + d) / 10 == n && (10 * n + d) % 10 == d);
        assert(decimal(n).push(digit(d)) =~= decimal(n) + seq![digit(d)]);
    }
}

/// A negative number has a minus sign and the decimal form of its amount.
pub proof fn lemma_signed_forms(n: nat)
    ensures
        signed_decimal(n as int) == decimal(n),
        n > 0 ==> signed_decimal(-n) == seq!['-'] + decimal(n),
{
    reveal_strlit("-");
    assert("-"@ =~= seq!['-']);
}

/// What is written in decimal is read as the same number where it fits an `i32`, and not
/// read where it does not.
pub proof fn lemma_integers_read_back(n: nat)
    ensures
        parsed_i32(decimal(n)) == if n <= i32::MAX {
            Some(n as int)
        } else {
            None
        },
        parsed_i32(seq!['+'] + decimal(n)) == if n <= i32::MAX {
            Some(n as int)
        } else {
            None
        },
        parsed_i32(seq!['-'] + decimal(n)) == if -n >= i32::MIN {
            Some(-(n as int))
        } else {
            None
        },
{
    lemma_decimal_reads_back(n);
    let s = decimal(n);
    assert(is_digit(s[0]));
    assert((seq!['+'] + s).skip(1) =~= s);
    assert((seq!['-'] + s).skip(1) =~= s);
}

/// What is written in decimal is read as the same number where it is not too large.
pub proof fn lemma_unsigned_numbers_read_back(n: nat, max: nat)
    ensures
        parsed_unsigned(decimal(n), max) == if n <= max {
            Some(n)
        } else {
            None
        },
        parsed_unsigned(seq!['+'] + decimal(n), max) == if n <= max {
            Some(n)
        } else {
            None
        },
{
    lemma_decimal_reads_back(n);
    let s = decimal(n);
    assert(is_digit(s[0]));
    assert((seq!['+'] + s).skip(1) =~= s);
}

/// A text with a character that is no digit, anywhere but for a sign at its start, is no
/// number; nor is a sign alone or an empty text.
pub proof fn lemma_other_texts_are_no_numbers(s: Text, i: int, max: nat)
    requires
        0 <= i < s.len(),
        !"0123456789"@.contains(s[i]),
        i > 0 || s.len() == 1 || (s[0] != '+' && s[0] != '-'),
    ensures
        parsed_i32(s) is None,
        parsed_unsigned(s, max) is None,
        parsed_i32(Seq::empty()) is None,
        parsed_unsigned(Seq::empty(), max) is None,
{
    if is_digit(s[i]) {
        lemma_digit_is_listed(s[i]);
    }
    if i > 0 {
        assert(s.skip(1)[i - 1] == s[i]);
    }
    assert(!is_number(s));
    if s.len() > 0 && (s[0] == '+' || s[0] == '-') {
        assert(!is_number(s.skip(1)));
    }
}

proof fn lemma_digit_is_listed(c: char)
    requires
        is_digit(c),
    ensures
        "0123456789"@.contains(c),
{
    reveal_strlit("0123456789");
    let k = c as u32 - 48;
    assert("0123456789"@[k] == c);
}

/// A minus sign makes no unsigned number.
pub proof fn lemma_no_negative_counts(s: Text, max: nat)
    ensures
        parsed_unsigned(seq!['-'] + s, max) is None,
{
    assert((seq!['-'] + s)[0] == '-');
    assert(!is_digit((seq!['-'] + s)[0]));
}

/// Zeros in front of a number do not count.
pub proof fn lemma_leading_zeros(s: Text, max: nat)
    requires
        s.len() > 0,
        s[0] != '+',
    ensures
        parsed_unsigned(seq!['0'] + s, max) == parsed_unsigned(s, max),
{
    let t = seq!['0'] + s;
    assert(t[0] == '0');
    lemma_zero_in_front(s);
    if is_number(s) {
        assert forall|i: int| 0 <= i < t.len() implies is_digit(#[trigger] t[i]) by {
            if i > 0 {
                assert(t[i] == s[i - 1]);
            }
        }
    }
    if is_number(t) {
        assert forall|i: int| 0 <= i < s.len() implies is_digit(#[trigger] s[i]) by {
            assert(t[i + 1] == s[i]);
        }
    }
}

proof fn lemma_zero_in_front(s: Text)
    ensures
        number(seq!['0'] + s) == number(s),
    decreases s.len(),
{
    let t = seq!['0'] + s;
    reveal_with_fuel(number, 2);
    if s.len() == 0 {
        assert(t.drop_last() =~= Seq::<char>::empty());
        assert(t.last() == '0');
    } else {
        assert(t.drop_last() =~= seq!['0'] + s.drop_last());
        assert(t.last() == s.last());
        lemma_zero_in_front(s.drop_last());
    }
}

// ---------------------------------------------------------------------------
// Order
// ---------------------------------------------------------------------------

/// The first character in which two texts differ settles their order.
pub proof fn lemma_first_difference_decides(front: Text, x: char, y: char, a: Text, b: Text)
    requires
        x != y,
    ensures
        text_before(front + seq![x] + a, front + seq![y] + b) <==> (x as u32) < (y as u32),
    decreases front.len(),
{
    let left = front + seq![x] + a;
    let right = front + seq![y] + b;
    if front.len() > 0 {
        assert(left.drop_first() =~= front.drop_first() + seq![x] + a);
        assert(right.drop_first() =~= front.drop_first() + seq![y] + b);
        assert(left[0] == right[0]);
        lemma_first_difference_decides(front.drop_first(), x, y, a, b);
    } else {
        assert(left[0] == x && right[0] == y);
    }
}

/// A text stands before every longer one that starts with it, and after none.
pub proof fn lemma_shorter_text_stands_first(front: Text, more: Text)
    ensures
        text_before(front, front + more) <==> more.len() > 0,
        !text_before(front + more, front),
    decreases front.len(),
{
    let whole = front + more;
    if front.len() > 0 {
        assert(whole.drop_first() =~= front.drop_first() + more);
        assert(whole[0] == front[0]);
        lemma_shorter_text_stands_first(front.drop_first(), more);
    }
}

} // verus!
