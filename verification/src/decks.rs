//! Deck lists and the rules that a deck has to meet.

use crate::cards::{card_names, card_profile_for, known, CardDb, Cards, DeckCard};
use crate::text::{
    append_decimal, chars_of, decimal, eq_ignore_ascii_case, find_char, first_position, folded,
    is_digit, is_space, lemma_decimal_reads_back, lemma_first_position, lines, lowercase,
    parse_unsigned, parsed_unsigned, same_ignoring_ascii_case, same_text, to_lowercase, trim,
    trimmed, Text,
};
use vstd::hash_map::StringHashMap;
use vstd::prelude::*;

verus! {

// ---------------------------------------------------------------------------
// Deck lists
// ---------------------------------------------------------------------------

/// A line of a deck list: a count, a space and a card name.
pub open spec fn deck_line(line: Text) -> Option<(nat, Text)> {
    let space = first_position(line, ' ');
    if space == line.len() {
        None
    } else {
        let name = trimmed(line.skip(space + 1));
        match parsed_unsigned(line.take(space), usize::MAX as nat) {
            Some(count) => if name.len() == 0 {
                None
            } else {
                Some((count, name))
            },
            None => None,
        }
    }
}

/// Reads a line of a deck list: a count, a space and a card name.
pub fn parse_deck_line(line: &str) -> (entry: Option<(usize, &str)>)
    ensures
        match entry {
            Some((count, name)) => deck_line(line@) == Some((count as nat, name@)),
            None => deck_line(line@) is None,
        },
{
    let chars = chars_of(line);
    let space = find_char(&chars, 0, ' ');
    assert(line@.skip(0) =~= line@);
    if space == chars.len() {
        return None;
    }
    let count = parse_unsigned(line.substring_char(0, space), usize::MAX as u64);
    assert(line@.subrange(0, space as int) =~= line@.take(space as int));
    let name = trim(line.substring_char(space + 1, chars.len()));
    assert(line@.subrange(space + 1, line@.len() as int) =~= line@.skip(space + 1));
    if name.is_empty() {
        return None;
    }
    match count {
        Some(n) => Some((n as usize, name)),
        None => None,
    }
}

/// `count` copies of `name`.
pub open spec fn copies(count: nat, name: Text) -> Seq<Text> {
    Seq::new(count, |i: int| name)
}

/// Whether a line, without the whitespace round it, holds nothing to read.
pub open spec fn is_blank_or_comment(line: Text) -> bool {
    line.len() == 0 || line[0] == '#'
}

/// The cards that the lines of a deck list name, or the first line that names
/// none. Blank lines and comments are passed over; the list ends at a line that
/// reads "sideboard".
pub open spec fn deck_of_lines(rows: Seq<Text>) -> Result<Seq<Text>, Text>
    decreases rows.len(),
{
    if rows.len() == 0 {
        Ok(Seq::empty())
    } else {
        let line = trimmed(rows[0]);
        let rest = rows.drop_first();
        if is_blank_or_comment(line) {
            deck_of_lines(rest)
        } else if same_ignoring_ascii_case(line, "sideboard"@) {
            Ok(Seq::empty())
        } else {
            match deck_line(line) {
                None => Err(line),
                Some((count, name)) => match deck_of_lines(rest) {
                    Ok(cards) => Ok(copies(count, name) + cards),
                    Err(bad) => Err(bad),
                },
            }
        }
    }
}

/// What is wrong with a deck list.
#[derive(Debug, PartialEq, Eq)]
pub enum DeckListError {
    /// A line that is not a count and a card name.
    InvalidLine(String),
    /// An entry whose card name is empty.
    EmptyName,
    /// A list that names no card.
    NoCards,
}

impl DeckListError {
    /// The message for the deck list at `path`.
    pub fn message(&self, path: &str) -> (text: String)
        ensures
            text@ == match *self {
                DeckListError::InvalidLine(line) => "invalid deck line '"@ + line@
                    + "', expected '<count> <card name>'"@,
                DeckListError::EmptyName => "deck "@ + path@ + " contains an empty card name"@,
                DeckListError::NoCards => "deck "@ + path@ + " has zero cards"@,
            },
    {
        match self {
            DeckListError::InvalidLine(line) => {
                let mut text = "invalid deck line '".to_string();
                text.append(line.as_str());
                text.append("', expected '<count> <card name>'");
                text
            },
            DeckListError::EmptyName => {
                let mut text = "deck ".to_string();
                text.append(path);
                text.append(" contains an empty card name");
                text
            },
            DeckListError::NoCards => {
                let mut text = "deck ".to_string();
                text.append(path);
                text.append(" has zero cards");
                text
            },
        }
    }
}

/// Whether `deck` is what a deck list that reads as `cards` or fails at a line
/// gives: an empty list is an error too.
pub open spec fn is_deck_result(
    deck: Result<Vec<DeckCard>, DeckListError>,
    cards: Result<Seq<Text>, Text>,
) -> bool {
    match cards {
        Err(line) => deck matches Err(DeckListError::InvalidLine(bad)) && bad@ == line,
        Ok(names) => if names.len() == 0 {
            deck matches Err(DeckListError::NoCards)
        } else {
            deck matches Ok(found) && card_names(found@) == names
        },
    }
}

/// Appends `count` copies of `name` to `deck`.
fn push_copies(deck: &mut Vec<DeckCard>, count: usize, name: &str)
    ensures
        card_names(final(deck)@) == card_names(old(deck)@) + copies(count as nat, name@),
{
    let ghost before = card_names(deck@);
    let mut done: usize = 0;
    assert(card_names(deck@) =~= before + copies(0, name@));
    while done < count
        invariant
            done <= count,
            card_names(deck@) == before + copies(done as nat, name@),
        decreases count - done,
    {
        let ghost held = deck@;
        deck.push(DeckCard { name: name.to_string() });
        assert(card_names(deck@) =~= card_names(held).push(name@));
        assert(before + copies((done + 1) as nat, name@) =~= (before + copies(
            done as nat,
            name@,
        )).push(name@));
        done += 1;
    }
}

/// The result of reading the rest of a list after cards that were read already.
spec fn following(names: Seq<Text>, rest: Result<Seq<Text>, Text>) -> Result<Seq<Text>, Text> {
    match rest {
        Ok(cards) => Ok(names + cards),
        Err(line) => Err(line),
    }
}

/// Reads a deck list in plain text.
pub fn parse_deck_list(raw: &str) -> (deck: Result<Vec<DeckCard>, DeckListError>)
    ensures
        is_deck_result(deck, deck_of_lines(lines(raw@))),
{
    let chars = chars_of(raw);
    let mut deck: Vec<DeckCard> = Vec::new();
    let mut from: usize = 0;
    let ghost whole = deck_of_lines(lines(raw@));
    proof {
        assert(raw@.skip(0) =~= raw@);
        assert(card_names(deck@) =~= Seq::<Text>::empty());
        match whole {
            Ok(cards) => {
                assert(Seq::<Text>::empty() + cards =~= cards);
            },
            Err(_) => {},
        }
    }
    loop
        invariant_except_break
            chars@ == raw@,
            from <= raw@.len(),
            whole == following(card_names(deck@), deck_of_lines(lines(raw@.skip(from as int)))),
        invariant
            whole == deck_of_lines(lines(raw@)),
        ensures
            whole == Ok::<Seq<Text>, Text>(card_names(deck@)),
        decreases raw@.len() - from,
    {
        let end = find_char(&chars, from, '\n');
        let line = trim(raw.substring_char(from, end));
        let ghost rest = raw@.skip(from as int);
        let ghost rows = lines(rest);
        let ghost names = card_names(deck@);
        proof {
            lemma_first_position(rest, '\n');
            assert(raw@.subrange(from as int, end as int) =~= rest.take(end - from));
            assert(rest.take(rest.len() as int) =~= rest);
            assert(rows[0] == raw@.subrange(from as int, end as int));
            if end < raw@.len() {
                assert(rest.skip(end - from + 1) =~= raw@.skip(end + 1));
                assert(rows.drop_first() =~= lines(raw@.skip(end + 1)));
            } else {
                assert(rows.drop_first() =~= Seq::<Text>::empty());
            }
        }
        let blank = line.is_empty() || line.get_char(0) == '#';
        if !blank {
            if eq_ignore_ascii_case(line, "sideboard") {
                assert(names + Seq::<Text>::empty() =~= names);
                break;
            }
            match parse_deck_line(line) {
                None => {
                    return Err(DeckListError::InvalidLine(line.to_string()));
                },
                Some((count, name)) => {
                    push_copies(&mut deck, count, name);
                    proof {
                        match deck_of_lines(rows.drop_first()) {
                            Ok(cards) => {
                                let own = copies(count as nat, name@);
                                assert(names + (own + cards) =~= (names + own) + cards);
                            },
                            Err(_) => {},
                        }
                    }
                },
            }
        }
        if end == chars.len() {
            assert(card_names(deck@) + Seq::<Text>::empty() =~= card_names(deck@));
            break;
        }
        from = end + 1;
    }
    if deck.is_empty() {
        return Err(DeckListError::NoCards);
    }
    Ok(deck)
}

/// A line made of a count, a space and a card name reads as that count and name.
pub proof fn lemma_deck_line_reads_back(count: nat, name: Text)
    requires
        count <= usize::MAX,
        trimmed(name).len() > 0,
    ensures
        deck_line(decimal(count) + " "@ + name) == Some((count, trimmed(name))),
{
    reveal_strlit(" ");
    let number = decimal(count);
    let line = number + " "@ + name;
    let at = number.len() as int;
    lemma_decimal_reads_back(count);
    lemma_first_position(line, ' ');
    assert(line[at] == ' ');
    assert forall|i: int| 0 <= i < at implies line[i] != ' ' by {
        assert(line[i] == number[i]);
        assert(is_digit(number[i]));
    }
    assert(first_position(line, ' ') == at);
    assert(line.take(at) =~= number);
    assert(line.skip(at + 1) =~= name);
    assert(is_digit(number[0]));
}

/// What follows a line that reads "sideboard" does not count, nor does that
/// line.
pub proof fn lemma_sideboard_is_ignored(main: Seq<Text>, marker: Text, side: Seq<Text>)
    requires
        same_ignoring_ascii_case(trimmed(marker), "sideboard"@),
    ensures
        deck_of_lines(main + seq![marker] + side) == deck_of_lines(main),
    decreases main.len(),
{
    let rows = main + seq![marker] + side;
    if main.len() == 0 {
        reveal_strlit("sideboard");
        let line = trimmed(marker);
        assert(rows[0] == marker);
        assert(folded(line[0]) == folded("sideboard"@[0]));
        assert(!is_blank_or_comment(line));
    } else {
        assert(rows[0] == main[0]);
        assert(rows.drop_first() =~= main.drop_first() + seq![marker] + side);
        lemma_sideboard_is_ignored(main.drop_first(), marker, side);
    }
}

/// A blank line or a comment does not count.
pub proof fn lemma_blank_lines_are_ignored(above: Seq<Text>, blank: Text, below: Seq<Text>)
    requires
        is_blank_or_comment(trimmed(blank)),
    ensures
        deck_of_lines(above + seq![blank] + below) == deck_of_lines(above + below),
    decreases above.len(),
{
    let rows = above + seq![blank] + below;
    if above.len() == 0 {
        assert(rows[0] == blank);
        assert(rows.drop_first() =~= above + below);
    } else {
        assert(rows[0] == above[0]);
        assert((above + below)[0] == above[0]);
        assert(rows.drop_first() =~= above.drop_first() + seq![blank] + below);
        assert((above + below).drop_first() =~= above.drop_first() + below);
        lemma_blank_lines_are_ignored(above.drop_first(), blank, below);
    }
}

/// A deck list holds the cards of its first lines, then those of its last lines,
/// unless the list ends among the first.
pub proof fn lemma_lines_add_up(above: Seq<Text>, below: Seq<Text>)
    requires
        forall|i: int|
            0 <= i < above.len() ==> !same_ignoring_ascii_case(
                trimmed(#[trigger] above[i]),
                "sideboard"@,
            ),
    ensures
        deck_of_lines(above + below) == match deck_of_lines(above) {
            Err(line) => Err(line),
            Ok(first) => match deck_of_lines(below) {
                Err(line) => Err(line),
                Ok(second) => Ok::<Seq<Text>, Text>(first + second),
            },
        },
    decreases above.len(),
{
    let rows = above + below;
    if above.len() == 0 {
        assert(rows =~= below);
        if let Ok(second) = deck_of_lines(below) {
            assert(Seq::<Text>::empty() + second =~= second);
        }
    } else {
        let rest = above.drop_first();
        assert(rows[0] == above[0]);
        assert(rows.drop_first() =~= rest + below);
        assert forall|i: int| 0 <= i < rest.len() implies !same_ignoring_ascii_case(
            trimmed(#[trigger] rest[i]),
            "sideboard"@,
        ) by {
            assert(rest[i] == above[i + 1]);
        }
        lemma_lines_add_up(rest, below);
        if let Some((count, name)) = deck_line(trimmed(above[0])) {
            if let (Ok(first), Ok(second)) = (deck_of_lines(rest), deck_of_lines(below)) {
                assert(copies(count, name) + (first + second) =~= (copies(count, name) + first)
                    + second);
            }
        }
    }
}

/// The lines of two texts with a line feed between them are the lines of the first
/// and then those of the second.
pub proof fn lemma_lines_of_two_texts(above: Text, below: Text)
    ensures
        lines(above + seq!['\n'] + below) == lines(above) + lines(below),
    decreases above.len(),
{
    let text = above + seq!['\n'] + below;
    let end = first_position(above, '\n');
    lemma_first_position(above, '\n');
    lemma_first_position(text, '\n');
    assert forall|i: int| 0 <= i < end implies text[i] != '\n' by {
        assert(text[i] == above[i]);
    }
    assert(text[end] == '\n');
    assert(first_position(text, '\n') == end);
    assert(text.take(end) =~= above.take(end));
    if end < above.len() {
        let rest = above.skip(end + 1);
        assert(text.skip(end + 1) =~= rest + seq!['\n'] + below);
        lemma_lines_of_two_texts(rest, below);
        assert(seq![above.take(end)] + (lines(rest) + lines(below)) =~= (seq![above.take(end)]
            + lines(rest)) + lines(below));
    } else {
        assert(above.take(end) =~= above);
        assert(text.skip(end + 1) =~= below);
    }
}

/// In a deck list in plain text, a line that reads "sideboard" and everything
/// after it does not count.
pub proof fn lemma_sideboard_section_is_ignored(main: Text, marker: Text, side: Text)
    requires
        forall|i: int| 0 <= i < marker.len() ==> #[trigger] marker[i] != '\n',
        same_ignoring_ascii_case(trimmed(marker), "sideboard"@),
    ensures
        deck_of_lines(lines(main + seq!['\n'] + (marker + seq!['\n'] + side))) == deck_of_lines(
            lines(main),
        ),
{
    lemma_lines_of_two_texts(main, marker + seq!['\n'] + side);
    lemma_lines_of_two_texts(marker, side);
    lemma_first_position(marker, '\n');
    assert(lines(marker) == seq![marker]);
    assert(lines(main) + (seq![marker] + lines(side)) =~= lines(main) + seq![marker] + lines(side));
    lemma_sideboard_is_ignored(lines(main), marker, lines(side));
}

/// An entry of a structured deck list.
#[derive(Debug)]
pub struct DeckListEntry {
    pub count: usize,
    pub name: String,
}

/// The cards that the entries of a structured deck list name, unless one of the
/// names is empty.
pub open spec fn deck_of_entries(entries: Seq<DeckListEntry>) -> Option<Seq<Text>>
    decreases entries.len(),
{
    if entries.len() == 0 {
        Some(Seq::empty())
    } else {
        let last = entries.last();
        match deck_of_entries(entries.drop_last()) {
            None => None,
            Some(cards) => if trimmed(last.name@).len() == 0 {
                None
            } else {
                Some(cards + copies(last.count as nat, last.name@))
            },
        }
    }
}

/// An empty name early in a structured deck list spoils the whole list.
proof fn lemma_empty_name_spoils(entries: Seq<DeckListEntry>, n: int)
    requires
        0 <= n <= entries.len(),
        deck_of_entries(entries.take(n)) is None,
    ensures
        deck_of_entries(entries) is None,
    decreases entries.len() - n,
{
    if n < entries.len() {
        assert(entries.take(n + 1).drop_last() =~= entries.take(n));
        lemma_empty_name_spoils(entries, n + 1);
    } else {
        assert(entries.take(n) =~= entries);
    }
}

/// The line of a plain deck list that says the same as an entry.
pub open spec fn line_of(entry: DeckListEntry) -> Text {
    decimal(entry.count as nat) + " "@ + entry.name@
}

/// Trimming never makes a text longer.
proof fn lemma_trimmed_len(s: Text)
    ensures
        trimmed(s).len() <= s.len(),
    decreases s.len(),
{
    if s.len() > 0 && is_space(s.first()) {
        lemma_trimmed_len(s.drop_first());
    } else if s.len() > 0 && is_space(s.last()) {
        lemma_trimmed_len(s.drop_last());
    }
}

/// A structured deck list names the same cards as the plain one with a line for each
/// entry, as long as no card name is empty or has whitespace at an end.
pub proof fn lemma_both_kinds_of_lists_agree(entries: Seq<DeckListEntry>)
    requires
        forall|i: int|
            0 <= i < entries.len() ==> (#[trigger] entries[i]).name@.len() > 0 && trimmed(
                entries[i].name@,
            ) == entries[i].name@,
    ensures
        deck_of_entries(entries) is Some,
        deck_of_lines(entries.map_values(|entry: DeckListEntry| line_of(entry))) == Ok::<
            Seq<Text>,
            Text,
        >(deck_of_entries(entries)->0),
    decreases entries.len(),
{
    let rows = entries.map_values(|entry: DeckListEntry| line_of(entry));
    if entries.len() > 0 {
        let front = entries.drop_last();
        let last = entries.last();
        let line = line_of(last);
        let count = last.count as nat;
        let above = front.map_values(|entry: DeckListEntry| line_of(entry));
        let below = seq![line];
        assert forall|i: int| 0 <= i < front.len() implies (#[trigger] front[i]).name@.len() > 0
            && trimmed(front[i].name@) == front[i].name@ by {
            assert(front[i] == entries[i]);
        }
        lemma_both_kinds_of_lists_agree(front);
        assert(rows =~= above + below);
        assert forall|i: int| 0 <= i < above.len() implies !same_ignoring_ascii_case(
            trimmed(#[trigger] above[i]),
            "sideboard"@,
        ) by {
            assert(front[i].name@.len() > 0);
            lemma_line_of(front[i]);
        }
        lemma_lines_add_up(above, below);
        assert(entries[entries.len() - 1].name@.len() > 0);
        lemma_line_of(last);
        lemma_deck_line_reads_back(count, last.name@);
        assert(below.drop_first() =~= Seq::<Text>::empty());
        assert(copies(count, last.name@) + Seq::<Text>::empty() =~= copies(count, last.name@));
        assert(deck_of_lines(below) == Ok::<Seq<Text>, Text>(copies(count, last.name@))) by {
            reveal_with_fuel(deck_of_lines, 2);
        }
    }
}

/// A line with a count and a name is no comment, no marker, and has no whitespace at an
/// end.
proof fn lemma_line_of(entry: DeckListEntry)
    requires
        entry.name@.len() > 0,
        trimmed(entry.name@) == entry.name@,
    ensures
        trimmed(line_of(entry)) == line_of(entry),
        !is_blank_or_comment(line_of(entry)),
        !same_ignoring_ascii_case(line_of(entry), "sideboard"@),
{
    let line = line_of(entry);
    let number = decimal(entry.count as nat);
    let name = entry.name@;
    reveal_strlit(" ");
    reveal_strlit("sideboard");
    lemma_decimal_reads_back(entry.count as nat);
    assert(line[0] == number[0]);
    assert(is_digit(number[0]));
    assert(!is_space(line.first()));
    assert(line.last() == name.last());
    if is_space(name.first()) {
        lemma_trimmed_len(name.drop_first());
    } else if is_space(name.last()) {
        lemma_trimmed_len(name.drop_last());
    }
    assert(!is_space(line.last()));
    assert(folded(line[0]) != folded("sideboard"@[0]));
}

/// The cards of a structured deck list.
pub fn deck_from_entries(entries: &Vec<DeckListEntry>) -> (deck: Result<
    Vec<DeckCard>,
    DeckListError,
>)
    ensures
        match deck_of_entries(entries@) {
            None => deck matches Err(DeckListError::EmptyName),
            Some(names) => is_deck_result(deck, Ok(names)),
        },
{
    let mut deck: Vec<DeckCard> = Vec::new();
    let mut i: usize = 0;
    assert(entries@.take(0) =~= Seq::<DeckListEntry>::empty());
    assert(card_names(deck@) =~= Seq::<Text>::empty());
    while i < entries.len()
        invariant
            i <= entries@.len(),
            deck_of_entries(entries@.take(i as int)) == Some(card_names(deck@)),
        decreases entries@.len() - i,
    {
        let ghost next = entries@.take(i + 1);
        assert(next.drop_last() =~= entries@.take(i as int));
        assert(next.last() == entries@[i as int]);
        if trim(entries[i].name.as_str()).is_empty() {
            proof {
                lemma_empty_name_spoils(entries@, i + 1);
            }
            return Err(DeckListError::EmptyName);
        }
        push_copies(&mut deck, entries[i].count, entries[i].name.as_str());
        i += 1;
    }
    assert(entries@.take(entries@.len() as int) =~= entries@);
    if deck.is_empty() {
        return Err(DeckListError::NoCards);
    }
    Ok(deck)
}

/// Whether a deck list with this file extension is a structured one.
pub fn is_structured_extension(extension: Option<&str>) -> (structured: bool)
    ensures
        structured == match extension {
            Some(found) => found@ == "yaml"@ || found@ == "yml"@,
            None => false,
        },
{
    match extension {
        Some(found) => same_text(found, "yaml") || same_text(found, "yml"),
        None => false,
    }
}

// ---------------------------------------------------------------------------
// Formats
// ---------------------------------------------------------------------------

/// What a format asks of a deck.
#[derive(Debug, Clone, Copy, PartialEq, Eq, Structural)]
pub struct FormatRules {
    pub minimum_deck_size: usize,
    pub max_non_basic_copies: usize,
}

/// The rules of the format with this lower-case name.
pub open spec fn rules_named(name: Text) -> Option<FormatRules> {
    if name == "standard"@ || name == "pioneer"@ || name == "modern"@ || name == "legacy"@ || name
        == "vintage"@ || name == "pauper"@ {
        Some(FormatRules { minimum_deck_size: 60, max_non_basic_copies: 4 })
    } else if name == "commander"@ {
        Some(FormatRules { minimum_deck_size: 100, max_non_basic_copies: 1 })
    } else if name == "yard"@ {
        Some(FormatRules { minimum_deck_size: 60, max_non_basic_copies: 0 })
    } else {
        None
    }
}

/// The rules of a format, if there is one of that name.
pub fn rules_for_format(format: &str) -> (rules: Option<FormatRules>)
    ensures
        rules == rules_named(lowercase(format@)),
{
    let lower = to_lowercase(format);
    let name = lower.as_str();
    if same_text(name, "standard") || same_text(name, "pioneer") || same_text(name, "modern")
        || same_text(name, "legacy") || same_text(name, "vintage") || same_text(name, "pauper") {
        Some(FormatRules { minimum_deck_size: 60, max_non_basic_copies: 4 })
    } else if same_text(name, "commander") {
        Some(FormatRules { minimum_deck_size: 100, max_non_basic_copies: 1 })
    } else if same_text(name, "yard") {
        Some(FormatRules { minimum_deck_size: 60, max_non_basic_copies: 0 })
    } else {
        None
    }
}

/// Whether a format is played with one shared deck.
pub open spec fn is_yard(format: Text) -> bool {
    same_ignoring_ascii_case(format, "yard"@)
}

/// Whether a format is played with one shared deck.
pub fn is_yard_format(format: &str) -> (yard: bool)
    ensures
        yard == is_yard(format@),
{
    eq_ignore_ascii_case(format, "yard")
}

/// What is wrong with a deck.
#[derive(Debug, PartialEq, Eq)]
pub enum DeckError {
    /// There is no format of this name.
    UnsupportedFormat { format: String },
    /// The deck is smaller than the format allows.
    TooFewCards { count: usize, format: String, minimum: usize },
    /// The deck holds a card that the database does not know.
    UnknownCard { name: String },
    /// The deck holds more copies of a card than the format allows.
    TooManyCopies { name: String, copies: usize, format: String, maximum: usize },
    /// The deck holds a card with a colour other than black.
    NotMonoBlack { name: String },
}

/// The model of a `DeckError`.
pub enum DeckFault {
    UnsupportedFormat { format: Text },
    TooFewCards { count: nat, format: Text, minimum: nat },
    UnknownCard { name: Text },
    TooManyCopies { name: Text, copies: nat, format: Text, maximum: nat },
    NotMonoBlack { name: Text },
}

impl View for DeckError {
    type V = DeckFault;

    open spec fn view(&self) -> DeckFault {
        match *self {
            DeckError::UnsupportedFormat { format } => DeckFault::UnsupportedFormat {
                format: format@,
            },
            DeckError::TooFewCards { count, format, minimum } => DeckFault::TooFewCards {
                count: count as nat,
                format: format@,
                minimum: minimum as nat,
            },
            DeckError::UnknownCard { name } => DeckFault::UnknownCard { name: name@ },
            DeckError::TooManyCopies { name, copies, format, maximum } => DeckFault::TooManyCopies {
                name: name@,
                copies: copies as nat,
                format: format@,
                maximum: maximum as nat,
            },
            DeckError::NotMonoBlack { name } => DeckFault::NotMonoBlack { name: name@ },
        }
    }
}

/// The message for a fault.
pub open spec fn fault_message(fault: DeckFault) -> Text {
    match fault {
        DeckFault::UnsupportedFormat { format } => "unsupported format '"@ + format + "'"@,
        DeckFault::TooFewCards { count, format, minimum } => "deck has "@ + decimal(count)
            + " cards; minimum for "@ + format + " is "@ + decimal(minimum),
        DeckFault::UnknownCard { name } => "card '"@ + name + "' not found in local DB"@,
        DeckFault::TooManyCopies { name, copies, format, maximum } => "card '"@ + name + "' has "@
            + decimal(copies) + " copies, max allowed in "@ + format + " is "@ + decimal(maximum),
        DeckFault::NotMonoBlack { name } => "yard format only allows mono-black/colorless cards; '"@
            + name + "' is not legal"@,
    }
}

impl DeckError {
    /// The message for this error.
    pub fn message(&self) -> (text: String)
        ensures
            text@ == fault_message(self@),
    {
        match self {
            DeckError::UnsupportedFormat { format } => {
                let mut text = "unsupported format '".to_string();
                text.append(format.as_str());
                text.append("'");
                text
            },
            DeckError::TooFewCards { count, format, minimum } => {
                let mut text = "deck has ".to_string();
                append_decimal(&mut text, *count as u64);
                text.append(" cards; minimum for ");
                text.append(format.as_str());
                text.append(" is ");
                append_decimal(&mut text, *minimum as u64);
                text
            },
            DeckError::UnknownCard { name } => {
                let mut text = "card '".to_string();
                text.append(name.as_str());
                text.append("' not found in local DB");
                text
            },
            DeckError::TooManyCopies { name, copies, format, maximum } => {
                let mut text = "card '".to_string();
                text.append(name.as_str());
                text.append("' has ");
                append_decimal(&mut text, *copies as u64);
                text.append(" copies, max allowed in ");
                text.append(format.as_str());
                text.append(" is ");
                append_decimal(&mut text, *maximum as u64);
                text
            },
            DeckError::NotMonoBlack { name } => {
                let mut text = "yard format only allows mono-black/colorless cards; '".to_string();
                text.append(name.as_str());
                text.append("' is not legal");
                text
            },
        }
    }
}

/// How many of the first `n` cards of `deck` have a profile called `name`.
pub open spec fn copies_among(deck: Seq<Text>, db: Cards, name: Text, n: int) -> nat
    decreases n,
{
    if n <= 0 {
        0
    } else {
        let before = copies_among(deck, db, name, n - 1);
        match known(db, deck[n - 1]) {
            Some(profile) => if profile.name == name {
                before + 1
            } else {
                before
            },
            None => before,
        }
    }
}

/// What is wrong with the card at position `k` of `deck`, given those before it.
pub open spec fn card_fault(
    format: Text,
    rules: FormatRules,
    deck: Seq<Text>,
    db: Cards,
    k: int,
) -> Option<DeckFault> {
    match known(db, deck[k]) {
        None => Some(DeckFault::UnknownCard { name: deck[k] }),
        Some(profile) => {
            let count = copies_among(deck, db, profile.name, k + 1);
            if !is_yard(format) && !profile.is_basic_land && count > rules.max_non_basic_copies {
                Some(
                    DeckFault::TooManyCopies {
                        name: profile.name,
                        copies: count,
                        format,
                        maximum: rules.max_non_basic_copies as nat,
                    },
                )
            } else if is_yard(format) && !profile.is_mono_black_legal {
                Some(DeckFault::NotMonoBlack { name: profile.name })
            } else {
                None
            }
        },
    }
}

/// What is wrong with the first faulty card among the first `n` of `deck`.
pub open spec fn first_card_fault(
    format: Text,
    rules: FormatRules,
    deck: Seq<Text>,
    db: Cards,
    n: int,
) -> Option<DeckFault>
    decreases n,
{
    if n <= 0 {
        None
    } else {
        match first_card_fault(format, rules, deck, db, n - 1) {
            Some(fault) => Some(fault),
            None => card_fault(format, rules, deck, db, n - 1),
        }
    }
}

/// What is wrong with a deck in a format.
pub open spec fn deck_fault(format: Text, deck: Seq<Text>, db: Cards) -> Option<DeckFault> {
    match rules_named(lowercase(format)) {
        None => Some(DeckFault::UnsupportedFormat { format }),
        Some(rules) => if deck.len() < rules.minimum_deck_size {
            Some(
                DeckFault::TooFewCards {
                    count: deck.len(),
                    format,
                    minimum: rules.minimum_deck_size as nat,
                },
            )
        } else {
            first_card_fault(format, rules, deck, db, deck.len() as int)
        },
    }
}

/// A fault among the first cards of a deck is the fault of the deck.
proof fn lemma_fault_stays(
    format: Text,
    rules: FormatRules,
    deck: Seq<Text>,
    db: Cards,
    k: int,
    n: int,
)
    requires
        0 <= k <= n,
        first_card_fault(format, rules, deck, db, k) is Some,
    ensures
        first_card_fault(format, rules, deck, db, n) == first_card_fault(
            format,
            rules,
            deck,
            db,
            k,
        ),
    decreases n - k,
{
    if k < n {
        lemma_fault_stays(format, rules, deck, db, k, n - 1);
    }
}

/// There are no more copies among the first cards than cards.
proof fn lemma_copies_bound(deck: Seq<Text>, db: Cards, name: Text, n: int)
    requires
        0 <= n,
    ensures
        copies_among(deck, db, name, n) <= n,
    decreases n,
{
    if n > 0 {
        lemma_copies_bound(deck, db, name, n - 1);
    }
}

/// A card without fault among cards without fault.
proof fn lemma_no_card_fault(
    format: Text,
    rules: FormatRules,
    deck: Seq<Text>,
    db: Cards,
    n: int,
    k: int,
)
    requires
        first_card_fault(format, rules, deck, db, n) is None,
        0 <= k < n,
    ensures
        card_fault(format, rules, deck, db, k) is None,
    decreases n,
{
    if k < n - 1 {
        lemma_no_card_fault(format, rules, deck, db, n - 1, k);
    }
}

/// Every card of an accepted deck is known and allowed, and there are enough of
/// them.
pub proof fn lemma_accepted_deck(format: Text, deck: Seq<Text>, db: Cards, k: int)
    requires
        deck_fault(format, deck, db) is None,
        0 <= k < deck.len(),
    ensures
        rules_named(lowercase(format)) is Some,
        deck.len() >= rules_named(lowercase(format))->0.minimum_deck_size,
        known(db, deck[k]) is Some,
        is_yard(format) ==> known(db, deck[k])->0.is_mono_black_legal,
{
    let rules = rules_named(lowercase(format))->0;
    lemma_no_card_fault(format, rules, deck, db, deck.len() as int, k);
}

/// An accepted deck holds no more copies of a card than its format allows, unless
/// the card is a basic land or the format is the shared one. A card here is a
/// profile name, and it is no basic land if no card of that name in the deck is.
pub proof fn lemma_accepted_copies(format: Text, deck: Seq<Text>, db: Cards, name: Text)
    requires
        deck_fault(format, deck, db) is None,
        !is_yard(format),
        forall|k: int|
            0 <= k < deck.len() && known(db, #[trigger] deck[k]) is Some && known(
                db,
                deck[k],
            )->0.name == name ==> !known(db, deck[k])->0.is_basic_land,
    ensures
        copies_among(deck, db, name, deck.len() as int) <= rules_named(
            lowercase(format),
        )->0.max_non_basic_copies,
{
    lemma_accepted_copies_within(format, deck, db, name, deck.len() as int);
}

proof fn lemma_accepted_copies_within(
    format: Text,
    deck: Seq<Text>,
    db: Cards,
    name: Text,
    n: int,
)
    requires
        deck_fault(format, deck, db) is None,
        !is_yard(format),
        0 <= n <= deck.len(),
        forall|k: int|
            0 <= k < deck.len() && known(db, #[trigger] deck[k]) is Some && known(
                db,
                deck[k],
            )->0.name == name ==> !known(db, deck[k])->0.is_basic_land,
    ensures
        copies_among(deck, db, name, n) <= rules_named(lowercase(format))->0.max_non_basic_copies,
    decreases n,
{
    if n > 0 {
        lemma_accepted_copies_within(format, deck, db, name, n - 1);
        let rules = rules_named(lowercase(format))->0;
        lemma_no_card_fault(format, rules, deck, db, deck.len() as int, n - 1);
        assert(known(db, deck[n - 1]) is Some);
    }
}

/// A deck of a known format that is large enough, and whose cards have no fault one
/// by one, is accepted.
pub proof fn lemma_deck_is_accepted(format: Text, deck: Seq<Text>, db: Cards)
    requires
        rules_named(lowercase(format)) is Some,
        deck.len() >= rules_named(lowercase(format))->0.minimum_deck_size,
        forall|k: int|
            0 <= k < deck.len() ==> #[trigger] card_fault(
                format,
                rules_named(lowercase(format))->0,
                deck,
                db,
                k,
            ) is None,
    ensures
        deck_fault(format, deck, db) is None,
{
    lemma_accepted_so_far(format, deck, db, deck.len() as int);
}

proof fn lemma_accepted_so_far(format: Text, deck: Seq<Text>, db: Cards, n: int)
    requires
        0 <= n <= deck.len(),
        forall|k: int|
            0 <= k < deck.len() ==> #[trigger] card_fault(
                format,
                rules_named(lowercase(format))->0,
                deck,
                db,
                k,
            ) is None,
    ensures
        first_card_fault(format, rules_named(lowercase(format))->0, deck, db, n) is None,
    decreases n,
{
    if n > 0 {
        lemma_accepted_so_far(format, deck, db, n - 1);
        assert(card_fault(format, rules_named(lowercase(format))->0, deck, db, n - 1) is None);
    }
}

/// The count under a name.
spec fn counted(counts: Map<Text, usize>, name: Text) -> nat {
    if counts.contains_key(name) {
        counts[name] as nat
    } else {
        0
    }
}

/// Holds a deck against the rules of a format.
pub fn validate_deck(format: &str, deck: &[DeckCard], card_db: &CardDb) -> (verdict: Result<
    (),
    DeckError,
>)
    ensures
        match deck_fault(format@, card_names(deck@), card_db@) {
            None => verdict is Ok,
            Some(fault) => verdict matches Err(error) && error@ == fault,
        },
{
    let rules = match rules_for_format(format) {
        Some(found) => found,
        None => {
            return Err(DeckError::UnsupportedFormat { format: format.to_string() });
        },
    };
    let yard = is_yard_format(format);
    if deck.len() < rules.minimum_deck_size {
        return Err(
            DeckError::TooFewCards {
                count: deck.len(),
                format: format.to_string(),
                minimum: rules.minimum_deck_size,
            },
        );
    }
    let ghost names = card_names(deck@);
    let mut counts: StringHashMap<usize> = StringHashMap::new();
    let mut k: usize = 0;
    while k < deck.len()
        invariant
            names == card_names(deck@),
            rules_named(lowercase(format@)) == Some(rules),
            yard == is_yard(format@),
            deck@.len() >= rules.minimum_deck_size,
            k <= deck@.len(),
            first_card_fault(format@, rules, names, card_db@, k as int) is None,
            forall|name: Text|
                #[trigger] counted(counts@, name) == copies_among(names, card_db@, name, k as int),
        decreases deck@.len() - k,
    {
        proof {
            assert(names[k as int] == deck@[k as int]@);
            if first_card_fault(format@, rules, names, card_db@, k + 1) is Some {
                lemma_fault_stays(
                    format@,
                    rules,
                    names,
                    card_db@,
                    k + 1,
                    deck@.len() as int,
                );
            }
        }
        let profile = match card_profile_for(&deck[k], card_db) {
            Some(found) => found,
            None => {
                return Err(DeckError::UnknownCard { name: deck[k].name.clone() });
            },
        };
        proof {
            lemma_copies_bound(names, card_db@, profile.name@, k as int);
        }
        let earlier: usize = match counts.get(profile.name.as_str()) {
            Some(count) => *count,
            None => 0,
        };
        assert(counted(counts@, profile.name@) == earlier);
        let count: usize = earlier + 1;
        let ghost before = counts@;
        counts.insert(profile.name.clone(), count);
        proof {
            assert forall|name: Text| #[trigger] counted(counts@, name) == copies_among(
                names,
                card_db@,
                name,
                k + 1,
            ) by {
                assert(counted(before, name) == copies_among(names, card_db@, name, k as int));
            }
            assert(counted(counts@, profile.name@) == count);
        }
        if !yard && !profile.is_basic_land && count > rules.max_non_basic_copies {
            return Err(
                DeckError::TooManyCopies {
                    name: profile.name.clone(),
                    copies: count,
                    format: format.to_string(),
                    maximum: rules.max_non_basic_copies,
                },
            );
        }
        if yard && !profile.is_mono_black_legal {
            return Err(DeckError::NotMonoBlack { name: profile.name.clone() });
        }
        k += 1;
    }
    Ok(())
}

} // verus!
