//! What holds of every deck list and every deck.

use crate::cards::{card_names, known, Cards, DeckCard};
use crate::config::{config_fault, ConfigError, RunConfig};
use crate::decks::{
    card_fault, copies, copies_among, deck_fault, deck_line, deck_of_entries, deck_of_lines,
    fault_message, first_card_fault, is_deck_result, is_yard, lemma_deck_is_accepted, rules_named,
    DeckError, DeckFault, DeckListEntry, DeckListError, FormatRules,
};
use crate::text::{
    decimal, first_position, folded, is_ascii_text, lemma_first_position, lowercase,
    parsed_unsigned, same_ignoring_ascii_case, trimmed, Text,
};
use crate::text_laws::lemma_agreement_is_equal_lowercase;
use vstd::prelude::*;

verus! {

// ---------------------------------------------------------------------------
// Deck lists
// ---------------------------------------------------------------------------

/// A line is split at its first space: what stands before it is the count, what stands
/// after it, without the whitespace at its ends, is the name. Both are needed.
pub proof fn lemma_deck_line_parts(count: Text, name: Text)
    requires
        forall|i: int| 0 <= i < count.len() ==> #[trigger] count[i] != ' ',
    ensures
        deck_line(count) is None,
        parsed_unsigned(count, usize::MAX as nat) is None ==> deck_line(count + seq![' '] + name)
            is None,
        trimmed(name).len() == 0 ==> deck_line(count + seq![' '] + name) is None,
        trimmed(name).len() > 0 ==> (parsed_unsigned(count, usize::MAX as nat) matches Some(n)
            ==> deck_line(count + seq![' '] + name) == Some((n, trimmed(name)))),
{
    let line = count + seq![' '] + name;
    lemma_first_position(count, ' ');
    lemma_first_position(line, ' ');
    let at = count.len() as int;
    assert(line[at] == ' ');
    assert forall|i: int| 0 <= i < at implies line[i] != ' ' by {
        assert(line[i] == count[i]);
    }
    assert(first_position(line, ' ') == at);
    assert(line.take(at) =~= count);
    assert(line.skip(at + 1) =~= name);
}

/// A list of one line: nothing where the line is blank, a comment or the marker; as many
/// copies of a card as it says; and otherwise the line itself, as an error.
pub proof fn lemma_list_of_one_line(row: Text)
    ensures
        ({
            let line = trimmed(row);
            let nothing = Ok::<Seq<Text>, Text>(Seq::empty());
            if line.len() == 0 || line[0] == '#' || same_ignoring_ascii_case(
                line,
                "sideboard"@,
            ) {
                deck_of_lines(seq![row]) == nothing
            } else {
                match deck_line(line) {
                    Some((n, name)) => deck_of_lines(seq![row]) matches Ok(cards) && cards.len()
                        == n && forall|i: int| 0 <= i < n ==> #[trigger] cards[i] == name,
                    None => deck_of_lines(seq![row]) == Err::<Seq<Text>, Text>(line),
                }
            }
        }),
        deck_of_lines(Seq::empty()) == Ok::<Seq<Text>, Text>(Seq::empty()),
{
    reveal_with_fuel(deck_of_lines, 2);
    assert(seq![row].drop_first() =~= Seq::<Text>::empty());
}

/// A structured list of one entry: as many copies of the name as it says, letter for
/// letter, unless there is nothing in the name but whitespace.
pub proof fn lemma_list_of_one_entry(entry: DeckListEntry)
    ensures
        trimmed(entry.name@).len() == 0 ==> deck_of_entries(seq![entry]) is None,
        trimmed(entry.name@).len() > 0 ==> (deck_of_entries(seq![entry]) matches Some(cards)
            && cards.len() == entry.count && forall|i: int|
            0 <= i < entry.count ==> #[trigger] cards[i] == entry.name@),
        deck_of_entries(Seq::empty()) == Some(Seq::<Text>::empty()),
{
    reveal_with_fuel(deck_of_entries, 2);
    assert(seq![entry].drop_last() =~= Seq::<DeckListEntry>::empty());
}

/// A structured list names the cards of its first entries and then those of its last
/// ones, and none if either part names none.
pub proof fn lemma_entries_add_up(above: Seq<DeckListEntry>, below: Seq<DeckListEntry>)
    ensures
        deck_of_entries(above) is None ==> deck_of_entries(above + below) is None,
        deck_of_entries(below) is None ==> deck_of_entries(above + below) is None,
        deck_of_entries(above) matches Some(first) ==> (deck_of_entries(below) matches Some(second)
            ==> deck_of_entries(above + below) == Some(first + second)),
    decreases below.len(),
{
    let all = above + below;
    if below.len() == 0 {
        assert(all =~= above);
        if let Some(first) = deck_of_entries(above) {
            assert(first + Seq::<Text>::empty() =~= first);
        }
    } else {
        assert(all.drop_last() =~= above + below.drop_last());
        assert(all.last() == below.last());
        lemma_entries_add_up(above, below.drop_last());
        if let (Some(first), Some(second)) = (
            deck_of_entries(above),
            deck_of_entries(below.drop_last()),
        ) {
            let own = copies(below.last().count as nat, below.last().name@);
            assert((first + second) + own =~= first + (second + own));
        }
    }
}

/// What a reader of deck lists gives back: the cards in their order; an error with the
/// line that could not be read; or an error where there is no card.
pub proof fn lemma_read_decks(
    deck: Result<Vec<DeckCard>, DeckListError>,
    cards: Seq<Text>,
    line: Text,
)
    ensures
        is_deck_result(deck, Ok(cards)) && cards.len() > 0 <==> deck is Ok && cards.len() > 0
            && deck->Ok_0@.len() == cards.len() && forall|i: int|
            0 <= i < cards.len() ==> (#[trigger] deck->Ok_0@[i]).name@ == cards[i],
        is_deck_result(deck, Ok(Seq::empty())) <==> deck == Err::<Vec<DeckCard>, DeckListError>(
            DeckListError::NoCards,
        ),
        is_deck_result(deck, Err(line)) <==> deck is Err && deck->Err_0 is InvalidLine
            && deck->Err_0->0@ == line,
{
    if deck is Ok {
        let found = deck->Ok_0@;
        assert(card_names(found).len() == found.len());
        if found.len() == cards.len() && forall|i: int|
            0 <= i < cards.len() ==> (#[trigger] found[i]).name@ == cards[i] {
            assert(card_names(found) =~= cards);
        }
        if card_names(found) == cards {
            assert forall|i: int| 0 <= i < cards.len() implies (#[trigger] found[i]).name@
                == cards[i] by {
                assert(card_names(found)[i] == found[i]@);
            }
        }
    }
}

// ---------------------------------------------------------------------------
// Formats
// ---------------------------------------------------------------------------

/// The yard format is the one whose name is "yard" in whatever case.
pub proof fn lemma_yard_by_name(format: Text)
    ensures
        is_yard(format) <==> is_ascii_text(format) && lowercase(format) == "yard"@,
{
    reveal_strlit("yard");
    let yard = "yard"@;
    assert(is_ascii_text(yard));
    assert(lowercase(yard) =~= yard);
    if is_yard(format) {
        assert forall|i: int| 0 <= i < format.len() implies (#[trigger] format[i] as u32) < 128 by {
            assert(folded(format[i]) == folded(yard[i]));
        }
    }
    if is_ascii_text(format) {
        lemma_agreement_is_equal_lowercase(format, yard);
    }
}

/// The formats: six with decks of at least 60 cards and at most 4 copies of a card,
/// commander with 100 and 1, and the yard with 60.
pub proof fn lemma_formats(name: Text)
    ensures
        rules_named(name) is Some <==> seq![
            "standard"@,
            "pioneer"@,
            "modern"@,
            "legacy"@,
            "vintage"@,
            "pauper"@,
            "commander"@,
            "yard"@,
        ].contains(name),
        rules_named("commander"@) matches Some(rules) && rules.minimum_deck_size == 100
            && rules.max_non_basic_copies == 1,
        rules_named("yard"@) matches Some(rules) && rules.minimum_deck_size == 60
            && rules.max_non_basic_copies == 0,
        rules_named(name) matches Some(rules) ==> name != "commander"@ ==> rules.minimum_deck_size
            == 60,
        rules_named(name) matches Some(rules) ==> name != "commander"@ && name != "yard"@
            ==> rules.max_non_basic_copies == 4,
{
    reveal_strlit("standard");
    reveal_strlit("pioneer");
    reveal_strlit("modern");
    reveal_strlit("legacy");
    reveal_strlit("vintage");
    reveal_strlit("pauper");
    reveal_strlit("commander");
    reveal_strlit("yard");
    let names = seq![
        "standard"@,
        "pioneer"@,
        "modern"@,
        "legacy"@,
        "vintage"@,
        "pauper"@,
        "commander"@,
        "yard"@,
    ];
    assert(names[0] == "standard"@ && names[1] == "pioneer"@ && names[2] == "modern"@ && names[3]
        == "legacy"@ && names[4] == "vintage"@ && names[5] == "pauper"@ && names[6]
        == "commander"@ && names[7] == "yard"@);
    assert("commander"@.len() == 9 && "yard"@.len() == 4 && "standard"@.len() == 8);
    assert("modern"@.len() == 6 && "legacy"@.len() == 6 && "pauper"@.len() == 6);
    assert("pioneer"@.len() == 7 && "vintage"@.len() == 7);
}

// ---------------------------------------------------------------------------
// Decks
// ---------------------------------------------------------------------------

/// The count of a card is the number of positions, among the first `n` of a deck, whose
/// card has a profile of its name.
pub proof fn lemma_copies_are_positions(deck: Seq<Text>, db: Cards, name: Text, n: int)
    requires
        0 <= n,
    ensures
        ({
            let places = Set::new(
                |i: int|
                    0 <= i < n && known(db, deck[i]) is Some && known(db, deck[i])->0.name == name,
            );
            places.finite() && copies_among(deck, db, name, n) == places.len()
        }),
    decreases n,
{
    let places = Set::new(
        |i: int| 0 <= i < n && known(db, deck[i]) is Some && known(db, deck[i])->0.name == name,
    );
    if n == 0 {
        assert(places =~= Set::<int>::empty());
    } else {
        lemma_copies_are_positions(deck, db, name, n - 1);
        let before = Set::new(
            |i: int|
                0 <= i < n - 1 && known(db, deck[i]) is Some && known(db, deck[i])->0.name == name,
        );
        if known(db, deck[n - 1]) is Some && known(db, deck[n - 1])->0.name == name {
            assert(places =~= before.insert(n - 1));
        } else {
            assert(places =~= before);
        }
    }
}

/// There are no fewer copies among more cards.
proof fn lemma_more_cards_more_copies(deck: Seq<Text>, db: Cards, name: Text, m: int, n: int)
    requires
        0 <= m <= n,
    ensures
        copies_among(deck, db, name, m) <= copies_among(deck, db, name, n),
    decreases n - m,
{
    if m < n {
        lemma_more_cards_more_copies(deck, db, name, m, n - 1);
    }
}

/// Outside the yard, a deck is accepted that is large enough, whose cards are all known,
/// and that holds no card but basic lands at more positions than the format allows.
/// Different cards are counted apart.
pub proof fn lemma_legal_deck_is_accepted(
    format: Text,
    rules: FormatRules,
    deck: Seq<Text>,
    db: Cards,
)
    requires
        rules_named(lowercase(format)) == Some(rules),
        !is_yard(format),
        deck.len() >= rules.minimum_deck_size,
        forall|k: int| 0 <= k < deck.len() ==> known(db, #[trigger] deck[k]) is Some,
        forall|k: int|
            0 <= k < deck.len() && !known(db, #[trigger] deck[k])->0.is_basic_land ==> Set::new(
                |i: int|
                    0 <= i < deck.len() && known(db, deck[i]) is Some && known(db, deck[i])->0.name
                        == known(db, deck[k])->0.name,
            ).len() <= rules.max_non_basic_copies,
    ensures
        deck_fault(format, deck, db) is None,
{
    assert forall|k: int| 0 <= k < deck.len() implies #[trigger] card_fault(
        format,
        rules_named(lowercase(format))->0,
        deck,
        db,
        k,
    ) is None by {
        assert(known(db, deck[k]) is Some);
        let name = known(db, deck[k])->0.name;
        if !known(db, deck[k])->0.is_basic_land {
            lemma_copies_are_positions(deck, db, name, deck.len() as int);
            lemma_more_cards_more_copies(deck, db, name, k + 1, deck.len() as int);
            assert(Set::new(
                |i: int|
                    0 <= i < deck.len() && known(db, deck[i]) is Some && known(db, deck[i])->0.name
                        == name,
            ) =~= Set::new(
                |i: int|
                    0 <= i < deck.len() && known(db, deck[i]) is Some && known(db, deck[i])->0.name
                        == known(db, deck[k])->0.name,
            ));
        }
    }
    lemma_deck_is_accepted(format, deck, db);
}

/// In the yard, a deck is accepted that is large enough, and whose cards are all known
/// and black or colourless, however often it holds them.
pub proof fn lemma_black_deck_is_accepted(format: Text, deck: Seq<Text>, db: Cards)
    requires
        is_yard(format),
        deck.len() >= 60,
        forall|k: int|
            0 <= k < deck.len() ==> known(db, #[trigger] deck[k]) is Some && known(
                db,
                deck[k],
            )->0.is_mono_black_legal,
    ensures
        deck_fault(format, deck, db) is None,
{
    lemma_yard_by_name(format);
    lemma_formats(lowercase(format));
    assert forall|k: int| 0 <= k < deck.len() implies #[trigger] card_fault(
        format,
        rules_named(lowercase(format))->0,
        deck,
        db,
        k,
    ) is None by {
        assert(known(db, deck[k]) is Some);
    }
    lemma_deck_is_accepted(format, deck, db);
}

/// An unknown format is named before anything else, and then the size of a deck that is
/// too small.
pub proof fn lemma_format_and_size_come_first(format: Text, deck: Seq<Text>, db: Cards)
    ensures
        rules_named(lowercase(format)) is None ==> deck_fault(format, deck, db) == Some(
            DeckFault::UnsupportedFormat { format },
        ),
        rules_named(lowercase(format)) matches Some(rules) ==> deck.len() < rules.minimum_deck_size
            ==> deck_fault(format, deck, db) == Some(
            DeckFault::TooFewCards {
                count: deck.len(),
                format,
                minimum: rules.minimum_deck_size as nat,
            },
        ),
{
}

/// Of a deck that is large enough, the fault is that of its first faulty card: that it
/// is unknown; that it is one copy too many, counting the positions up to it whose cards
/// bear its name; or that it is not black.
pub proof fn lemma_first_faulty_card(
    format: Text,
    rules: FormatRules,
    deck: Seq<Text>,
    db: Cards,
    k: int,
)
    requires
        rules_named(lowercase(format)) == Some(rules),
        deck.len() >= rules.minimum_deck_size,
        0 <= k < deck.len(),
        forall|j: int|
            0 <= j < k ==> known(db, #[trigger] deck[j]) is Some && if is_yard(format) {
                known(db, deck[j])->0.is_mono_black_legal
            } else {
                known(db, deck[j])->0.is_basic_land || Set::new(
                    |i: int|
                        0 <= i < j + 1 && known(db, deck[i]) is Some && known(
                            db,
                            deck[i],
                        )->0.name == known(db, deck[j])->0.name,
                ).len() <= rules.max_non_basic_copies
            },
    ensures
        known(db, deck[k]) is None ==> deck_fault(format, deck, db) == Some(
            DeckFault::UnknownCard { name: deck[k] },
        ),
        known(db, deck[k]) matches Some(profile) ==> {
            let count = Set::new(
                |i: int|
                    0 <= i < k + 1 && known(db, deck[i]) is Some && known(db, deck[i])->0.name
                        == profile.name,
            ).len();
            &&& is_yard(format) && !profile.is_mono_black_legal ==> deck_fault(format, deck, db)
                == Some(DeckFault::NotMonoBlack { name: profile.name })
            &&& !is_yard(format) && !profile.is_basic_land && count > rules.max_non_basic_copies
                ==> deck_fault(format, deck, db) == Some(
                DeckFault::TooManyCopies {
                    name: profile.name,
                    copies: count,
                    format,
                    maximum: rules.max_non_basic_copies as nat,
                },
            )
        },
{
    lemma_no_fault_before(format, rules, deck, db, k, k);
    if let Some(profile) = known(db, deck[k]) {
        lemma_copies_are_positions(deck, db, profile.name, k + 1);
    }
    if card_fault(format, rules, deck, db, k) is Some {
        assert(first_card_fault(format, rules, deck, db, k + 1) == card_fault(
            format,
            rules,
            deck,
            db,
            k,
        ));
        lemma_fault_remains(format, rules, deck, db, k + 1, deck.len() as int);
    }
}

proof fn lemma_fault_remains(
    format: Text,
    rules: FormatRules,
    deck: Seq<Text>,
    db: Cards,
    k: int,
    n: int,
)
    requires
        0 <= k <= n,
        first_card_fault(format, rules, deck, db, k) is Some,
    ensures
        first_card_fault(format, rules, deck, db, n) == first_card_fault(
            format,
            rules,
            deck,
            db,
            k,
        ),
    decreases n - k,
{
    if k < n {
        lemma_fault_remains(format, rules, deck, db, k, n - 1);
    }
}

proof fn lemma_no_fault_before(
    format: Text,
    rules: FormatRules,
    deck: Seq<Text>,
    db: Cards,
    k: int,
    n: int,
)
    requires
        0 <= n <= k < deck.len(),
        forall|j: int|
            0 <= j < k ==> known(db, #[trigger] deck[j]) is Some && if is_yard(format) {
                known(db, deck[j])->0.is_mono_black_legal
            } else {
                known(db, deck[j])->0.is_basic_land || Set::new(
                    |i: int|
                        0 <= i < j + 1 && known(db, deck[i]) is Some && known(
                            db,
                            deck[i],
                        )->0.name == known(db, deck[j])->0.name,
                ).len() <= rules.max_non_basic_copies
            },
    ensures
        first_card_fault(format, rules, deck, db, n) is None,
    decreases n,
{
    if n > 0 {
        lemma_no_fault_before(format, rules, deck, db, k, n - 1);
        let j = n - 1;
        assert(known(db, deck[j]) is Some);
        let name = known(db, deck[j])->0.name;
        lemma_copies_are_positions(deck, db, name, j + 1);
        assert(Set::new(
            |i: int|
                0 <= i < j + 1 && known(db, deck[i]) is Some && known(db, deck[i])->0.name == name,
        ) =~= Set::new(
            |i: int|
                0 <= i < j + 1 && known(db, deck[i]) is Some && known(db, deck[i])->0.name
                    == known(db, deck[j])->0.name,
        ));
    }
}

/// The message for a fault names the format, the card and the numbers of the fault.
pub proof fn lemma_fault_messages(name: Text, format: Text, m: nat, n: nat)
    ensures
        fault_message(DeckFault::UnsupportedFormat { format }) == "unsupported format '"@ + format
            + "'"@,
        fault_message(DeckFault::TooFewCards { count: m, format, minimum: n }) == "deck has "@
            + decimal(m) + " cards; minimum for "@ + format + " is "@ + decimal(n),
        fault_message(DeckFault::UnknownCard { name }) == "card '"@ + name
            + "' not found in local DB"@,
        fault_message(DeckFault::TooManyCopies { name, copies: m, format, maximum: n })
            == "card '"@ + name + "' has "@ + decimal(m) + " copies, max allowed in "@ + format
            + " is "@ + decimal(n),
        fault_message(DeckFault::NotMonoBlack { name })
            == "yard format only allows mono-black/colorless cards; '"@ + name + "' is not legal"@,
{
}

/// An error carries what its fault says.
pub proof fn lemma_errors_carry_their_faults(error: DeckError)
    ensures
        error matches DeckError::UnsupportedFormat { format } ==> error@
            == (DeckFault::UnsupportedFormat { format: format@ }),
        error matches DeckError::TooFewCards { count, format, minimum } ==> error@
            == (DeckFault::TooFewCards {
            count: count as nat,
            format: format@,
            minimum: minimum as nat,
        }),
        error matches DeckError::UnknownCard { name } ==> error@ == (DeckFault::UnknownCard {
            name: name@,
        }),
        error matches DeckError::TooManyCopies { name, copies, format, maximum } ==> error@
            == (DeckFault::TooManyCopies {
            name: name@,
            copies: copies as nat,
            format: format@,
            maximum: maximum as nat,
        }),
        error matches DeckError::NotMonoBlack { name } ==> error@ == (DeckFault::NotMonoBlack {
            name: name@,
        }),
{
}

// ---------------------------------------------------------------------------
// Configurations
// ---------------------------------------------------------------------------

/// A configuration is accepted exactly if games are to be played, both players have a
/// name that is not blank, and in the yard both decks are at one path; what is missing
/// first is named.
pub proof fn lemma_configurations(cfg: RunConfig)
    ensures
        config_fault(cfg) is None <==> cfg.iterations >= 1 && trimmed(cfg.player1.name@).len() >= 1
            && trimmed(cfg.player2.name@).len() >= 1 && (is_yard(cfg.format@) ==> trimmed(
            cfg.player1.deck_path@,
        ) == trimmed(cfg.player2.deck_path@)),
        cfg.iterations == 0 <==> config_fault(cfg) == Some(ConfigError::NoIterations),
        config_fault(cfg) == Some(ConfigError::EmptyPlayerName) <==> cfg.iterations >= 1 && (
        trimmed(cfg.player1.name@).len() == 0 || trimmed(cfg.player2.name@).len() == 0),
{
}

} // verus!
