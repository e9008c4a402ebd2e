//! What holds of every card that is read and looked up.

use crate::cards::{
    damage_in, indexed, kind_of, kind_of_card, known, lemma_first_printing_counts,
    lemma_no_other_names, profile_of_card, regex_first_group, ritual_in, CardKind, Cards, Profile,
    ScryfallCard,
};
use crate::text::{
    contains_text, decimal, lowercase, occurrences, occurs_at, parsed_i32, signed_decimal, Text,
};
use crate::text_laws::{lemma_integers_read_back, lemma_occurrences_are_positions};
use vstd::prelude::*;

verus! {

// ---------------------------------------------------------------------------
// Kinds
// ---------------------------------------------------------------------------

/// A card with "land" in its type line is a land, whatever else it is.
pub proof fn lemma_lands(card: ScryfallCard)
    requires
        contains_text(lowercase(card.type_line@), "land"@),
    ensures
        kind_of_card(card) == CardKind::Land,
        profile_of_card(card).kind == CardKind::Land,
{
}

/// A creature has the power and the toughness that are printed on it in decimal.
pub proof fn lemma_printed_power_and_toughness(card: ScryfallCard, p: i32, t: i32)
    requires
        contains_text(lowercase(card.type_line@), "creature"@),
        !contains_text(lowercase(card.type_line@), "land"@),
        card.power matches Some(power) && power@ == signed_decimal(p as int),
        card.toughness matches Some(toughness) && toughness@ == signed_decimal(t as int),
    ensures
        kind_of_card(card) == (CardKind::Creature { power: p, toughness: t }),
        profile_of_card(card).kind == (CardKind::Creature { power: p, toughness: t }),
{
    lemma_signed_decimal_reads_back(p);
    lemma_signed_decimal_reads_back(t);
}

/// A creature with printed power and toughness in decimal, without a sign.
pub proof fn lemma_plain_power_and_toughness(card: ScryfallCard, p: nat, t: nat)
    requires
        contains_text(lowercase(card.type_line@), "creature"@),
        !contains_text(lowercase(card.type_line@), "land"@),
        p <= i32::MAX,
        t <= i32::MAX,
        card.power matches Some(power) && power@ == decimal(p),
        card.toughness matches Some(toughness) && toughness@ == decimal(t),
    ensures
        kind_of_card(card) == (CardKind::Creature { power: p as i32, toughness: t as i32 }),
{
    lemma_integers_read_back(p);
    lemma_integers_read_back(t);
}

/// A number is read back from its decimal form, with a sign if it has one.
pub proof fn lemma_signed_decimal_reads_back(i: i32)
    ensures
        parsed_i32(signed_decimal(i as int)) == Some(i as int),
{
    reveal_strlit("-");
    if i < 0 {
        lemma_integers_read_back((-i) as nat);
        assert("-"@ =~= seq!['-']);
    } else {
        lemma_integers_read_back(i as nat);
    }
}

/// The power and the toughness of a creature are read one by one: what is no number, or
/// not printed, counts as 1.
pub proof fn lemma_power_and_toughness_are_independent(card: ScryfallCard)
    requires
        contains_text(lowercase(card.type_line@), "creature"@),
        !contains_text(lowercase(card.type_line@), "land"@),
    ensures
        kind_of_card(card) matches CardKind::Creature { power, toughness } && {
            &&& card.power is None ==> power == 1
            &&& card.power matches Some(text) ==> parsed_i32(text@) is None ==> power == 1
            &&& card.power matches Some(text) ==> parsed_i32(text@) matches Some(n) ==> power == n
            &&& card.toughness is None ==> toughness == 1
            &&& card.toughness matches Some(text) ==> parsed_i32(text@) is None ==> toughness == 1
            &&& card.toughness matches Some(text) ==> parsed_i32(text@) matches Some(n)
                ==> toughness == n
        },
{
}

/// A spell whose text says "add" gives one mana for each black mana symbol in the text,
/// if there is one, whatever damage it deals.
pub proof fn lemma_rituals(card: ScryfallCard, text: Text)
    requires
        !contains_text(lowercase(card.type_line@), "land"@),
        !contains_text(lowercase(card.type_line@), "creature"@),
        card.oracle_text matches Some(oracle) && oracle@ == text,
        contains_text(lowercase(text), "add"@),
    ensures
        ({
            let lower = lowercase(text);
            let symbols = Set::new(
                |at: int| 0 <= at && at + 3 <= lower.len() && lower.subrange(at, at + 3) == "{b}"@,
            ).len();
            0 < symbols <= u32::MAX ==> kind_of_card(card) == CardKind::ManaRitual {
                mana: symbols as u32,
            }
        }),
{
    lemma_symbols(lowercase(text));
}

proof fn lemma_symbols(lower: Text)
    ensures
        ({
            let symbols = Set::new(
                |at: int| 0 <= at && at + 3 <= lower.len() && lower.subrange(at, at + 3) == "{b}"@,
            );
            symbols.finite() && occurrences(lower, "{b}"@) == symbols.len()
        }),
{
    reveal_strlit("{b}");
    let part = "{b}"@;
    assert(part.len() == 3);
    assert(part[1] != part[0] && part[2] != part[0]);
    lemma_occurrences_are_positions(lower, part);
    assert(Set::new(
        |at: int| 0 <= at && at + 3 <= lower.len() && lower.subrange(at, at + 3) == "{b}"@,
    ) =~= Set::new(
        |at: int|
            0 <= at && at + part.len() <= lower.len() && lower.subrange(at, at + part.len())
                == part,
    ));
}

/// A spell that is no ritual deals the damage that its text names in decimal.
pub proof fn lemma_burn(card: ScryfallCard, text: Text, d: nat)
    requires
        !contains_text(lowercase(card.type_line@), "land"@),
        !contains_text(lowercase(card.type_line@), "creature"@),
        card.oracle_text matches Some(oracle) && oracle@ == text,
        !contains_text(lowercase(text), "add"@) || !contains_text(lowercase(text), "{b}"@),
        d <= i32::MAX,
        regex_first_group(
            "deals (\\d+) damage to (?:any target|target creature|target player|each opponent)"@,
            lowercase(text),
        ) == Some(decimal(d)),
    ensures
        kind_of_card(card) == (CardKind::Burn { damage: d as i32 }),
{
    lemma_integers_read_back(d);
    lemma_no_symbols(lowercase(text));
}

proof fn lemma_no_symbols(lower: Text)
    ensures
        !contains_text(lower, "{b}"@) ==> occurrences(lower, "{b}"@) == 0,
    decreases lower.len(),
{
    lemma_symbols(lower);
    reveal_strlit("{b}");
    if !contains_text(lower, "{b}"@) {
        let symbols = Set::new(
            |at: int| 0 <= at && at + 3 <= lower.len() && lower.subrange(at, at + 3) == "{b}"@,
        );
        assert forall|at: int| !#[trigger] symbols.contains(at) by {
            assert(!occurs_at(lower, "{b}"@, at));
        }
        assert(symbols =~= Set::<int>::empty());
    }
}

/// A spell without rules text, or whose text neither adds black mana nor names an amount
/// of damage, is some other spell.
pub proof fn lemma_other_spells(card: ScryfallCard)
    requires
        !contains_text(lowercase(card.type_line@), "land"@),
        !contains_text(lowercase(card.type_line@), "creature"@),
        card.oracle_text matches Some(text) ==> {
            let lower = lowercase(text@);
            &&& !contains_text(lower, "add"@) || !contains_text(lower, "{b}"@)
            &&& regex_first_group(
                "deals (\\d+) damage to (?:any target|target creature|target player|each opponent)"@,
                lower,
            ) matches Some(amount) ==> parsed_i32(amount) is None
        },
    ensures
        kind_of_card(card) == CardKind::OtherSpell,
{
    if let Some(text) = card.oracle_text {
        lemma_no_symbols(lowercase(text@));
    }
}

/// What a rules text adds: nothing unless it says "add" and holds a black mana symbol,
/// and otherwise one mana for each position at which the symbol stands.
pub proof fn lemma_ritual_amount(text: Text)
    ensures
        ({
            let lower = lowercase(text);
            let symbols = Set::new(
                |at: int| 0 <= at && at + 3 <= lower.len() && lower.subrange(at, at + 3) == "{b}"@,
            ).len();
            &&& !contains_text(lower, "add"@) || !contains_text(lower, "{b}"@) ==> ritual_in(text)
                is None
            &&& contains_text(lower, "add"@) && 0 < symbols <= u32::MAX ==> ritual_in(text) == Some(
                symbols as u32,
            )
        }),
{
    lemma_symbols(lowercase(text));
    lemma_no_symbols(lowercase(text));
}

/// What a rules text deals: the number that the pattern captures in its lower-case form.
pub proof fn lemma_damage_amount(text: Text, d: nat)
    ensures
        ({
            let captured = regex_first_group(
                "deals (\\d+) damage to (?:any target|target creature|target player|each opponent)"@,
                lowercase(text),
            );
            &&& captured is None ==> damage_in(text) is None
            &&& captured == Some(decimal(d)) && d <= i32::MAX ==> damage_in(text) == Some(d as int)
            &&& captured == Some(decimal(d)) && d > i32::MAX ==> damage_in(text) is None
        }),
{
    lemma_integers_read_back(d);
}

/// A profile has the name and the mana value of its card; it is a basic land where the
/// type line says so, and legal in the yard where the colour identity holds no colour
/// but black.
pub proof fn lemma_profiles(card: ScryfallCard)
    ensures
        profile_of_card(card).name == card.name@,
        profile_of_card(card).cmc == card.cmc,
        profile_of_card(card).kind == kind_of_card(card),
        profile_of_card(card).is_basic_land <==> contains_text(
            lowercase(card.type_line@),
            "basic land"@,
        ),
        card.color_identity is None ==> profile_of_card(card).is_mono_black_legal,
        card.color_identity matches Some(colours) ==> (profile_of_card(card).is_mono_black_legal
            <==> !exists|i: int| 0 <= i < colours@.len() && (#[trigger] colours@[i])@ != "B"@),
{
}

// ---------------------------------------------------------------------------
// Looking cards up
// ---------------------------------------------------------------------------

/// A table without cards knows no card.
pub proof fn lemma_empty_table(name: Text)
    ensures
        known(Map::empty(), name) is None,
        kind_of(Map::empty(), name) == CardKind::OtherSpell,
{
}

/// A profile is found under the lower-case form of its key's name, and takes nothing
/// away from other names.
pub proof fn lemma_profile_under_a_key(db: Cards, key: Text, profile: Profile, name: Text)
    ensures
        lowercase(name) == key ==> known(db.insert(key, profile), name) == Some(profile) && kind_of(
            db.insert(key, profile),
            name,
        ) == profile.kind,
        lowercase(name) != key ==> known(db.insert(key, profile), name) == known(db, name)
            && kind_of(db.insert(key, profile), name) == kind_of(db, name),
{
}

/// Of the cards of a list, a name means the first one whose name has the same lower-case
/// form, with its own name, kind and mana value.
pub proof fn lemma_name_means_the_first_card(cards: Seq<ScryfallCard>, name: Text, i: int)
    requires
        0 <= i < cards.len(),
        lowercase(cards[i].name@) == lowercase(name),
        forall|j: int| 0 <= j < i ==> lowercase((#[trigger] cards[j]).name@) != lowercase(name),
    ensures
        known(indexed(cards), name) matches Some(found) && found.name == cards[i].name@
            && found.cmc == cards[i].cmc && found.kind == kind_of_card(cards[i])
            && found.is_basic_land == contains_text(
            lowercase(cards[i].type_line@),
            "basic land"@,
        ) && found.is_mono_black_legal == profile_of_card(cards[i]).is_mono_black_legal,
{
    assert forall|j: int| 0 <= j < i implies lowercase((#[trigger] cards[j]).name@) != lowercase(
        cards[i].name@,
    ) by {}
    lemma_first_printing_counts(cards, i);
}

/// A name that no card of a list bears, in whatever case, means nothing.
pub proof fn lemma_other_names_mean_nothing(cards: Seq<ScryfallCard>, name: Text)
    requires
        forall|j: int|
            0 <= j < cards.len() ==> lowercase((#[trigger] cards[j]).name@) != lowercase(name),
    ensures
        known(indexed(cards), name) is None,
{
    lemma_no_other_names(cards, lowercase(name));
}

} // verus!
