//! Cards: what the rules engine knows of each card, and how that is read off the
//! text of the card.

use crate::text::{
    ascii_lowercase, contains, contains_text, count_occurrences, folded, is_ascii_text, lowercase,
    occurrences, parse_int, parsed_i32, same_ignoring_ascii_case, same_text, to_lowercase, Text,
};
use vstd::hash_map::StringHashMap;
use vstd::prelude::*;

verus! {

/// What a card does when it is played.
#[derive(Debug, Clone, Copy, PartialEq, Eq, Structural)]
pub enum CardKind {
    Land,
    Creature { power: i32, toughness: i32 },
    Burn { damage: i32 },
    ManaRitual { mana: u32 },
    OtherSpell,
}

/// What the engine knows of a card.
#[derive(Debug)]
pub struct CardProfile {
    pub name: String,
    pub kind: CardKind,
    pub cmc: u32,
    pub is_basic_land: bool,
    pub is_mono_black_legal: bool,
}

/// The model of a `CardProfile`.
#[verifier::ext_equal]
pub struct Profile {
    pub name: Text,
    pub kind: CardKind,
    pub cmc: u32,
    pub is_basic_land: bool,
    pub is_mono_black_legal: bool,
}

impl View for CardProfile {
    type V = Profile;

    open spec fn view(&self) -> Profile {
        Profile {
            name: self.name@,
            kind: self.kind,
            cmc: self.cmc,
            is_basic_land: self.is_basic_land,
            is_mono_black_legal: self.is_mono_black_legal,
        }
    }
}

impl Clone for CardProfile {
    fn clone(&self) -> (copy: Self)
        ensures
            copy@ == self@,
    {
        CardProfile {
            name: self.name.clone(),
            kind: self.kind,
            cmc: self.cmc,
            is_basic_land: self.is_basic_land,
            is_mono_black_legal: self.is_mono_black_legal,
        }
    }
}

/// A card in a deck, a hand, a library or a graveyard.
#[derive(Debug)]
pub struct DeckCard {
    pub name: String,
}

impl View for DeckCard {
    type V = Text;

    open spec fn view(&self) -> Text {
        self.name@
    }
}

impl Clone for DeckCard {
    fn clone(&self) -> (copy: Self)
        ensures
            copy@ == self@,
    {
        DeckCard { name: self.name.clone() }
    }
}

/// The names of a row of cards.
pub open spec fn card_names(cards: Seq<DeckCard>) -> Seq<Text> {
    cards.map_values(|card: DeckCard| card@)
}

/// A copy of a row of cards.
pub fn copy_cards(cards: &[DeckCard]) -> (copy: Vec<DeckCard>)
    ensures
        card_names(copy@) == card_names(cards@),
{
    let mut copy: Vec<DeckCard> = Vec::new();
    let mut i: usize = 0;
    while i < cards.len()
        invariant
            i <= cards@.len(),
            copy@.len() == i,
            forall|j: int| 0 <= j < i ==> (#[trigger] copy@[j])@ == cards@[j]@,
        decreases cards@.len() - i,
    {
        copy.push(cards[i].clone());
        i += 1;
    }
    assert(card_names(copy@) =~= card_names(cards@));
    copy
}

/// The key under which a card of this name is looked up.
pub fn normalize_name(name: &str) -> (key: String)
    ensures
        key@ == lowercase(name@),
{
    to_lowercase(name)
}

// ---------------------------------------------------------------------------
// The card database
// ---------------------------------------------------------------------------

/// The known cards by key.
pub type Cards = Map<Text, Profile>;

/// A table of card profiles by normalised name.
pub struct CardDb {
    profiles: StringHashMap<CardProfile>,
}

impl View for CardDb {
    type V = Cards;

    closed spec fn view(&self) -> Cards {
        self.profiles@.map_values(|profile: CardProfile| profile@)
    }
}

impl CardDb {
    /// A table without cards.
    pub fn new() -> (db: CardDb)
        ensures
            db@ == Map::<Text, Profile>::empty(),
    {
        let db = CardDb { profiles: StringHashMap::new() };
        assert(db@ =~= Map::<Text, Profile>::empty());
        db
    }

    /// Puts a profile under a key, in place of one that is there.
    pub fn insert(&mut self, key: String, profile: CardProfile)
        ensures
            final(self)@ == old(self)@.insert(key@, profile@),
    {
        self.profiles.insert(key, profile);
        assert(self@ =~= old(self)@.insert(key@, profile@));
    }

    /// The profile under a key.
    pub fn get(&self, key: &str) -> (profile: Option<&CardProfile>)
        ensures
            match profile {
                Some(found) => self@.contains_key(key@) && self@[key@] == found@,
                None => !self@.contains_key(key@),
            },
    {
        self.profiles.get(key)
    }
}

/// What `db` knows of the card called `name`.
pub open spec fn known(db: Cards, name: Text) -> Option<Profile> {
    if db.contains_key(lowercase(name)) {
        Some(db[lowercase(name)])
    } else {
        None
    }
}

/// The kind of the card called `name`; an unknown card is some other spell.
pub open spec fn kind_of(db: Cards, name: Text) -> CardKind {
    match known(db, name) {
        Some(profile) => profile.kind,
        None => CardKind::OtherSpell,
    }
}

/// Names that differ only in the case of ASCII letters mean the same card.
pub proof fn lemma_names_ignore_case(db: Cards, a: Text, b: Text)
    requires
        same_ignoring_ascii_case(a, b),
    ensures
        lowercase(a) == lowercase(b),
        known(db, a) == known(db, b),
{
    assert(is_ascii_text(a) ==> is_ascii_text(b)) by {
        assert forall|i: int| is_ascii_text(a) && 0 <= i < b.len() implies (#[trigger] b[i] as u32)
            < 128 by {
            assert(folded(a[i]) == folded(b[i]));
        }
    }
    assert(is_ascii_text(b) ==> is_ascii_text(a)) by {
        assert forall|i: int| is_ascii_text(b) && 0 <= i < a.len() implies (#[trigger] a[i] as u32)
            < 128 by {
            assert((b[i] as u32) < 128);
        }
    }
    assert(ascii_lowercase(a) =~= ascii_lowercase(b)) by {
        let other = ascii_lowercase(b);
        assert forall|i: int| 0 <= i < a.len() implies ascii_lowercase(a)[i]
            == #[trigger] other[i] by {
            assert(folded(a[i]) == folded(b[i]));
        }
    }
}

/// What `card_db` knows of `card`.
pub fn card_profile_for<'a>(card: &DeckCard, card_db: &'a CardDb) -> (profile: Option<
    &'a CardProfile,
>)
    ensures
        match profile {
            Some(found) => known(card_db@, card@) == Some(found@),
            None => known(card_db@, card@) is None,
        },
{
    card_db.get(normalize_name(&card.name).as_str())
}

/// The kind of `card`; an unknown card is some other spell.
pub fn card_kind_for(card: &DeckCard, card_db: &CardDb) -> (kind: CardKind)
    ensures
        kind == kind_of(card_db@, card@),
{
    match card_profile_for(card, card_db) {
        Some(profile) => profile.kind,
        None => CardKind::OtherSpell,
    }
}

// ---------------------------------------------------------------------------
// Reading a card
// ---------------------------------------------------------------------------

/// A card as the Scryfall database describes it. `cmc` is the mana value rounded
/// up to a whole number.
#[derive(Debug)]
pub struct ScryfallCard {
    pub name: String,
    pub type_line: String,
    pub oracle_text: Option<String>,
    pub cmc: u32,
    pub color_identity: Option<Vec<String>>,
    pub power: Option<String>,
    pub toughness: Option<String>,
}

/// The characters of an optional string.
pub open spec fn optional_text(s: Option<String>) -> Option<Text> {
    match s {
        Some(text) => Some(text@),
        None => None,
    }
}

/// The pattern of the rules text that deals a fixed amount of damage.
pub const DAMAGE_PATTERN: &'static str =
    "deals (\\d+) damage to (?:any target|target creature|target player|each opponent)";

/// What the first group of `pattern` matches in `text`, at the leftmost match.
pub uninterp spec fn regex_first_group(pattern: Seq<char>, text: Seq<char>) -> Option<Seq<char>>;

/// `regex::Regex::new`, then `Regex::captures` on `text`, then `Captures::get(1)`:
/// the text that the first group matched, or nothing where the pattern is
/// malformed, does not match, or matches without that group. The result is fixed
/// by the pattern and the text, and is only named.
#[verifier::external_body]
fn first_group(pattern: &str, text: &str) -> (group: Option<String>)
    ensures
        match group {
            Some(found) => regex_first_group(pattern@, text@) == Some(found@),
            None => regex_first_group(pattern@, text@) is None,
        },
{
    let re = regex::Regex::new(pattern).ok()?;
    let captures = re.captures(text)?;
    captures.get(1).map(|found| found.as_str().to_string())
}

/// The amount of damage that a captured text stands for.
pub open spec fn damage_amount(captured: Option<Text>) -> Option<int> {
    match captured {
        Some(amount) => parsed_i32(amount),
        None => None,
    }
}

/// The amount of damage that the rules text `text` deals.
pub open spec fn damage_in(text: Text) -> Option<int> {
    damage_amount(regex_first_group(DAMAGE_PATTERN@, lowercase(text)))
}

/// The amount of mana that the rules text `text` adds: the number of black mana
/// symbols in it, if it adds anything at all.
pub open spec fn ritual_in(text: Text) -> Option<u32> {
    let lower = lowercase(text);
    let symbols = occurrences(lower, "{b}"@) as u32;
    if contains_text(lower, "add"@) && symbols > 0 {
        Some(symbols)
    } else {
        None
    }
}

/// The amount of damage that a captured text stands for.
pub fn parse_damage_amount(captured: Option<String>) -> (damage: Option<i32>)
    ensures
        match damage {
            Some(amount) => damage_amount(optional_text(captured)) == Some(amount as int),
            None => damage_amount(optional_text(captured)) is None,
        },
{
    match captured {
        Some(amount) => parse_int(amount.as_str()),
        None => None,
    }
}

/// The amount of damage that a rules text deals.
pub fn parse_damage(text: &str) -> (damage: Option<i32>)
    ensures
        match damage {
            Some(amount) => damage_in(text@) == Some(amount as int),
            None => damage_in(text@) is None,
        },
{
    let lower = to_lowercase(text);
    parse_damage_amount(first_group(DAMAGE_PATTERN, lower.as_str()))
}

/// The amount of mana that a rules text adds: the number of black mana symbols in
/// it, if it adds anything at all.
pub fn parse_mana_ritual(text: &str) -> (mana: Option<u32>)
    ensures
        mana == ritual_in(text@),
{
    let lower = to_lowercase(text);
    if !contains(lower.as_str(), "add") {
        return None;
    }
    let black_count: u32 = count_occurrences(lower.as_str(), "{b}") as u32;
    if black_count > 0 {
        return Some(black_count);
    }
    None
}

/// A power or toughness; one that is not a plain number counts as 1.
pub open spec fn stat(printed: Option<Text>) -> int {
    match printed {
        Some(text) => match parsed_i32(text) {
            Some(n) => n,
            None => 1,
        },
        None => 1,
    }
}

/// The kind of a card with this type line and these numbers, where `mana` and
/// `damage` are what its rules text adds and deals.
pub open spec fn kind_from(
    type_line: Text,
    power: Option<Text>,
    toughness: Option<Text>,
    mana: Option<u32>,
    damage: Option<int>,
) -> CardKind {
    let types = lowercase(type_line);
    if contains_text(types, "land"@) {
        CardKind::Land
    } else if contains_text(types, "creature"@) {
        CardKind::Creature { power: stat(power) as i32, toughness: stat(toughness) as i32 }
    } else if mana is Some {
        CardKind::ManaRitual { mana: mana->0 }
    } else if damage is Some {
        CardKind::Burn { damage: damage->0 as i32 }
    } else {
        CardKind::OtherSpell
    }
}

/// The kind of a card of the Scryfall database.
pub open spec fn kind_of_card(card: ScryfallCard) -> CardKind {
    match card.oracle_text {
        Some(text) => kind_from(
            card.type_line@,
            optional_text(card.power),
            optional_text(card.toughness),
            ritual_in(text@),
            damage_in(text@),
        ),
        None => kind_from(
            card.type_line@,
            optional_text(card.power),
            optional_text(card.toughness),
            None,
            None,
        ),
    }
}

/// Whether a colour identity holds nothing but black.
pub open spec fn only_black(identity: Option<Vec<String>>) -> bool {
    match identity {
        Some(ids) => forall|i: int| 0 <= i < ids@.len() ==> (#[trigger] ids@[i])@ == "B"@,
        None => true,
    }
}

/// The profile of a card of the Scryfall database.
pub open spec fn profile_of_card(card: ScryfallCard) -> Profile {
    Profile {
        name: card.name@,
        kind: kind_of_card(card),
        cmc: card.cmc,
        is_basic_land: contains_text(lowercase(card.type_line@), "basic land"@),
        is_mono_black_legal: only_black(card.color_identity),
    }
}

fn parse_stat(printed: &Option<String>) -> (value: i32)
    ensures
        value == stat(optional_text(*printed)),
{
    match printed {
        Some(text) => match parse_int(text.as_str()) {
            Some(n) => n,
            None => 1,
        },
        None => 1,
    }
}

/// The kind of a card, where `mana` and `damage` are what its rules text adds and
/// deals.
pub fn choose_kind(card: &ScryfallCard, mana: Option<u32>, damage: Option<i32>) -> (kind: CardKind)
    ensures
        kind == kind_from(
            card.type_line@,
            optional_text(card.power),
            optional_text(card.toughness),
            mana,
            match damage {
                Some(amount) => Some(amount as int),
                None => None,
            },
        ),
{
    let types = to_lowercase(card.type_line.as_str());
    if contains(types.as_str(), "land") {
        return CardKind::Land;
    }
    if contains(types.as_str(), "creature") {
        return CardKind::Creature {
            power: parse_stat(&card.power),
            toughness: parse_stat(&card.toughness),
        };
    }
    if let Some(amount) = mana {
        return CardKind::ManaRitual { mana: amount };
    }
    if let Some(amount) = damage {
        return CardKind::Burn { damage: amount };
    }
    CardKind::OtherSpell
}

/// The kind of a card of the Scryfall database.
pub fn classify_card(card: &ScryfallCard) -> (kind: CardKind)
    ensures
        kind == kind_of_card(*card),
{
    match &card.oracle_text {
        Some(text) => {
            let mana = parse_mana_ritual(text.as_str());
            let damage = parse_damage(text.as_str());
            choose_kind(card, mana, damage)
        },
        None => choose_kind(card, None, None),
    }
}

fn all_black(ids: &Vec<String>) -> (black: bool)
    ensures
        black == (forall|i: int| 0 <= i < ids@.len() ==> (#[trigger] ids@[i])@ == "B"@),
{
    let mut i: usize = 0;
    while i < ids.len()
        invariant
            i <= ids@.len(),
            forall|j: int| 0 <= j < i ==> (#[trigger] ids@[j])@ == "B"@,
        decreases ids@.len() - i,
    {
        if !same_text(ids[i].as_str(), "B") {
            assert(ids@[i as int]@ != "B"@);
            return false;
        }
        i += 1;
    }
    true
}

fn is_only_black(identity: &Option<Vec<String>>) -> (legal: bool)
    ensures
        legal == only_black(*identity),
{
    match identity {
        Some(ids) => all_black(ids),
        None => true,
    }
}

impl CardProfile {
    /// The profile of a card of the Scryfall database.
    pub fn from_scryfall(c: ScryfallCard) -> (profile: CardProfile)
        ensures
            profile@ == profile_of_card(c),
    {
        let kind = classify_card(&c);
        let is_mono_black_legal = is_only_black(&c.color_identity);
        let types = to_lowercase(c.type_line.as_str());
        CardProfile {
            name: c.name,
            kind,
            cmc: c.cmc,
            is_basic_land: contains(types.as_str(), "basic land"),
            is_mono_black_legal,
        }
    }
}

/// The table that `cards` make: each stands under its normalised name, and of
/// several with one name the first counts.
pub open spec fn indexed(cards: Seq<ScryfallCard>) -> Cards
    decreases cards.len(),
{
    if cards.len() == 0 {
        Map::empty()
    } else {
        let table = indexed(cards.drop_last());
        let key = lowercase(cards.last().name@);
        if table.contains_key(key) {
            table
        } else {
            table.insert(key, profile_of_card(cards.last()))
        }
    }
}

/// The table that `cards` make.
pub fn index_cards(cards: Vec<ScryfallCard>) -> (db: CardDb)
    ensures
        db@ == indexed(cards@),
{
    let ghost all = cards@;
    let mut db = CardDb::new();
    assert(all.take(0) =~= Seq::<ScryfallCard>::empty());
    for card in it: cards
        invariant
            it.seq() == all,
            db@ == indexed(all.take(it.index() as int)),
    {
        proof {
            let next = all.take(it.index() + 1);
            assert(next.drop_last() =~= all.take(it.index() as int));
            assert(next.last() == card);
        }
        let key = normalize_name(card.name.as_str());
        if db.get(key.as_str()).is_none() {
            db.insert(key, CardProfile::from_scryfall(card));
        }
    }
    assert(all.take(all.len() as int) =~= all);
    db
}

/// Of several cards with one normalised name, the table holds the first.
pub proof fn lemma_first_printing_counts(cards: Seq<ScryfallCard>, i: int)
    requires
        0 <= i < cards.len(),
        forall|j: int|
            0 <= j < i ==> lowercase((#[trigger] cards[j]).name@) != lowercase(cards[i].name@),
    ensures
        indexed(cards).contains_key(lowercase(cards[i].name@)),
        indexed(cards)[lowercase(cards[i].name@)] == profile_of_card(cards[i]),
    decreases cards.len(),
{
    let front = cards.drop_last();
    let key = lowercase(cards[i].name@);
    if i < front.len() {
        assert(front[i] == cards[i]);
        assert forall|j: int| 0 <= j < i implies lowercase((#[trigger] front[j]).name@) != key by {
            assert(front[j] == cards[j]);
        }
        lemma_first_printing_counts(front, i);
    } else {
        assert forall|j: int| 0 <= j < front.len() implies lowercase((#[trigger] front[j]).name@)
            != key by {
            assert(front[j] == cards[j]);
        }
        lemma_no_other_names(front, key);
    }
}

/// The table holds no names but those of its cards.
pub proof fn lemma_no_other_names(cards: Seq<ScryfallCard>, key: Text)
    requires
        forall|j: int| 0 <= j < cards.len() ==> lowercase((#[trigger] cards[j]).name@) != key,
    ensures
        !indexed(cards).contains_key(key),
    decreases cards.len(),
{
    if cards.len() > 0 {
        let front = cards.drop_last();
        assert forall|j: int| 0 <= j < front.len() implies lowercase((#[trigger] front[j]).name@)
            != key by {
            assert(front[j] == cards[j]);
        }
        lemma_no_other_names(front, key);
        assert(lowercase(cards[cards.len() - 1].name@) != key);
    }
}

} // verus!
