//! What holds of calls: of the values that go in and of those that come back.

use crate::card_laws::{
    lemma_name_means_the_first_card, lemma_other_names_mean_nothing,
    lemma_printed_power_and_toughness, lemma_signed_decimal_reads_back,
};
use crate::cards::{
    card_kind_for, card_names, card_profile_for, choose_kind, classify_card, index_cards, known,
    CardDb, CardKind, CardProfile, Cards, DeckCard, ScryfallCard,
};
use crate::combat::{attack_step, attack_step_yard, attacked};
use crate::combat_laws::{lemma_duel, lemma_plain_and_yard};
use crate::config::{
    first_seed, max_turns, oracle_cards_uri, random_seed, starting_life, turn_limit,
    validate_run_config, ConfigError, PlayerConfig, RunConfig, ScryfallBulkItem,
};
use crate::deck_laws::{
    lemma_format_and_size_come_first, lemma_formats, lemma_legal_deck_is_accepted,
    lemma_list_of_one_entry, lemma_list_of_one_line, lemma_read_decks, lemma_yard_by_name,
};
use crate::decks::{
    deck_from_entries, deck_line, deck_of_entries, deck_of_lines, is_structured_extension,
    is_yard, parse_deck_list, rules_for_format, validate_deck, DeckError, DeckListEntry,
    DeckListError, FormatRules,
};
use crate::game_laws::{
    lemma_deals_of_a_run, lemma_first_oracle_download, lemma_winner_by_life,
    lemma_winner_of_a_game,
};
use crate::games::{decide_winner, reordered, seated, seeded_state, Deal};
use crate::players::{OutOfRange, PlayerState, Table};
use crate::report::{
    lemma_report_adds_up, run_checked, run_deals, run_game, run_games, RunError, SimulationReport,
};
use crate::seen::texts;
use crate::text::{
    contains_text, decimal, lines, lowercase, same_ignoring_ascii_case, signed_decimal, trimmed,
    Text,
};
use crate::text_laws::lemma_one_line;
use vstd::prelude::*;

verus! {

// ---------------------------------------------------------------------------
// Combat
// ---------------------------------------------------------------------------

/// When one creature attacks another, the attacker is gone afterwards exactly if the
/// blocker's power is at least its toughness, and the blocker exactly if the attacker's
/// power is at least its toughness. The dead lie on top of their owners' graveyards, and
/// nobody loses life.
pub proof fn lemma_attack_step_on_a_blocker(
    active: &mut PlayerState,
    defending: &mut PlayerState,
    actions: Result<Vec<String>, OutOfRange>,
)
    requires
        call_ensures(attack_step, (active, defending), actions),
        old(active).battlefield@.len() == 1,
        old(defending).battlefield@.len() == 1,
        !old(active).battlefield@[0].summoning_sick,
    ensures
        ({
            let c = old(active).battlefield@[0];
            let d = old(defending).battlefield@[0];
            let mine = final(active).graveyard@;
            let theirs = final(defending).graveyard@;
            &&& actions is Ok
            &&& final(active).life == old(active).life
            &&& final(defending).life == old(defending).life
            &&& d.power >= c.toughness ==> final(active).battlefield@.len() == 0 && mine.len()
                == old(active).graveyard@.len() + 1 && mine.last().name@ == c.card_name@
            &&& d.power < c.toughness ==> final(active).battlefield@.len() == 1 && mine.len()
                == old(active).graveyard@.len()
            &&& c.power >= d.toughness ==> final(defending).battlefield@.len() == 0 && theirs.len()
                == old(defending).graveyard@.len() + 1 && theirs.last().name@ == d.card_name@
            &&& c.power < d.toughness ==> final(defending).battlefield@.len() == 1 && theirs.len()
                == old(defending).graveyard@.len()
        }),
{
    let table = Table {
        active: old(active)@,
        defending: old(defending)@,
        graveyard: Seq::<Text>::empty(),
    };
    let c = old(active).battlefield@[0]@;
    let d = old(defending).battlefield@[0]@;
    assert(table.active.battlefield =~= seq![c]);
    assert(table.defending.battlefield =~= seq![d]);
    lemma_duel(table, c, d);
    let mine = final(active).graveyard@;
    let theirs = final(defending).graveyard@;
    assert(final(active)@.battlefield.len() == final(active).battlefield@.len());
    assert(final(defending)@.battlefield.len() == final(defending).battlefield@.len());
    assert(card_names(mine).len() == mine.len());
    assert(card_names(theirs).len() == theirs.len());
    if mine.len() > 0 {
        assert(card_names(mine).last() == mine.last()@);
    }
    if theirs.len() > 0 {
        assert(card_names(theirs).last() == theirs.last()@);
    }
}

/// The same attack outside the yard and in it: in the yard all the dead of both sides go
/// to the shared graveyard, and each player has a creature more for every pair of one of
/// the dead and a Bridge from Below in their own graveyard. Life and log are the same.
pub proof fn lemma_attack_step_in_the_yard(
    active: &mut PlayerState,
    defending: &mut PlayerState,
    actions: Result<Vec<String>, OutOfRange>,
    yard_active: &mut PlayerState,
    yard_defending: &mut PlayerState,
    shared: &mut Vec<DeckCard>,
    yard_actions: Result<Vec<String>, OutOfRange>,
)
    requires
        call_ensures(attack_step, (active, defending), actions),
        call_ensures(attack_step_yard, (yard_active, yard_defending, shared), yard_actions),
        old(yard_active)@ == old(active)@,
        old(yard_defending)@ == old(defending)@,
    ensures
        actions is Ok <==> yard_actions is Ok,
        actions is Ok ==> {
            let own = final(active).graveyard@.len() - old(active).graveyard@.len();
            let theirs = final(defending).graveyard@.len() - old(defending).graveyard@.len();
            let is_bridge = |card: Text| lowercase(card) == "bridge from below"@;
            &&& final(shared)@.len() == old(shared)@.len() + own + theirs
            &&& final(yard_active).battlefield@.len() == final(active).battlefield@.len() + (own
                + theirs) * card_names(old(active).graveyard@).filter(is_bridge).len()
            &&& final(yard_defending).battlefield@.len() == final(defending).battlefield@.len() + (
            own + theirs) * card_names(old(defending).graveyard@).filter(is_bridge).len()
            &&& final(yard_active).life == final(active).life
            &&& final(yard_defending).life == final(defending).life
            &&& yard_actions->Ok_0@.len() == actions->Ok_0@.len()
        },
{
    let table = Table {
        active: old(active)@,
        defending: old(defending)@,
        graveyard: Seq::<Text>::empty(),
    };
    let shared_table = Table { graveyard: card_names(old(shared)@), ..table };
    lemma_plain_and_yard(shared_table);
    if let Some(step) = attacked(table, false) {
        let plain = attacked(shared_table, false)->0;
        assert(plain.table.active == step.table.active);
        assert(plain.table.defending == step.table.defending);
        assert(plain.log == step.log);
    }
    assert(final(active)@.battlefield.len() == final(active).battlefield@.len());
    assert(final(defending)@.battlefield.len() == final(defending).battlefield@.len());
    assert(final(yard_active)@.battlefield.len() == final(yard_active).battlefield@.len());
    assert(final(yard_defending)@.battlefield.len() == final(yard_defending).battlefield@.len());
    assert(card_names(final(shared)@).len() == final(shared)@.len());
    assert(card_names(old(shared)@).len() == old(shared)@.len());
    assert(card_names(final(active).graveyard@).len() == final(active).graveyard@.len());
    assert(card_names(old(active).graveyard@).len() == old(active).graveyard@.len());
    assert(card_names(final(defending).graveyard@).len() == final(defending).graveyard@.len());
    assert(card_names(old(defending).graveyard@).len() == old(defending).graveyard@.len());
    if actions is Ok {
        assert(texts(yard_actions->Ok_0@).len() == texts(actions->Ok_0@).len());
    }
}

// ---------------------------------------------------------------------------
// The winner
// ---------------------------------------------------------------------------

/// The player with more life wins, if they live; players with the same life, and players
/// who are both dead, draw.
pub proof fn lemma_decide_winner(p1: &PlayerState, p2: &PlayerState, name: String)
    requires
        call_ensures(decide_winner, (p1, p2), name),
    ensures
        p1.life > p2.life && p1.life > 0 ==> name@ == p1.name@,
        p2.life > p1.life && p2.life > 0 ==> name@ == p2.name@,
        p1.life == p2.life ==> name@ == "Draw"@,
        p1.life <= 0 && p2.life <= 0 ==> name@ == "Draw"@,
{
    lemma_winner_by_life(p1@, p2@);
}

// ---------------------------------------------------------------------------
// Cards
// ---------------------------------------------------------------------------

/// A creature has the power and the toughness that are printed on it, whatever its text
/// says; a land is a land; and of other cards one that gives mana is a ritual, and one
/// that deals damage and gives none is burn.
pub proof fn lemma_choose_kind(
    card: &ScryfallCard,
    mana: Option<u32>,
    damage: Option<i32>,
    kind: CardKind,
    p: i32,
    t: i32,
)
    requires
        call_ensures(choose_kind, (card, mana, damage), kind),
    ensures
        ({
            let types = lowercase(card.type_line@);
            let land = contains_text(types, "land"@);
            let creature = contains_text(types, "creature"@);
            let printed = card.power is Some && card.power->0@ == signed_decimal(p as int)
                && card.toughness is Some && card.toughness->0@ == signed_decimal(t as int);
            &&& land ==> kind == CardKind::Land
            &&& !land && creature && printed ==> kind == (CardKind::Creature {
                power: p,
                toughness: t,
            })
            &&& !land && !creature && mana is Some ==> kind == (CardKind::ManaRitual {
                mana: mana->0,
            })
            &&& !land && !creature && mana is None && damage is Some ==> kind == (CardKind::Burn {
                damage: damage->0,
            })
            &&& !land && !creature && mana is None && damage is None ==> kind
                == CardKind::OtherSpell
        }),
{
    lemma_signed_decimal_reads_back(p);
    lemma_signed_decimal_reads_back(t);
}

/// A creature of the database has the power and the toughness that are printed on it.
pub proof fn lemma_classify_card(card: &ScryfallCard, kind: CardKind, p: i32, t: i32)
    requires
        call_ensures(classify_card, (card,), kind),
        contains_text(lowercase(card.type_line@), "creature"@),
        !contains_text(lowercase(card.type_line@), "land"@),
        card.power is Some && card.power->0@ == signed_decimal(p as int),
        card.toughness is Some && card.toughness->0@ == signed_decimal(t as int),
    ensures
        kind == (CardKind::Creature { power: p, toughness: t }),
{
    lemma_printed_power_and_toughness(*card, p, t);
}

/// A card of a deck is looked up by its name in whatever case, and found exactly if a card
/// of that name was indexed; of several the first counts.
pub proof fn lemma_index_cards(
    cards: Vec<ScryfallCard>,
    db: CardDb,
    card: &DeckCard,
    profile: Option<&CardProfile>,
    kind: CardKind,
    first_kind: CardKind,
    i: int,
)
    requires
        call_ensures(index_cards, (cards,), db),
        call_ensures(card_profile_for, (card, &db), profile),
        call_ensures(card_kind_for, (card, &db), kind),
    ensures
        (forall|j: int|
            0 <= j < cards@.len() ==> lowercase((#[trigger] cards@[j]).name@) != lowercase(
                card.name@,
            )) ==> profile is None && kind == CardKind::OtherSpell,
        0 <= i < cards@.len() && lowercase(cards@[i].name@) == lowercase(card.name@) && (forall|
            j: int,
        |
            0 <= j < i ==> lowercase((#[trigger] cards@[j]).name@) != lowercase(card.name@))
            && call_ensures(classify_card, (&cards@[i],), first_kind) ==> profile is Some
            && profile->0.name@ == cards@[i].name@ && profile->0.cmc == cards@[i].cmc
            && profile->0.kind == first_kind && kind == first_kind,
{
    if forall|j: int|
        0 <= j < cards@.len() ==> lowercase((#[trigger] cards@[j]).name@) != lowercase(
            card.name@,
        ) {
        lemma_other_names_mean_nothing(cards@, card.name@);
    }
    if 0 <= i < cards@.len() && lowercase(cards@[i].name@) == lowercase(card.name@) && (forall|
        j: int,
    |
        0 <= j < i ==> lowercase((#[trigger] cards@[j]).name@) != lowercase(card.name@)) {
        lemma_name_means_the_first_card(cards@, card.name@, i);
    }
}

// ---------------------------------------------------------------------------
// Decks
// ---------------------------------------------------------------------------

/// Outside the yard, a deck is accepted that is large enough, whose cards are all known,
/// and that holds no card but basic lands at more positions than the format allows. A
/// deck that is too small is not.
pub proof fn lemma_validate_deck(
    format: &str,
    deck: &[DeckCard],
    card_db: &CardDb,
    verdict: Result<(), DeckError>,
    rules: Option<FormatRules>,
)
    requires
        call_ensures(validate_deck, (format, deck, card_db), verdict),
        call_ensures(rules_for_format, (format,), rules),
        lowercase(format@) != "yard"@,
    ensures
        rules is Some ==> rules->0.minimum_deck_size == if lowercase(format@) == "commander"@ {
            100usize
        } else {
            60usize
        } && rules->0.max_non_basic_copies == if lowercase(format@) == "commander"@ {
            1usize
        } else {
            4usize
        },
        rules is None ==> verdict is Err && verdict->Err_0 is UnsupportedFormat,
        rules is Some && deck@.len() < rules->0.minimum_deck_size ==> verdict is Err
            && verdict->Err_0 is TooFewCards,
        rules is Some && deck@.len() >= rules->0.minimum_deck_size && (forall|k: int|
            0 <= k < deck@.len() ==> {
                let found = known(card_db@, (#[trigger] deck@[k]).name@);
                &&& found is Some
                &&& found->0.is_basic_land || Set::new(
                    |i: int|
                        0 <= i < deck@.len() && known(card_db@, deck@[i].name@) is Some && known(
                            card_db@,
                            deck@[i].name@,
                        )->0.name == found->0.name,
                ).len() <= rules->0.max_non_basic_copies
            }) ==> verdict is Ok,
{
    let names = card_names(deck@);
    lemma_formats(lowercase(format@));
    lemma_yard_by_name(format@);
    lemma_format_and_size_come_first(format@, names, card_db@);
    if rules is Some && deck@.len() >= rules->0.minimum_deck_size && (forall|k: int|
        0 <= k < deck@.len() ==> {
            let found = known(card_db@, (#[trigger] deck@[k]).name@);
            &&& found is Some
            &&& found->0.is_basic_land || Set::new(
                |i: int|
                    0 <= i < deck@.len() && known(card_db@, deck@[i].name@) is Some && known(
                        card_db@,
                        deck@[i].name@,
                    )->0.name == found->0.name,
            ).len() <= rules->0.max_non_basic_copies
        }) {
        assert forall|k: int| 0 <= k < names.len() implies known(card_db@, #[trigger] names[k])
            is Some by {
            assert(names[k] == deck@[k].name@);
        }
        assert forall|k: int|
            0 <= k < names.len() && !known(
                card_db@,
                #[trigger] names[k],
            )->0.is_basic_land implies Set::new(
            |i: int|
                0 <= i < names.len() && known(card_db@, names[i]) is Some && known(
                    card_db@,
                    names[i],
                )->0.name == known(card_db@, names[k])->0.name,
        ).len() <= rules->0.max_non_basic_copies by {
            assert(names[k] == deck@[k].name@);
            assert(Set::new(
                |i: int|
                    0 <= i < names.len() && known(card_db@, names[i]) is Some && known(
                        card_db@,
                        names[i],
                    )->0.name == known(card_db@, names[k])->0.name,
            ) =~= Set::new(
                |i: int|
                    0 <= i < deck@.len() && known(card_db@, deck@[i].name@) is Some && known(
                        card_db@,
                        deck@[i].name@,
                    )->0.name == known(card_db@, deck@[k].name@)->0.name,
            ));
        }
        lemma_legal_deck_is_accepted(format@, rules->0, names, card_db@);
    }
}

/// A list of one line names as many copies of a card as it says; one of a blank line, a
/// comment or the marker of the sideboard has no cards; and any other line is given back
/// as it cannot be read.
pub proof fn lemma_parse_deck_list(raw: &str, deck: Result<Vec<DeckCard>, DeckListError>)
    requires
        call_ensures(parse_deck_list, (raw,), deck),
        forall|i: int| 0 <= i < raw@.len() ==> #[trigger] raw@[i] != '\n',
    ensures
        ({
            let line = trimmed(raw@);
            if line.len() == 0 || line[0] == '#' || same_ignoring_ascii_case(
                line,
                "sideboard"@,
            ) {
                deck is Err && deck->Err_0 is NoCards
            } else {
                match deck_line(line) {
                    Some((n, name)) => if n == 0 {
                        deck is Err && deck->Err_0 is NoCards
                    } else {
                        deck is Ok && deck->Ok_0@.len() == n && forall|i: int|
                            0 <= i < n ==> (#[trigger] deck->Ok_0@[i]).name@ == name
                    },
                    None => deck is Err && deck->Err_0 is InvalidLine && deck->Err_0->0@ == line,
                }
            }
        }),
{
    lemma_one_line(raw@);
    lemma_list_of_one_line(raw@);
    match deck_of_lines(lines(raw@)) {
        Ok(cards) => {
            assert(cards.len() == 0 ==> cards =~= Seq::<Text>::empty());
            lemma_read_decks(deck, cards, raw@);
        },
        Err(line) => {
            lemma_read_decks(deck, Seq::empty(), line);
        },
    }
}

/// A structured list of one entry names as many copies of its card as it says, and is
/// refused where the name is blank or the count is nought.
pub proof fn lemma_deck_from_entries(
    entries: &Vec<DeckListEntry>,
    deck: Result<Vec<DeckCard>, DeckListError>,
)
    requires
        call_ensures(deck_from_entries, (entries,), deck),
        entries@.len() == 1,
    ensures
        trimmed(entries@[0].name@).len() == 0 ==> deck is Err && deck->Err_0 is EmptyName,
        trimmed(entries@[0].name@).len() > 0 && entries@[0].count == 0 ==> deck is Err
            && deck->Err_0 is NoCards,
        trimmed(entries@[0].name@).len() > 0 && entries@[0].count > 0 ==> deck is Ok
            && deck->Ok_0@.len() == entries@[0].count && forall|i: int|
            0 <= i < entries@[0].count ==> (#[trigger] deck->Ok_0@[i]).name@ == entries@[0].name@,
{
    assert(entries@ =~= seq![entries@[0]]);
    lemma_list_of_one_entry(entries@[0]);
    if let Some(cards) = deck_of_entries(entries@) {
        assert(cards.len() == 0 ==> cards =~= Seq::<Text>::empty());
        lemma_read_decks(deck, cards, Seq::empty());
    }
}

/// The lists that are structured are those in files with the extension "yaml" or "yml".
pub proof fn lemma_is_structured_extension(extension: Option<&str>, structured: bool)
    requires
        call_ensures(is_structured_extension, (extension,), structured),
    ensures
        structured <==> extension is Some && (extension->0@ == "yaml"@ || extension->0@ == "yml"@),
{
}

/// The message for a list that cannot be read has the line or the path in it.
pub proof fn lemma_deck_list_messages(error: &DeckListError, path: &str, text: String)
    requires
        call_ensures(DeckListError::message, (error, path), text),
    ensures
        *error is InvalidLine ==> text@ == "invalid deck line '"@ + (*error)->0@
            + "', expected '<count> <card name>'"@,
        *error is EmptyName ==> text@ == "deck "@ + path@ + " contains an empty card name"@,
        *error is NoCards ==> text@ == "deck "@ + path@ + " has zero cards"@,
{
}

/// The message for a deck that is not accepted has the format, the card and the numbers
/// in it.
pub proof fn lemma_deck_messages(error: &DeckError, text: String)
    requires
        call_ensures(DeckError::message, (error,), text),
    ensures
        match *error {
            DeckError::UnsupportedFormat { format } => text@ == "unsupported format '"@ + format@
                + "'"@,
            DeckError::TooFewCards { count, format, minimum } => text@ == "deck has "@ + decimal(
                count as nat,
            ) + " cards; minimum for "@ + format@ + " is "@ + decimal(minimum as nat),
            DeckError::UnknownCard { name } => text@ == "card '"@ + name@
                + "' not found in local DB"@,
            DeckError::TooManyCopies { name, copies, format, maximum } => text@ == "card '"@ + name@
                + "' has "@ + decimal(copies as nat) + " copies, max allowed in "@ + format@
                + " is "@ + decimal(maximum as nat),
            DeckError::NotMonoBlack { name } => text@
                == "yard format only allows mono-black/colorless cards; '"@ + name@
                + "' is not legal"@,
        },
{
}

// ---------------------------------------------------------------------------
// Configurations
// ---------------------------------------------------------------------------

/// A configuration is accepted exactly if games are to be played, both players have a
/// name that is not blank, and in the yard both decks are at one path; what is missing
/// first is named.
pub proof fn lemma_validate_run_config(cfg: &RunConfig, verdict: Result<(), ConfigError>)
    requires
        call_ensures(validate_run_config, (cfg,), verdict),
    ensures
        ({
            let named = trimmed(cfg.player1.name@).len() > 0 && trimmed(cfg.player2.name@).len()
                > 0;
            let shared = trimmed(cfg.player1.deck_path@) == trimmed(cfg.player2.deck_path@);
            let fits = !is_yard(cfg.format@) || shared;
            &&& verdict is Ok <==> cfg.iterations > 0 && named && fits
            &&& verdict == Err::<(), _>(ConfigError::NoIterations) <==> cfg.iterations == 0
            &&& verdict == Err::<(), _>(ConfigError::EmptyPlayerName) <==> cfg.iterations > 0
                && !named
            &&& verdict == Err::<(), _>(ConfigError::DifferentDecks) <==> cfg.iterations > 0
                && named && !fits
        }),
{
}

/// The message for a configuration that is not accepted.
pub proof fn lemma_config_messages(error: &ConfigError, text: &'static str)
    requires
        call_ensures(ConfigError::message, (error,), text),
    ensures
        *error is NoIterations ==> text@ == "iterations must be greater than 0"@,
        *error is EmptyPlayerName ==> text@ == "player names must not be empty"@,
        *error is DifferentDecks ==> text@
            == "yard format requires both players to reference the same deck_path"@,
{
}

/// What is not configured: games end after 30 rounds, the seed is 42, and a player starts
/// with 20 life.
pub proof fn lemma_defaults(
    cfg: &RunConfig,
    limit: usize,
    seed: u64,
    player: &PlayerConfig,
    life: i32,
)
    requires
        call_ensures(max_turns, (cfg,), limit),
        call_ensures(random_seed, (cfg,), seed),
        call_ensures(starting_life, (player,), life),
    ensures
        cfg.max_turns is None ==> limit == 30,
        cfg.max_turns is Some ==> limit == cfg.max_turns->0,
        cfg.seed is None ==> seed == 42,
        cfg.seed is Some ==> seed == cfg.seed->0,
        player.starting_life is None ==> life == 20,
        player.starting_life is Some ==> life == player.starting_life->0,
{
}

/// Of a list of downloads the first of Oracle cards is taken, and none where there is
/// none.
pub proof fn lemma_oracle_cards_uri(
    items: &Vec<ScryfallBulkItem>,
    uri: Option<String>,
    k: int,
)
    requires
        call_ensures(oracle_cards_uri, (items,), uri),
        0 <= k <= items@.len(),
        forall|j: int| 0 <= j < k ==> (#[trigger] items@[j]).data_type@ != "oracle_cards"@,
    ensures
        k == items@.len() ==> uri is None,
        k < items@.len() && items@[k].data_type@ == "oracle_cards"@ ==> uri is Some && uri->0@
            == items@[k].download_uri@,
{
    if k < items@.len() {
        lemma_first_oracle_download(items@.take(k), items@[k], items@.skip(k + 1));
        assert(items@ =~= items@.take(k) + seq![items@[k]] + items@.skip(k + 1));
    } else {
        lemma_first_oracle_download(items@, arbitrary(), Seq::empty());
    }
}

// ---------------------------------------------------------------------------
// Runs
// ---------------------------------------------------------------------------

/// The same configuration, decks and cards give the same report. It has as many games as
/// are configured, numbered from 1, with the decks shuffled by a generator with the
/// configured seed, or 42. Each is won by the player with more life, if they live, or
/// drawn.
pub proof fn lemma_run_games(
    cfg: &RunConfig,
    p1_deck: &[DeckCard],
    p2_deck: &[DeckCard],
    card_db: &CardDb,
    once: Result<SimulationReport, OutOfRange>,
    again: Result<SimulationReport, OutOfRange>,
)
    requires
        call_ensures(run_games, (cfg, p1_deck, p2_deck, card_db), once),
        call_ensures(run_games, (cfg, p1_deck, p2_deck, card_db), again),
    ensures
        once is Ok <==> again is Ok,
        once is Ok ==> {
            let report = once->Ok_0;
            &&& report@ == again->Ok_0@
            &&& report.iterations == cfg.iterations
            &&& report.format@ == cfg.format@
            &&& report.player1_name@ == cfg.player1.name@
            &&& report.player2_name@ == cfg.player2.name@
            &&& report.games@.len() == cfg.iterations
            &&& report.ending_turns@.len() == cfg.iterations
            &&& report.player1_wins + report.player2_wins + report.draws == cfg.iterations
            &&& forall|k: int|
                0 <= k < cfg.iterations ==> {
                    let game = #[trigger] report.games@[k];
                    &&& run_game(
                        *cfg,
                        card_names(p1_deck@),
                        card_names(p2_deck@),
                        card_db@,
                        k as nat,
                        run_deals(
                            *cfg,
                            p1_deck@.len(),
                            p2_deck@.len(),
                            seeded_state(
                                if cfg.seed is Some {
                                    cfg.seed->0
                                } else {
                                    42
                                },
                            ),
                            cfg.iterations as nat,
                        )[k],
                    ) == Some(game@)
                    &&& game.game_number == k + 1
                    &&& report.ending_turns@[k] == game.turns
                    &&& game.player1_life > game.player2_life && game.player1_life > 0
                        ==> game.winner@ == cfg.player1.name@
                    &&& game.player2_life > game.player1_life && game.player2_life > 0
                        ==> game.winner@ == cfg.player2.name@
                    &&& game.player1_life == game.player2_life || (game.player1_life <= 0
                        && game.player2_life <= 0) ==> game.winner@ == "Draw"@
                }
        },
{
    let one = card_names(p1_deck@);
    let two = card_names(p2_deck@);
    let deals = run_deals(
        *cfg,
        p1_deck@.len(),
        p2_deck@.len(),
        seeded_state(first_seed(*cfg)),
        cfg.iterations as nat,
    );
    lemma_deals_of_a_run(
        *cfg,
        p1_deck@.len(),
        p2_deck@.len(),
        seeded_state(first_seed(*cfg)),
        cfg.iterations as nat,
    );
    lemma_report_adds_up(*cfg, one, two, card_db@, deals);
    if once is Ok {
        let report = once->Ok_0;
        assert(report@.games.len() == report.games@.len());
        assert(report@.ending_turns.len() == report.ending_turns@.len());
        assert forall|k: int| 0 <= k < cfg.iterations implies {
            let game = #[trigger] report.games@[k];
            &&& run_game(*cfg, one, two, card_db@, k as nat, deals[k]) == Some(game@)
            &&& game.game_number == k + 1
            &&& report.ending_turns@[k] == game.turns
            &&& game.player1_life > game.player2_life && game.player1_life > 0 ==> game.winner@
                == cfg.player1.name@
            &&& game.player2_life > game.player1_life && game.player2_life > 0 ==> game.winner@
                == cfg.player2.name@
            &&& game.player1_life == game.player2_life || (game.player1_life <= 0
                && game.player2_life <= 0) ==> game.winner@ == "Draw"@
        } by {
            assert(report@.games[k] == report.games@[k]@);
            assert(report@.ending_turns[k] == report.ending_turns@[k]);
            assert(deals[k] == deals[k]);
            lemma_winner_of_a_run(*cfg, one, two, card_db@, k as nat, deals[k]);
        }
    }
}

proof fn lemma_winner_of_a_run(
    cfg: RunConfig,
    deck1: Seq<Text>,
    deck2: Seq<Text>,
    db: Cards,
    k: nat,
    deal: Deal,
)
    ensures
        run_game(cfg, deck1, deck2, db, k, deal) matches Some(game) ==> {
            let p = game.player1_life;
            let q = game.player2_life;
            &&& p > q && p > 0 ==> game.winner == cfg.player1.name@
            &&& q > p && q > 0 ==> game.winner == cfg.player2.name@
            &&& p == q || (p <= 0 && q <= 0) ==> game.winner == "Draw"@
        },
{
    let nothing = Seq::<Text>::empty();
    lemma_winner_of_a_game(
        k + 1,
        seated(cfg.player1, reordered(deck1, deal.first), 0),
        seated(cfg.player2, reordered(deck2, deal.second), 0),
        nothing,
        db,
        turn_limit(cfg),
        false,
    );
    lemma_winner_of_a_game(
        k + 1,
        seated(cfg.player1, nothing, 1),
        seated(cfg.player2, nothing, 1),
        reordered(deck1, deal.first),
        db,
        turn_limit(cfg),
        true,
    );
}

/// A run is refused with the first player's fault, and then with the second's, if their
/// decks are not accepted; otherwise it goes as it does unchecked.
pub proof fn lemma_run_checked(
    cfg: &RunConfig,
    format: &str,
    p1_deck: &[DeckCard],
    p2_deck: &[DeckCard],
    card_db: &CardDb,
    first: Result<(), DeckError>,
    second: Result<(), DeckError>,
    unchecked: Result<SimulationReport, OutOfRange>,
    checked: Result<SimulationReport, RunError>,
)
    requires
        format@ == cfg.format@,
        call_ensures(validate_deck, (format, p1_deck, card_db), first),
        call_ensures(validate_deck, (format, p2_deck, card_db), second),
        call_ensures(run_games, (cfg, p1_deck, p2_deck, card_db), unchecked),
        call_ensures(run_checked, (cfg, p1_deck, p2_deck, card_db), checked),
    ensures
        first is Err ==> checked is Err && checked->Err_0 is Player1Deck
            && checked->Err_0->Player1Deck_0@ == first->Err_0@,
        first is Ok && second is Err ==> checked is Err && checked->Err_0 is Player2Deck
            && checked->Err_0->Player2Deck_0@ == second->Err_0@,
        first is Ok && second is Ok && unchecked is Err ==> checked is Err && checked->Err_0
            is OutOfRange,
        first is Ok && second is Ok && unchecked is Ok ==> checked is Ok && checked->Ok_0@
            == unchecked->Ok_0@,
{
}

} // verus!
