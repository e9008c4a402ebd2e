//! Players: their life, cards and creatures, and what they do with their cards
//! outside combat and casting.

use crate::cards::{
    card_kind_for, card_names, card_profile_for, kind_of, known, normalize_name, CardDb, CardKind,
    Cards, DeckCard,
};
use crate::ranking::{
    find_last_greatest, first_set, is_first, last_greatest, lemma_first_set, lemma_first_unset,
    lemma_last_greatest, widened,
};
use crate::seen::{texts, CardSet};
use crate::text::{append_decimal, decimal, lowercase, same_text, Text};
use vstd::prelude::*;

verus! {

/// Arithmetic on life or mana has left the range of its machine integer.
#[derive(Debug, Clone, Copy, PartialEq, Eq, Structural)]
pub struct OutOfRange;

/// A creature on the battlefield.
#[derive(Debug)]
pub struct CreaturePermanent {
    pub card_name: String,
    pub power: i32,
    pub toughness: i32,
    pub summoning_sick: bool,
}

/// The model of a `CreaturePermanent`.
#[verifier::ext_equal]
pub struct Creature {
    pub name: Text,
    pub power: int,
    pub toughness: int,
    pub sick: bool,
}

impl View for CreaturePermanent {
    type V = Creature;

    open spec fn view(&self) -> Creature {
        Creature {
            name: self.card_name@,
            power: self.power as int,
            toughness: self.toughness as int,
            sick: self.summoning_sick,
        }
    }
}

/// The models of a row of creatures.
pub open spec fn creatures(row: Seq<CreaturePermanent>) -> Seq<Creature> {
    row.map_values(|creature: CreaturePermanent| creature@)
}

/// A player in a game.
#[derive(Debug)]
pub struct PlayerState {
    pub name: String,
    pub life: i32,
    pub library: Vec<DeckCard>,
    pub hand: Vec<DeckCard>,
    pub battlefield: Vec<CreaturePermanent>,
    pub graveyard: Vec<DeckCard>,
    pub lands_in_play: u32,
    pub mana_pool: u32,
    pub cards_seen: CardSet,
}

/// The model of a `PlayerState`. The top of the library is its last card.
#[verifier::ext_equal]
pub struct Player {
    pub name: Text,
    pub life: int,
    pub library: Seq<Text>,
    pub hand: Seq<Text>,
    pub battlefield: Seq<Creature>,
    pub graveyard: Seq<Text>,
    pub lands: int,
    pub pool: int,
    pub seen: Set<Text>,
}

impl View for PlayerState {
    type V = Player;

    open spec fn view(&self) -> Player {
        Player {
            name: self.name@,
            life: self.life as int,
            library: card_names(self.library@),
            hand: card_names(self.hand@),
            battlefield: creatures(self.battlefield@),
            graveyard: card_names(self.graveyard@),
            lands: self.lands_in_play as int,
            pool: self.mana_pool as int,
            seen: self.cards_seen@,
        }
    }
}

/// Whether a life total fits in an `i32`.
pub open spec fn is_life(life: int) -> bool {
    i32::MIN <= life <= i32::MAX
}

/// Whether an amount of mana or a number of lands fits in a `u32`.
pub open spec fn is_mana(mana: int) -> bool {
    0 <= mana <= u32::MAX
}

/// Two players at a table, and the graveyard that they share in the yard format.
#[verifier::ext_equal]
pub struct Table {
    pub active: Player,
    pub defending: Player,
    pub graveyard: Seq<Text>,
}

/// A table after some actions, and what was logged of them.
#[verifier::ext_equal]
pub struct Step {
    pub table: Table,
    pub log: Seq<Text>,
}

/// The same actions with `first` logged before them.
pub open spec fn logged(first: Seq<Text>, step: Option<Step>) -> Option<Step> {
    match step {
        Some(done) => Some(Step { table: done.table, log: first + done.log }),
        None => None,
    }
}

/// Logging nothing before some actions changes nothing.
pub proof fn lemma_logged_nothing(step: Option<Step>)
    ensures
        logged(Seq::empty(), step) == step,
{
    if let Some(done) = step {
        assert(Seq::<Text>::empty() + done.log =~= done.log);
    }
}

/// What is logged before some actions can be split anywhere.
pub proof fn lemma_logged_twice(first: Seq<Text>, second: Seq<Text>, step: Option<Step>)
    ensures
        logged(first, logged(second, step)) == logged(first + second, step),
{
    if let Some(done) = step {
        assert(first + (second + done.log) =~= (first + second) + done.log);
    }
}

/// Whether a function that returned `actions` and left `table` behind has made
/// `step`. An error stands for arithmetic that left its range.
pub open spec fn is_step(
    actions: Result<Vec<String>, OutOfRange>,
    table: Table,
    step: Option<Step>,
) -> bool {
    match step {
        Some(done) => actions is Ok && texts(actions->Ok_0@) == done.log && table == done.table,
        None => actions is Err,
    }
}

// ---------------------------------------------------------------------------
// Drawing
// ---------------------------------------------------------------------------

/// Drawing from one's own library. Without a card to draw the player has no life
/// left.
pub open spec fn drawn(player: Player) -> (Player, Text) {
    if player.library.len() == 0 {
        (
            Player { life: 0, ..player },
            "Tried to draw from empty library and lost the game."@,
        )
    } else {
        let card = player.library.last();
        (
            Player {
                library: player.library.drop_last(),
                hand: player.hand.push(card),
                seen: player.seen.insert(card),
                ..player
            },
            "Drew card: "@ + card,
        )
    }
}

/// Drawing from a shared library: the player, the library and the log line.
pub open spec fn drawn_from(player: Player, library: Seq<Text>) -> (Player, Seq<Text>, Text) {
    if library.len() == 0 {
        (
            Player { life: 0, ..player },
            library,
            "Tried to draw from empty shared library and lost the game."@,
        )
    } else {
        let card = library.last();
        (
            Player { hand: player.hand.push(card), seen: player.seen.insert(card), ..player },
            library.drop_last(),
            "Drew shared card: "@ + card,
        )
    }
}

/// Draws the top card of the player's library.
pub fn draw_card(player: &mut PlayerState) -> (action: String)
    ensures
        final(player)@ == drawn(old(player)@).0,
        action@ == drawn(old(player)@).1,
{
    if let Some(card) = player.library.pop() {
        player.cards_seen.insert(card.name.as_str());
        let mut action = "Drew card: ".to_string();
        action.append(card.name.as_str());
        player.hand.push(card);
        proof {
            let before = old(player)@;
            assert(before.library.last() == card@);
            assert(player@.library =~= before.library.drop_last());
            assert(player@.hand =~= before.hand.push(card@));
            assert(player@ =~= drawn(before).0);
        }
        action
    } else {
        player.life = 0;
        "Tried to draw from empty library and lost the game.".to_string()
    }
}

/// Draws the top card of a shared library.
pub fn draw_card_from_shared(
    player: &mut PlayerState,
    shared_library: &mut Vec<DeckCard>,
) -> (action: String)
    ensures
        final(player)@ == drawn_from(old(player)@, card_names(old(shared_library)@)).0,
        card_names(final(shared_library)@) == drawn_from(
            old(player)@,
            card_names(old(shared_library)@),
        ).1,
        action@ == drawn_from(old(player)@, card_names(old(shared_library)@)).2,
{
    let ghost stock = card_names(shared_library@);
    if let Some(card) = shared_library.pop() {
        player.cards_seen.insert(card.name.as_str());
        let mut action = "Drew shared card: ".to_string();
        action.append(card.name.as_str());
        player.hand.push(card);
        proof {
            let before = old(player)@;
            assert(stock.last() == card@);
            assert(card_names(shared_library@) =~= stock.drop_last());
            assert(player@.hand =~= before.hand.push(card@));
            assert(player@ =~= drawn_from(before, stock).0);
        }
        action
    } else {
        player.life = 0;
        "Tried to draw from empty shared library and lost the game.".to_string()
    }
}

// ---------------------------------------------------------------------------
// Graveyards
// ---------------------------------------------------------------------------

/// Whether `name` is the name of Bridge from Below.
pub open spec fn is_bridge(name: Text) -> bool {
    lowercase(name) == "bridge from below"@
}

/// Where a card goes when it leaves play: the owner and the shared graveyard
/// after it. In the yard format every card but Bridge from Below goes to the
/// shared graveyard.
pub open spec fn buried(owner: Player, graveyard: Seq<Text>, card: Text, yard: bool) -> (
    Player,
    Seq<Text>,
) {
    if yard && !is_bridge(card) {
        (owner, graveyard.push(card))
    } else {
        (Player { graveyard: owner.graveyard.push(card), ..owner }, graveyard)
    }
}

/// Puts a card in the shared graveyard, or in its owner's if it is Bridge from
/// Below.
pub fn put_in_yard_graveyard(
    owner: &mut PlayerState,
    card: DeckCard,
    shared_graveyard: &mut Vec<DeckCard>,
)
    ensures
        final(owner)@ == buried(old(owner)@, card_names(old(shared_graveyard)@), card@, true).0,
        card_names(final(shared_graveyard)@) == buried(
            old(owner)@,
            card_names(old(shared_graveyard)@),
            card@,
            true,
        ).1,
{
    let ghost name = card@;
    if same_text(normalize_name(card.name.as_str()).as_str(), "bridge from below") {
        owner.graveyard.push(card);
        assert(owner@.graveyard =~= old(owner)@.graveyard.push(name));
        assert(owner@ =~= buried(old(owner)@, card_names(shared_graveyard@), name, true).0);
    } else {
        let ghost before = card_names(shared_graveyard@);
        shared_graveyard.push(card);
        assert(card_names(shared_graveyard@) =~= before.push(name));
    }
}

// ---------------------------------------------------------------------------
// Discarding
// ---------------------------------------------------------------------------

/// The mana value of the card called `name`; an unknown card counts as 0.
pub open spec fn value_of(db: Cards, name: Text) -> int {
    match known(db, name) {
        Some(profile) => profile.cmc as int,
        None => 0,
    }
}

/// The keys by which a card is picked for the discard.
pub open spec fn discard_keys(hand: Seq<Text>, db: Cards) -> Seq<Option<int>> {
    hand.map_values(|name: Text| Some(value_of(db, name)))
}

/// The card to discard: of those with the greatest mana value the last.
pub open spec fn discard_index(hand: Seq<Text>, db: Cards) -> int {
    match last_greatest(discard_keys(hand, db)) {
        Some(i) => i,
        None => 0,
    }
}

/// The card to discard is in the hand.
pub proof fn lemma_discard_index(hand: Seq<Text>, db: Cards)
    requires
        hand.len() > 0,
    ensures
        0 <= discard_index(hand, db) < hand.len(),
{
    let keys = discard_keys(hand, db);
    lemma_last_greatest(keys);
    assert(keys[0] is Some);
}

/// The line that is logged for a discard.
pub open spec fn discard_line(card: Text, max: nat) -> Text {
    "Discarded "@ + card + " to hand size ("@ + decimal(max) + ")."@
}

/// Discarding down to a hand of `max` cards: the player, the shared graveyard and
/// the log.
pub open spec fn discarded(
    player: Player,
    graveyard: Seq<Text>,
    db: Cards,
    max: nat,
    yard: bool,
) -> (Player, Seq<Text>, Seq<Text>)
    decreases player.hand.len(),
    via discarded_decreases
{
    if player.hand.len() <= max {
        (player, graveyard, Seq::empty())
    } else {
        let i = discard_index(player.hand, db);
        let card = player.hand[i];
        let kept = Player { hand: player.hand.remove(i), ..player };
        let (owner, pile) = buried(kept, graveyard, card, yard);
        let (last, heap, log) = discarded(owner, pile, db, max, yard);
        (last, heap, seq![discard_line(card, max)] + log)
    }
}

#[via_fn]
proof fn discarded_decreases(
    player: Player,
    graveyard: Seq<Text>,
    db: Cards,
    max: nat,
    yard: bool,
) {
    if player.hand.len() > max {
        lemma_discard_index(player.hand, db);
    }
}

/// Outside the yard format the shared graveyard is left alone.
pub proof fn lemma_plain_discard_keeps_graveyard(
    player: Player,
    graveyard: Seq<Text>,
    db: Cards,
    max: nat,
)
    ensures
        discarded(player, graveyard, db, max, false).1 == graveyard,
    decreases player.hand.len(),
{
    if player.hand.len() > max {
        lemma_discard_index(player.hand, db);
        let i = discard_index(player.hand, db);
        let kept = Player { hand: player.hand.remove(i), ..player };
        lemma_plain_discard_keeps_graveyard(
            buried(kept, graveyard, player.hand[i], false).0,
            graveyard,
            db,
            max,
        );
    }
}

/// The card to discard: of those with the greatest mana value the last.
pub fn choose_discard_index(player: &PlayerState, card_db: &CardDb) -> (index: usize)
    ensures
        index == discard_index(player@.hand, card_db@),
        player@.hand.len() > 0 ==> index < player@.hand.len(),
{
    let mut keys: Vec<Option<i64>> = Vec::new();
    let mut i: usize = 0;
    while i < player.hand.len()
        invariant
            i <= player.hand@.len(),
            keys@.len() == i,
            forall|j: int|
                0 <= j < i ==> widened(keys@)[j] == #[trigger] discard_keys(
                    player@.hand,
                    card_db@,
                )[j],
        decreases player.hand@.len() - i,
    {
        let ghost held = keys@;
        let value: i64 = match card_profile_for(&player.hand[i], card_db) {
            Some(profile) => profile.cmc as i64,
            None => 0,
        };
        keys.push(Some(value));
        assert(forall|j: int| 0 <= j < i ==> #[trigger] widened(keys@)[j] == widened(held)[j]);
        i += 1;
    }
    assert(widened(keys@) =~= discard_keys(player@.hand, card_db@));
    proof {
        if player@.hand.len() > 0 {
            lemma_discard_index(player@.hand, card_db@);
        }
    }
    match find_last_greatest(&keys) {
        Some(found) => found,
        None => 0,
    }
}

fn discard_action(card: &str, max: usize) -> (action: String)
    ensures
        action@ == discard_line(card@, max as nat),
{
    let mut action = "Discarded ".to_string();
    action.append(card);
    action.append(" to hand size (");
    append_decimal(&mut action, max as u64);
    action.append(").");
    action
}

/// Discards down to a hand of `max_hand_size` cards.
pub fn discard_down_to_hand_size(
    player: &mut PlayerState,
    card_db: &CardDb,
    max_hand_size: usize,
) -> (actions: Vec<String>)
    ensures
        final(player)@ == discarded(
            old(player)@,
            Seq::empty(),
            card_db@,
            max_hand_size as nat,
            false,
        ).0,
        texts(actions@) == discarded(
            old(player)@,
            Seq::empty(),
            card_db@,
            max_hand_size as nat,
            false,
        ).2,
{
    let mut actions: Vec<String> = Vec::new();
    let ghost none = Seq::<Text>::empty();
    let ghost whole = discarded(player@, none, card_db@, max_hand_size as nat, false);
    assert(texts(actions@) =~= none);
    assert(none + whole.2 =~= whole.2);
    while player.hand.len() > max_hand_size
        invariant
            none == Seq::<Text>::empty(),
            whole.0 == discarded(player@, none, card_db@, max_hand_size as nat, false).0,
            whole.2 == texts(actions@) + discarded(
                player@,
                none,
                card_db@,
                max_hand_size as nat,
                false,
            ).2,
        decreases player.hand@.len(),
    {
        let ghost before = player@;
        let ghost log = texts(actions@);
        let discard_idx = choose_discard_index(player, card_db);
        let card = player.hand.remove(discard_idx);
        let ghost name = card@;
        actions.push(discard_action(card.name.as_str(), max_hand_size));
        player.graveyard.push(card);
        proof {
            let kept = Player { hand: before.hand.remove(discard_idx as int), ..before };
            assert(name == before.hand[discard_idx as int]);
            assert(player@.hand =~= kept.hand);
            assert(player@.graveyard =~= before.graveyard.push(name));
            assert(player@ =~= buried(kept, none, name, false).0);
            let rest = discarded(player@, none, card_db@, max_hand_size as nat, false).2;
            assert(texts(actions@) =~= log.push(discard_line(name, max_hand_size as nat)));
            assert(log + (seq![discard_line(name, max_hand_size as nat)] + rest) =~= texts(
                actions@,
            ) + rest);
        }
    }
    assert(texts(actions@) + none =~= texts(actions@));
    actions
}

/// Discards down to a hand of `max_hand_size` cards, into the shared graveyard.
pub fn discard_down_to_hand_size_yard(
    player: &mut PlayerState,
    card_db: &CardDb,
    shared_graveyard: &mut Vec<DeckCard>,
    max_hand_size: usize,
) -> (actions: Vec<String>)
    ensures
        ({
            let done = discarded(
                old(player)@,
                card_names(old(shared_graveyard)@),
                card_db@,
                max_hand_size as nat,
                true,
            );
            &&& final(player)@ == done.0
            &&& card_names(final(shared_graveyard)@) == done.1
            &&& texts(actions@) == done.2
        }),
{
    let mut actions: Vec<String> = Vec::new();
    let ghost whole = discarded(
        player@,
        card_names(shared_graveyard@),
        card_db@,
        max_hand_size as nat,
        true,
    );
    assert(texts(actions@) =~= Seq::<Text>::empty());
    assert(Seq::<Text>::empty() + whole.2 =~= whole.2);
    while player.hand.len() > max_hand_size
        invariant
            ({
                let rest = discarded(
                    player@,
                    card_names(shared_graveyard@),
                    card_db@,
                    max_hand_size as nat,
                    true,
                );
                &&& whole.0 == rest.0
                &&& whole.1 == rest.1
                &&& whole.2 == texts(actions@) + rest.2
            }),
        decreases player.hand@.len(),
    {
        let ghost before = player@;
        let ghost pile = card_names(shared_graveyard@);
        let ghost log = texts(actions@);
        let discard_idx = choose_discard_index(player, card_db);
        let card = player.hand.remove(discard_idx);
        let ghost name = card@;
        let ghost kept = Player { hand: before.hand.remove(discard_idx as int), ..before };
        proof {
            assert(name == before.hand[discard_idx as int]);
            assert(player@.hand =~= kept.hand);
            assert(player@ =~= kept);
        }
        actions.push(discard_action(card.name.as_str(), max_hand_size));
        put_in_yard_graveyard(player, card, shared_graveyard);
        proof {
            let rest = discarded(
                player@,
                card_names(shared_graveyard@),
                card_db@,
                max_hand_size as nat,
                true,
            ).2;
            assert(texts(actions@) =~= log.push(discard_line(name, max_hand_size as nat)));
            assert(log + (seq![discard_line(name, max_hand_size as nat)] + rest) =~= texts(
                actions@,
            ) + rest);
            assert(player@.hand == kept.hand);
            assert(player@.hand.len() == player.hand@.len());
        }
    }
    assert(texts(actions@) + Seq::<Text>::empty() =~= texts(actions@));
    actions
}

// ---------------------------------------------------------------------------
// Untapping
// ---------------------------------------------------------------------------

/// A creature that may attack.
pub open spec fn rested(creature: Creature) -> Creature {
    Creature { sick: false, ..creature }
}

/// A player after untapping: no mana is left over and every creature may attack.
pub open spec fn untapped(player: Player) -> Player {
    Player {
        pool: 0,
        battlefield: player.battlefield.map_values(|creature: Creature| rested(creature)),
        ..player
    }
}

/// Empties the mana pool and lets every creature attack.
pub fn untap(player: &mut PlayerState)
    ensures
        final(player)@ == untapped(old(player)@),
{
    player.mana_pool = 0;
    let mut i: usize = 0;
    let ghost start = player@;
    while i < player.battlefield.len()
        invariant
            i <= player.battlefield@.len(),
            start == (Player { pool: 0, ..old(player)@ }),
            player@ == (Player { battlefield: player@.battlefield, ..start }),
            player@.battlefield.len() == start.battlefield.len(),
            forall|j: int|
                0 <= j < i ==> #[trigger] player@.battlefield[j] == rested(start.battlefield[j]),
            forall|j: int|
                i <= j < start.battlefield.len() ==> #[trigger] player@.battlefield[j]
                    == start.battlefield[j],
        decreases player.battlefield@.len() - i,
    {
        let ghost before = player@;
        player.battlefield[i].summoning_sick = false;
        proof {
            assert(player@.battlefield =~= before.battlefield.update(
                i as int,
                rested(before.battlefield[i as int]),
            ));
        }
        i += 1;
    }
    proof {
        assert(player@.battlefield =~= untapped(old(player)@).battlefield);
    }
}

// ---------------------------------------------------------------------------
// Lands
// ---------------------------------------------------------------------------

/// Which cards of a hand are lands.
pub open spec fn land_flags(hand: Seq<Text>, db: Cards) -> Seq<bool> {
    hand.map_values(|name: Text| kind_of(db, name) is Land)
}

/// Playing the first land of the hand, if there is one: the player and the log
/// line. `None` where the number of lands leaves its range.
pub open spec fn land_played(player: Player, db: Cards) -> Option<(Player, Option<Text>)> {
    match first_set(land_flags(player.hand, db)) {
        None => Some((player, None)),
        Some(i) => {
            let card = player.hand[i];
            let lands = player.lands + 1;
            if is_mana(lands) {
                Some(
                    (
                        Player {
                            hand: player.hand.remove(i),
                            lands,
                            seen: player.seen.insert(card),
                            ..player
                        },
                        Some(
                            "Played land: "@ + card + " (lands in play: "@ + decimal(lands as nat)
                                + ")."@,
                        ),
                    ),
                )
            } else {
                None
            }
        },
    }
}

/// The first land in a hand.
fn find_land(hand: &Vec<DeckCard>, card_db: &CardDb) -> (found: Option<usize>)
    ensures
        match found {
            Some(i) => is_first(land_flags(card_names(hand@), card_db@), i as int),
            None => first_set(land_flags(card_names(hand@), card_db@)) is None,
        },
{
    let ghost flags = land_flags(card_names(hand@), card_db@);
    let mut i: usize = 0;
    while i < hand.len()
        invariant
            flags == land_flags(card_names(hand@), card_db@),
            i <= hand@.len(),
            forall|j: int| 0 <= j < i ==> !#[trigger] flags[j],
        decreases hand@.len() - i,
    {
        assert(flags[i as int] == (kind_of(card_db@, hand@[i as int]@) is Land));
        if let CardKind::Land = card_kind_for(&hand[i], card_db) {
            return Some(i);
        }
        i += 1;
    }
    proof {
        lemma_first_unset(flags);
    }
    None
}

/// Plays the first land of the hand, if there is one.
pub fn play_land(player: &mut PlayerState, card_db: &CardDb) -> (action: Result<
    Option<String>,
    OutOfRange,
>)
    ensures
        match land_played(old(player)@, card_db@) {
            None => action is Err,
            Some((after, line)) => {
                &&& action is Ok
                &&& final(player)@ == after
                &&& line == match action->Ok_0 {
                    Some(text) => Some(text@),
                    None => None,
                }
            },
        },
{
    if let Some(idx) = find_land(&player.hand, card_db) {
        proof {
            lemma_first_set(land_flags(player@.hand, card_db@), idx as int);
        }
        if player.lands_in_play == u32::MAX {
            return Err(OutOfRange);
        }
        let land = player.hand.remove(idx);
        player.cards_seen.insert(land.name.as_str());
        player.lands_in_play = player.lands_in_play + 1;
        let mut action = "Played land: ".to_string();
        action.append(land.name.as_str());
        action.append(" (lands in play: ");
        append_decimal(&mut action, player.lands_in_play as u64);
        action.append(").");
        proof {
            let before = old(player)@;
            assert(land@ == before.hand[idx as int]);
            assert(player@.hand =~= before.hand.remove(idx as int));
        }
        return Ok(Some(action));
    }
    Ok(None)
}

} // verus!
