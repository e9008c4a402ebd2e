//! What holds of every draw, land, discard and spell.

use crate::cards::{kind_of, known, CardKind, Cards};
use crate::players::{
    buried, discard_index, discard_keys, discarded, drawn, drawn_from, land_flags, land_played,
    lemma_discard_index, untapped, value_of, Creature, Player, Step, Table,
};
use crate::ranking::{
    lemma_first_exists, lemma_first_set, lemma_first_unset, lemma_last_greatest, lemma_ranking,
    ranking,
};
use crate::spells::{
    cast_from, chosen_spell, is_affordable, is_lethal, lemma_pick, lemma_responded,
    lemma_stack_effect, lethal_flags, mana_left, playable_keys, reanimate_flags, resolved,
    responded, response_flags, response_line, spells_cast, stack_resolved, taken, yard_cost, Cast,
    Item,
};
use crate::text::{decimal, lowercase, signed_decimal, Text};
use vstd::prelude::*;

verus! {

// ---------------------------------------------------------------------------
// Drawing
// ---------------------------------------------------------------------------

/// A draw moves the last card of the library to the end of the hand, and the player has
/// seen it. Nothing else changes.
pub proof fn lemma_draw(player: Player, rest: Seq<Text>, card: Text)
    requires
        player.library == rest.push(card),
    ensures
        drawn(player).0 == (Player {
            library: rest,
            hand: player.hand + seq![card],
            seen: player.seen.insert(card),
            ..player
        }),
        drawn(player).1 == "Drew card: "@ + card,
{
    assert(player.library.drop_last() =~= rest);
    assert(player.hand.push(card) =~= player.hand + seq![card]);
}

/// A draw from a shared library leaves the player's own alone.
pub proof fn lemma_shared_draw(player: Player, rest: Seq<Text>, card: Text)
    ensures
        drawn_from(player, rest.push(card)) == (
            Player {
                hand: player.hand + seq![card],
                seen: player.seen.insert(card),
                ..player
            },
            rest,
            "Drew shared card: "@ + card,
        ),
{
    assert(rest.push(card).drop_last() =~= rest);
    assert(player.hand.push(card) =~= player.hand + seq![card]);
}

/// Without a card to draw the player has no life left, and nothing else changes.
pub proof fn lemma_draw_from_nothing(player: Player)
    ensures
        player.library.len() == 0 ==> drawn(player) == (
            Player { life: 0, ..player },
            "Tried to draw from empty library and lost the game."@,
        ),
        drawn_from(player, Seq::empty()) == (
            Player { life: 0, ..player },
            Seq::<Text>::empty(),
            "Tried to draw from empty shared library and lost the game."@,
        ),
{
}

/// Untapping leaves a player as they were, but for their mana and for the creatures that
/// could not attack yet.
pub proof fn lemma_untapping(player: Player)
    ensures
        untapped(player).pool == 0,
        untapped(player).battlefield.len() == player.battlefield.len(),
        forall|i: int|
            0 <= i < player.battlefield.len() ==> #[trigger] untapped(player).battlefield[i] == (
            Creature { sick: false, ..player.battlefield[i] }),
        untapped(player) == (Player {
            pool: 0,
            battlefield: untapped(player).battlefield,
            ..player
        }),
{
}

// ---------------------------------------------------------------------------
// Lands
// ---------------------------------------------------------------------------

/// The first land of a hand is played: it leaves the hand, counts as one land more, and
/// has been seen. Nothing else changes.
pub proof fn lemma_land_drop(
    player: Player,
    db: Cards,
    left: Seq<Text>,
    land: Text,
    right: Seq<Text>,
)
    requires
        player.hand == left + seq![land] + right,
        kind_of(db, land) == CardKind::Land,
        forall|i: int| 0 <= i < left.len() ==> kind_of(db, #[trigger] left[i]) != CardKind::Land,
        0 <= player.lands < u32::MAX,
    ensures
        land_played(player, db) == Some(
            (
                Player {
                    hand: left + right,
                    lands: player.lands + 1,
                    seen: player.seen.insert(land),
                    ..player
                },
                Some(
                    "Played land: "@ + land + " (lands in play: "@ + decimal(
                        (player.lands + 1) as nat,
                    ) + ")."@,
                ),
            ),
        ),
{
    let flags = land_flags(player.hand, db);
    let i = left.len() as int;
    assert(player.hand[i] == land);
    assert forall|j: int| 0 <= j < i implies !#[trigger] flags[j] by {
        assert(player.hand[j] == left[j]);
    }
    assert(flags[i]);
    lemma_first_set(flags, i);
    assert(player.hand.remove(i) =~= left + right);
}

/// A land more than a `u32` can count is not played.
pub proof fn lemma_too_many_lands(player: Player, db: Cards, i: int)
    requires
        0 <= i < player.hand.len(),
        kind_of(db, player.hand[i]) == CardKind::Land,
        player.lands == u32::MAX,
    ensures
        land_played(player, db) is None,
{
    let flags = land_flags(player.hand, db);
    lemma_first_exists(flags);
    assert(flags[i]);
}

/// Without a land in hand nothing is played.
pub proof fn lemma_no_land_drop(player: Player, db: Cards)
    requires
        forall|i: int|
            0 <= i < player.hand.len() ==> kind_of(db, #[trigger] player.hand[i]) != CardKind::Land,
    ensures
        land_played(player, db) == Some((player, None::<Text>)),
{
    let flags = land_flags(player.hand, db);
    assert forall|j: int| 0 <= j < flags.len() implies !#[trigger] flags[j] by {
        assert(kind_of(db, player.hand[j]) != CardKind::Land);
    }
    lemma_first_unset(flags);
}

// ---------------------------------------------------------------------------
// Discarding
// ---------------------------------------------------------------------------

/// The worth of a card is its mana value, and that of an unknown card is 0.
pub proof fn lemma_worth(db: Cards, name: Text)
    ensures
        known(db, name) matches Some(profile) ==> value_of(db, name) == profile.cmc,
        known(db, name) is None ==> value_of(db, name) == 0,
{
}

/// The card to discard is worth no less than any other, and more than any further to the
/// right.
pub proof fn lemma_discard_choice(hand: Seq<Text>, db: Cards)
    requires
        hand.len() > 0,
    ensures
        ({
            let i = discard_index(hand, db);
            &&& 0 <= i < hand.len()
            &&& forall|k: int|
                0 <= k < hand.len() ==> value_of(db, #[trigger] hand[k]) <= value_of(db, hand[i])
            &&& forall|k: int|
                i < k < hand.len() ==> value_of(db, #[trigger] hand[k]) < value_of(db, hand[i])
        }),
{
    let keys = discard_keys(hand, db);
    lemma_discard_index(hand, db);
    lemma_last_greatest(keys);
    let i = discard_index(hand, db);
    assert(keys[0] is Some);
    assert forall|k: int| 0 <= k < hand.len() implies value_of(db, #[trigger] hand[k]) <= value_of(
        db,
        hand[i],
    ) && (k > i ==> value_of(db, hand[k]) < value_of(db, hand[i])) by {
        assert(keys[k] is Some);
    }
}

/// Discarding moves cards from the hand to the player's graveyard until `max` are left,
/// and no further. No card that is kept is worth more than one that goes. Each is logged,
/// and nothing else changes.
pub proof fn lemma_discarding(player: Player, graveyard: Seq<Text>, db: Cards, max: nat)
    ensures
        ({
            let (after, pile, log) = discarded(player, graveyard, db, max, false);
            let moved = after.graveyard.skip(player.graveyard.len() as int);
            &&& after.hand.len() == if player.hand.len() > max {
                max
            } else {
                player.hand.len()
            }
            &&& moved.len() == player.hand.len() - after.hand.len()
            &&& after.graveyard == player.graveyard + moved
            &&& player.hand.to_multiset() == after.hand.to_multiset().add(moved.to_multiset())
            &&& forall|i: int, j: int|
                0 <= i < after.hand.len() && 0 <= j < moved.len() ==> value_of(
                    db,
                    #[trigger] after.hand[i],
                ) <= value_of(db, #[trigger] moved[j])
            &&& log.len() == moved.len()
            &&& forall|j: int|
                0 <= j < moved.len() ==> #[trigger] log[j] == "Discarded "@ + moved[j]
                    + " to hand size ("@ + decimal(max) + ")."@
            &&& after == (Player { hand: after.hand, graveyard: after.graveyard, ..player })
            &&& pile == graveyard
        }),
    decreases player.hand.len(),
{
    broadcast use vstd::seq_lib::group_to_multiset_ensures;

    let (after, pile, log) = discarded(player, graveyard, db, max, false);
    let moved = after.graveyard.skip(player.graveyard.len() as int);
    if player.hand.len() > max {
        lemma_discard_choice(player.hand, db);
        let i = discard_index(player.hand, db);
        let card = player.hand[i];
        let next = Player {
            hand: player.hand.remove(i),
            graveyard: player.graveyard.push(card),
            ..player
        };
        lemma_discarding(next, graveyard, db, max);
        let later = after.graveyard.skip(next.graveyard.len() as int);
        assert(moved =~= seq![card] + later);
        assert(after.graveyard =~= player.graveyard + moved);
        assert(moved.to_multiset() =~= later.to_multiset().insert(card)) by {
            assert(seq![card] + later =~= later.insert(0, card));
        }
        assert(player.hand.to_multiset() =~= next.hand.to_multiset().insert(card)) by {
            assert(next.hand.insert(i, card) =~= player.hand);
        }
        assert(player.hand.to_multiset() =~= after.hand.to_multiset().add(moved.to_multiset()));
        assert forall|a: int, b: int|
            0 <= a < after.hand.len() && 0 <= b < moved.len() implies value_of(
            db,
            #[trigger] after.hand[a],
        ) <= value_of(db, #[trigger] moved[b]) by {
            if b > 0 {
                assert(moved[b] == later[b - 1]);
            } else {
                assert(after.hand.contains(after.hand[a]));
                assert(after.hand.to_multiset().contains(after.hand[a]));
                assert(player.hand.to_multiset().contains(after.hand[a]));
                assert(player.hand.contains(after.hand[a]));
            }
        }
        assert forall|j: int| 0 <= j < moved.len() implies #[trigger] log[j] == "Discarded "@
            + moved[j] + " to hand size ("@ + decimal(max) + ")."@ by {
            if j > 0 {
                assert(moved[j] == later[j - 1]);
            }
        }
    } else {
        assert(moved =~= Seq::<Text>::empty());
        assert(player.graveyard + moved =~= player.graveyard);
        assert(player.hand.to_multiset() =~= after.hand.to_multiset().add(moved.to_multiset()));
    }
}

/// In the yard format the same cards are discarded, in the same order: Bridge from Below
/// to the player's graveyard, and every other card to the shared one.
pub proof fn lemma_yard_discarding(player: Player, graveyard: Seq<Text>, db: Cards, max: nat)
    ensures
        ({
            let (plain, _, plain_log) = discarded(player, graveyard, db, max, false);
            let (after, pile, log) = discarded(player, graveyard, db, max, true);
            let moved = plain.graveyard.skip(player.graveyard.len() as int);
            &&& after == (Player {
                graveyard: player.graveyard + moved.filter(
                    |card: Text| lowercase(card) == "bridge from below"@,
                ),
                ..plain
            })
            &&& pile == graveyard + moved.filter(
                |card: Text| lowercase(card) != "bridge from below"@,
            )
            &&& log == plain_log
        }),
{
    lemma_yard_discards(player, player, graveyard, graveyard, db, max);
}

proof fn lemma_yard_discards(
    p: Player,
    q: Player,
    pile: Seq<Text>,
    heap: Seq<Text>,
    db: Cards,
    max: nat,
)
    requires
        q == (Player { graveyard: q.graveyard, ..p }),
    ensures
        ({
            let (plain, _, plain_log) = discarded(p, pile, db, max, false);
            let (after, last, log) = discarded(q, heap, db, max, true);
            let moved = plain.graveyard.skip(p.graveyard.len() as int);
            &&& after == (Player {
                graveyard: q.graveyard + moved.filter(
                    |card: Text| lowercase(card) == "bridge from below"@,
                ),
                ..plain
            })
            &&& last == heap + moved.filter(|card: Text| lowercase(card) != "bridge from below"@)
            &&& log == plain_log
        }),
    decreases p.hand.len(),
{
    let stays = |card: Text| lowercase(card) == "bridge from below"@;
    let goes = |card: Text| lowercase(card) != "bridge from below"@;
    let (plain, _, _) = discarded(p, pile, db, max, false);
    let moved = plain.graveyard.skip(p.graveyard.len() as int);
    reveal_with_fuel(Seq::filter, 2);
    if p.hand.len() > max {
        lemma_discard_index(p.hand, db);
        lemma_discarding(p, pile, db, max);
        let i = discard_index(p.hand, db);
        let card = p.hand[i];
        let p2 = Player { hand: p.hand.remove(i), graveyard: p.graveyard.push(card), ..p };
        let (q2, heap2) = buried(Player { hand: q.hand.remove(i), ..q }, heap, card, true);
        lemma_discarding(p2, pile, db, max);
        lemma_yard_discards(p2, q2, pile, heap2, db, max);
        let later = plain.graveyard.skip(p2.graveyard.len() as int);
        assert(moved =~= seq![card] + later);
        Seq::filter_distributes_over_add(seq![card], later, stays);
        Seq::filter_distributes_over_add(seq![card], later, goes);
        assert(seq![card].drop_last() =~= Seq::<Text>::empty());
        if stays(card) {
            assert(seq![card].filter(stays) =~= seq![card]);
            assert(seq![card].filter(goes) =~= Seq::<Text>::empty());
        } else {
            assert(seq![card].filter(stays) =~= Seq::<Text>::empty());
            assert(seq![card].filter(goes) =~= seq![card]);
        }
        assert(q2.graveyard + later.filter(stays) =~= q.graveyard + moved.filter(stays));
        assert(heap2 + later.filter(goes) =~= heap + moved.filter(goes));
    } else {
        assert(moved =~= Seq::<Text>::empty());
        assert(q.graveyard + moved.filter(stays) =~= q.graveyard);
        assert(heap + moved.filter(goes) =~= heap);
    }
}

// ---------------------------------------------------------------------------
// Spells
// ---------------------------------------------------------------------------

/// A creature comes into play under the active player with the power and the toughness of
/// its profile, and cannot attack yet. Nothing else changes.
pub proof fn lemma_creature_spell(table: Table, item: Item, power: i32, toughness: i32, yard: bool)
    requires
        item.profile.kind == (CardKind::Creature { power, toughness }),
    ensures
        resolved(table, item, yard) == Some(
            (
                Table {
                    active: Player {
                        battlefield: table.active.battlefield + seq![
                            Creature {
                                name: item.profile.name,
                                power: power as int,
                                toughness: toughness as int,
                                sick: true,
                            },
                        ],
                        ..table.active
                    },
                    ..table
                },
                "Cast creature "@ + item.profile.name + " ("@ + signed_decimal(power as int)
                    + "/"@ + signed_decimal(toughness as int) + ")"@,
            ),
        ),
{
    let creature = Creature {
        name: item.profile.name,
        power: power as int,
        toughness: toughness as int,
        sick: true,
    };
    assert(table.active.battlefield.push(creature) =~= table.active.battlefield + seq![creature]);
}

/// Burn takes its damage from the defending player's life, where the result is an `i32`;
/// the card is laid aside, and nothing else changes.
pub proof fn lemma_burn_spell(table: Table, item: Item, damage: i32, yard: bool)
    requires
        item.profile.kind == (CardKind::Burn { damage }),
    ensures
        resolved(table, item, yard) is Some <==> i32::MIN <= table.defending.life - damage
            <= i32::MAX,
        resolved(table, item, yard) matches Some((after, line)) ==> {
            &&& after.defending == (Player {
                life: table.defending.life - damage,
                ..table.defending
            })
            &&& after.active == (Player { graveyard: after.active.graveyard, ..table.active })
            &&& line == "Cast burn "@ + item.profile.name + " for "@ + signed_decimal(
                damage as int,
            ) + " damage to "@ + table.defending.name + " (life now "@ + signed_decimal(
                table.defending.life - damage,
            ) + ")."@
        },
{
}

/// A ritual adds its mana to the active player's pool, where the result is a `u32`; the
/// card is laid aside, and nothing else changes.
pub proof fn lemma_ritual_spell(table: Table, item: Item, mana: u32, yard: bool)
    requires
        item.profile.kind == (CardKind::ManaRitual { mana }),
    ensures
        resolved(table, item, yard) is Some <==> 0 <= table.active.pool + mana <= u32::MAX,
        resolved(table, item, yard) matches Some((after, line)) ==> {
            &&& after.active == (Player {
                pool: table.active.pool + mana,
                graveyard: after.active.graveyard,
                ..table.active
            })
            &&& after.defending == table.defending
            &&& line == "Resolved ritual "@ + item.profile.name + " and added "@ + decimal(
                mana as nat,
            ) + " mana (pool "@ + decimal((table.active.pool + mana) as nat) + ")."@
        },
{
}

/// Any other spell, a land among them, is laid aside and does nothing else.
pub proof fn lemma_other_spell(table: Table, item: Item, yard: bool)
    requires
        item.profile.kind == CardKind::OtherSpell || item.profile.kind == CardKind::Land,
    ensures
        resolved(table, item, yard) matches Some((after, line)) && after.active == (Player {
            graveyard: after.active.graveyard,
            ..table.active
        }) && after.defending == table.defending && line == "Cast spell "@ + item.profile.name
            + "."@,
{
}

/// The card of a spell that is no creature is laid in the active player's graveyard; in
/// the yard format in the shared one, unless it is Bridge from Below.
pub proof fn lemma_spell_is_laid_aside(table: Table, item: Item, yard: bool)
    requires
        !(item.profile.kind is Creature),
    ensures
        resolved(table, item, yard) matches Some((after, _)) ==> {
            if yard && lowercase(item.card) != "bridge from below"@ {
                &&& after.active.graveyard == table.active.graveyard
                &&& after.graveyard == table.graveyard + seq![item.card]
            } else {
                &&& after.active.graveyard == table.active.graveyard + seq![item.card]
                &&& after.graveyard == table.graveyard
            }
        },
{
    assert(table.active.graveyard.push(item.card) =~= table.active.graveyard + seq![item.card]);
    assert(table.graveyard.push(item.card) =~= table.graveyard + seq![item.card]);
}

// ---------------------------------------------------------------------------
// Costs
// ---------------------------------------------------------------------------

/// A card can be paid for that is known and whose mana value is no more than the mana.
pub proof fn lemma_what_can_be_paid(db: Cards, name: Text, mana: int)
    ensures
        is_affordable(db, name, mana) <==> known(db, name) is Some && known(db, name)->0.cmc
            <= mana,
{
}

/// A card ends the game that is known, is burn, and deals at least as much damage as there
/// is life.
pub proof fn lemma_what_is_lethal(db: Cards, name: Text, life: int)
    ensures
        is_lethal(db, name, life) <==> known(db, name) is Some && known(db, name)->0.kind is Burn
            && known(db, name)->0.kind->damage >= life,
{
}

/// In the yard Street Wraith and Contagion are free, and every other card costs its mana
/// value.
pub proof fn lemma_yard_costs(name: Text, base: int)
    ensures
        lowercase(name) == "street wraith"@ ==> yard_cost(name, base) == 0,
        lowercase(name) == "contagion"@ ==> yard_cost(name, base) == 0,
        lowercase(name) != "street wraith"@ && lowercase(name) != "contagion"@ ==> yard_cost(
            name,
            base,
        ) == base,
{
}

/// Of spells in whatever order, the first burn that ends the game is cast; without one,
/// in the yard against a player with cards in their graveyard, the first Reanimate; and
/// otherwise the spell that stands first.
pub proof fn lemma_choice_in_order(
    hand: Seq<Text>,
    order: Seq<int>,
    db: Cards,
    opponent: Player,
    yard: bool,
    p: int,
)
    requires
        0 <= p < order.len(),
    ensures
        ({
            let ends = |q: int|
                match known(db, hand[order[q]]) {
                    Some(profile) => profile.kind is Burn && profile.kind->damage
                        >= opponent.life,
                    None => false,
                };
            let raises = |q: int| lowercase(hand[order[q]]) == "reanimate"@;
            let chosen = chosen_spell(hand, order, db, opponent, yard);
            &&& ends(p) && (forall|q: int| 0 <= q < p ==> !#[trigger] ends(q)) ==> chosen
                == order[p]
            &&& (forall|q: int| 0 <= q < order.len() ==> !#[trigger] ends(q)) && yard
                && opponent.graveyard.len() > 0 && raises(p) && (forall|q: int|
                0 <= q < p ==> !#[trigger] raises(q)) ==> chosen == order[p]
            &&& (forall|q: int| 0 <= q < order.len() ==> !#[trigger] ends(q)) && (!yard
                || opponent.graveyard.len() == 0 || (forall|q: int|
                0 <= q < order.len() ==> !#[trigger] raises(q))) ==> chosen == order[0]
        }),
{
    let lethal = lethal_flags(hand, order, db, opponent.life);
    let raising = reanimate_flags(hand, order);
    let ends = |q: int|
        match known(db, hand[order[q]]) {
            Some(profile) => profile.kind is Burn && profile.kind->damage >= opponent.life,
            None => false,
        };
    let raises = |q: int| lowercase(hand[order[q]]) == "reanimate"@;
    assert(forall|q: int| 0 <= q < order.len() ==> #[trigger] lethal[q] == ends(q));
    assert(forall|q: int| 0 <= q < order.len() ==> #[trigger] raising[q] == raises(q));
    if ends(p) && forall|q: int| 0 <= q < p ==> !#[trigger] ends(q) {
        lemma_first_set(lethal, p);
    }
    if forall|q: int| 0 <= q < order.len() ==> !#[trigger] ends(q) {
        lemma_first_unset(lethal);
        if raises(p) && forall|q: int| 0 <= q < p ==> !#[trigger] raises(q) {
            lemma_first_set(raising, p);
        }
        if forall|q: int| 0 <= q < order.len() ==> !#[trigger] raises(q) {
            lemma_first_unset(raising);
        }
    }
}

// ---------------------------------------------------------------------------
// Answers and the stack
// ---------------------------------------------------------------------------

/// A player answers with the first card in hand that is known, is paid for by their lands
/// and pool, and deals at least as much damage as the opponent has life. It leaves the
/// hand; what it costs leaves the mana, and the rest of the mana is their pool.
pub proof fn lemma_answer(
    responder: Player,
    life: int,
    db: Cards,
    yard: bool,
    left: Seq<Text>,
    card: Text,
    right: Seq<Text>,
    damage: i32,
)
    requires
        responder.hand == left + seq![card] + right,
        0 <= responder.lands + responder.pool <= u32::MAX,
        known(db, card) matches Some(profile) && profile.kind == (CardKind::Burn { damage })
            && profile.cmc <= responder.lands + responder.pool,
        damage >= life,
        forall|i: int|
            0 <= i < left.len() ==> {
                ||| known(db, #[trigger] left[i]) is None
                ||| known(db, left[i])->0.cmc > responder.lands + responder.pool
                ||| !(known(db, left[i])->0.kind is Burn)
                ||| known(db, left[i])->0.kind->damage < life
            },
    ensures
        ({
            let profile = known(db, card)->0;
            let free = yard && (lowercase(card) == "street wraith"@ || lowercase(card)
                == "contagion"@);
            let cost = if free {
                0
            } else {
                profile.cmc as int
            };
            responded(responder, life, db, yard) == Some(
                (
                    Player {
                        hand: left + right,
                        pool: responder.lands + responder.pool - cost,
                        ..responder
                    },
                    Some(Item { card, profile }),
                ),
            )
        }),
{
    let mana = responder.lands + responder.pool;
    let flags = response_flags(responder.hand, db, mana, life);
    let k = left.len() as int;
    assert(responder.hand[k] == card);
    assert(flags[k]);
    assert forall|j: int| 0 <= j < k implies !#[trigger] flags[j] by {
        assert(responder.hand[j] == left[j]);
    }
    lemma_first_set(flags, k);
    assert(responder.hand.remove(k) =~= left + right);
}

/// Lands and pool that together are more than a `u32` are out of range, for an answer and
/// for casting.
pub proof fn lemma_too_much_mana(player: Player, table: Table, life: int, db: Cards, yard: bool)
    requires
        player.lands + player.pool > u32::MAX,
        table.active == player,
    ensures
        responded(player, life, db, yard) is None,
        spells_cast(table, db, yard) is None,
{
}

/// A player without such a card does not answer.
pub proof fn lemma_no_answer(responder: Player, life: int, db: Cards, yard: bool)
    requires
        0 <= responder.lands + responder.pool <= u32::MAX,
        forall|i: int|
            0 <= i < responder.hand.len() ==> {
                ||| known(db, #[trigger] responder.hand[i]) is None
                ||| known(db, responder.hand[i])->0.cmc > responder.lands + responder.pool
                ||| !(known(db, responder.hand[i])->0.kind is Burn)
                ||| known(db, responder.hand[i])->0.kind->damage < life
            },
    ensures
        responded(responder, life, db, yard) == Some((responder, None::<Item>)),
{
    let flags = response_flags(responder.hand, db, responder.lands + responder.pool, life);
    assert forall|j: int| 0 <= j < flags.len() implies !#[trigger] flags[j] by {
        assert(known(db, responder.hand[j]) is None || known(db, responder.hand[j]) is Some);
    }
    lemma_first_unset(flags);
}

/// The upper part of a stack resolves before the lower part, answers included.
pub proof fn lemma_stack_from_the_top(
    low: Seq<Item>,
    high: Seq<Item>,
    table: Table,
    db: Cards,
    yard: bool,
)
    ensures
        stack_resolved(low + high, table, db, yard) == match stack_resolved(high, table, db, yard) {
            None => None::<Step>,
            Some(first) => match stack_resolved(low, first.table, db, yard) {
                None => None::<Step>,
                Some(second) => Some(
                    Step { table: second.table, log: first.log + second.log },
                ),
            },
        },
    decreases table.defending.hand.len(), high.len(),
{
    let all = low + high;
    if high.len() == 0 {
        assert(all =~= low);
        if let Some(second) = stack_resolved(low, table, db, yard) {
            assert(Seq::<Text>::empty() + second.log =~= second.log);
        }
    } else {
        lemma_responded(table.defending, table.active.life, db, yard);
        match responded(table.defending, table.active.life, db, yard) {
            None => {},
            Some((defending, Some(answer))) => {
                let next = Table { defending, ..table };
                assert(all.push(answer) =~= low + high.push(answer));
                lemma_stack_from_the_top(low, high.push(answer), next, db, yard);
                if let Some(first) = stack_resolved(high.push(answer), next, db, yard) {
                    if let Some(second) = stack_resolved(low, first.table, db, yard) {
                        let line = seq![response_line(defending.name, answer.profile.name)];
                        assert(line + (first.log + second.log) =~= (line + first.log)
                            + second.log);
                    }
                }
            },
            Some((_, None)) => {
                assert(all.last() == high.last());
                assert(all.drop_last() =~= low + high.drop_last());
                if let Some((after, line)) = resolved(table, high.last(), yard) {
                    lemma_stack_from_the_top(low, high.drop_last(), after, db, yard);
                    if let Some(first) = stack_resolved(high.drop_last(), after, db, yard) {
                        if let Some(second) = stack_resolved(low, first.table, db, yard) {
                            assert(seq![line] + (first.log + second.log) =~= (seq![line]
                                + first.log) + second.log);
                        }
                    }
                }
            },
        }
    }
}

/// A lone spell that is not answered resolves; one that is answered resolves after the
/// answer. An empty stack does nothing.
pub proof fn lemma_lone_spell(item: Item, table: Table, db: Cards, yard: bool)
    ensures
        stack_resolved(Seq::empty(), table, db, yard) == Some(
            Step { table, log: Seq::<Text>::empty() },
        ),
        responded(table.defending, table.active.life, db, yard) matches Some((_, None))
            ==> stack_resolved(seq![item], table, db, yard) == match resolved(table, item, yard) {
            None => None::<Step>,
            Some((after, line)) => Some(Step { table: after, log: seq![line] }),
        },
        responded(table.defending, table.active.life, db, yard) matches Some(
            (defending, Some(answer)),
        ) ==> stack_resolved(seq![item], table, db, yard) == match stack_resolved(
            seq![item, answer],
            Table { defending, ..table },
            db,
            yard,
        ) {
            None => None::<Step>,
            Some(step) => Some(
                Step {
                    table: step.table,
                    log: seq![
                        defending.name + " responds with "@ + answer.profile.name + "."@,
                    ] + step.log,
                },
            ),
        },
        responded(table.defending, table.active.life, db, yard) is None ==> stack_resolved(
            seq![item],
            table,
            db,
            yard,
        ) is None,
{
    reveal_with_fuel(stack_resolved, 2);
    lemma_responded(table.defending, table.active.life, db, yard);
    assert(seq![item].drop_last() =~= Seq::<Item>::empty());
    if let Some((_, Some(answer))) = responded(table.defending, table.active.life, db, yard) {
        assert(seq![item].push(answer) =~= seq![item, answer]);
    }
    if let Some((after, line)) = resolved(table, item, yard) {
        assert(seq![line] + Seq::<Text>::empty() =~= seq![line]);
    }
}

// ---------------------------------------------------------------------------
// Casting
// ---------------------------------------------------------------------------

/// Spells are cast until nothing in hand can be paid for with what is left.
pub proof fn lemma_nothing_left_to_cast(mana: int, table: Table, db: Cards, yard: bool)
    ensures
        cast_from(mana, table, db, yard) matches Some(cast) ==> forall|k: int|
            0 <= k < cast.step.table.active.hand.len() ==> (known(
                db,
                #[trigger] cast.step.table.active.hand[k],
            ) matches Some(profile) ==> profile.cmc > cast.mana),
    decreases table.active.hand.len(),
{
    let hand = table.active.hand;
    let keys = playable_keys(hand, db, mana);
    let order = ranking(keys);
    lemma_ranking(keys);
    if order.len() > 0 {
        lemma_pick(mana, table, db, yard);
        let i = chosen_spell(hand, order, db, table.defending, yard);
        let item = Item { card: hand[i], profile: known(db, hand[i])->0 };
        lemma_stack_effect(seq![item], taken(table, i), db, yard);
        if let Some(step) = stack_resolved(seq![item], taken(table, i), db, yard) {
            lemma_nothing_left_to_cast(
                mana_left(mana, item.card, item.profile, yard),
                step.table,
                db,
                yard,
            );
        }
    } else {
        assert forall|k: int| 0 <= k < hand.len() implies (known(
            db,
            #[trigger] hand[k],
        ) matches Some(profile) ==> profile.cmc > mana) by {
            if keys[k] is Some {
                assert(order.contains(k));
            }
        }
    }
}

/// The mana that is spent outside the yard is the worth of the cards that leave the hand.
pub proof fn lemma_mana_pays_for_the_cards(mana: int, table: Table, db: Cards)
    ensures
        cast_from(mana, table, db, false) matches Some(cast) ==> mana - cast.mana
            == table.active.hand.map_values(|card: Text| value_of(db, card)).fold_left(
            0,
            |sum: int, n: int| sum + n,
        ) - cast.step.table.active.hand.map_values(|card: Text| value_of(db, card)).fold_left(
            0,
            |sum: int, n: int| sum + n,
        ),
    decreases table.active.hand.len(),
{
    let hand = table.active.hand;
    let order = ranking(playable_keys(hand, db, mana));
    if order.len() > 0 {
        lemma_pick(mana, table, db, false);
        let i = chosen_spell(hand, order, db, table.defending, false);
        let item = Item { card: hand[i], profile: known(db, hand[i])->0 };
        lemma_stack_effect(seq![item], taken(table, i), db, false);
        if let Some(step) = stack_resolved(seq![item], taken(table, i), db, false) {
            lemma_mana_pays_for_the_cards(mana - item.profile.cmc, step.table, db);
            let worth = hand.map_values(|card: Text| value_of(db, card));
            let rest = hand.remove(i).map_values(|card: Text| value_of(db, card));
            assert(rest =~= worth.remove(i));
            lemma_sum_without(worth, i);
        }
    }
}

proof fn lemma_sum_without(row: Seq<int>, i: int)
    requires
        0 <= i < row.len(),
    ensures
        row.fold_left(0, |sum: int, n: int| sum + n) == row[i] + row.remove(i).fold_left(
            0,
            |sum: int, n: int| sum + n,
        ),
    decreases row.len(),
{
    let add = |sum: int, n: int| sum + n;
    if i == row.len() - 1 {
        assert(row.remove(i) =~= row.drop_last());
    } else {
        lemma_sum_without(row.drop_last(), i);
        assert(row.remove(i).drop_last() =~= row.drop_last().remove(i));
        assert(row.remove(i).last() == row.last());
    }
}

/// Where nothing in hand can be paid for, nothing is cast.
pub proof fn lemma_nothing_to_cast(mana: int, table: Table, db: Cards, yard: bool)
    requires
        forall|k: int|
            0 <= k < table.active.hand.len() ==> (known(
                db,
                #[trigger] table.active.hand[k],
            ) matches Some(profile) ==> profile.cmc > mana),
    ensures
        cast_from(mana, table, db, yard) == Some(
            Cast { mana, step: Step { table, log: Seq::<Text>::empty() } },
        ),
{
    let hand = table.active.hand;
    let keys = playable_keys(hand, db, mana);
    let order = ranking(keys);
    lemma_ranking(keys);
    if order.len() > 0 {
        assert(keys[order[0]] is Some);
        assert(known(db, hand[order[0]]) is Some);
    }
}

/// One spell after the other: the card that is chosen leaves the hand, has been seen and
/// goes on the stack alone; once the stack is empty the next is chosen with the mana that
/// is left.
pub proof fn lemma_next_spell(mana: int, table: Table, db: Cards, yard: bool, k: int)
    requires
        0 <= k < table.active.hand.len(),
        known(db, table.active.hand[k]) matches Some(profile) && profile.cmc <= mana,
    ensures
        ({
            let hand = table.active.hand;
            let i = chosen_spell(
                hand,
                ranking(playable_keys(hand, db, mana)),
                db,
                table.defending,
                yard,
            );
            let card = hand[i];
            let profile = known(db, card)->0;
            let free = lowercase(card) == "street wraith"@ || lowercase(card) == "contagion"@;
            let paid = mana - if yard && free {
                0
            } else {
                profile.cmc as int
            };
            let left = if yard && profile.kind is ManaRitual {
                if paid + profile.kind->mana > u32::MAX {
                    u32::MAX as int
                } else {
                    paid + profile.kind->mana
                }
            } else {
                paid
            };
            let open = Table {
                active: Player {
                    hand: hand.remove(i),
                    seen: table.active.seen.insert(card),
                    ..table.active
                },
                ..table
            };
            cast_from(mana, table, db, yard) == match stack_resolved(
                seq![Item { card, profile }],
                open,
                db,
                yard,
            ) {
                None => None::<Cast>,
                Some(step) => match cast_from(left, step.table, db, yard) {
                    None => None::<Cast>,
                    Some(rest) => Some(
                        Cast {
                            mana: rest.mana,
                            step: Step {
                                table: rest.step.table,
                                log: seq!["Put "@ + card + " on the stack."@] + step.log
                                    + rest.step.log,
                            },
                        },
                    ),
                },
            }
        }),
{
    let keys = playable_keys(table.active.hand, db, mana);
    lemma_ranking(keys);
    assert(keys[k] is Some);
    assert(ranking(keys).contains(k));
    lemma_pick(mana, table, db, yard);
}

/// A player casts with the mana of their lands and pool. What is left of it beyond their
/// lands is their pool; where nothing can be cast, they are left as they were.
pub proof fn lemma_casting(table: Table, db: Cards, yard: bool)
    requires
        0 <= table.active.lands + table.active.pool <= u32::MAX,
    ensures
        spells_cast(table, db, yard) == match cast_from(
            table.active.lands + table.active.pool,
            table,
            db,
            yard,
        ) {
            None => None::<Step>,
            Some(cast) => {
                let after = cast.step.table;
                let pool = if cast.mana > after.active.lands {
                    cast.mana - after.active.lands
                } else {
                    0
                };
                Some(
                    Step {
                        table: Table { active: Player { pool, ..after.active }, ..after },
                        log: cast.step.log,
                    },
                )
            },
        },
        0 <= table.active.pool && (forall|k: int|
            0 <= k < table.active.hand.len() ==> (known(
                db,
                #[trigger] table.active.hand[k],
            ) matches Some(profile) ==> profile.cmc > table.active.lands + table.active.pool))
            ==> spells_cast(table, db, yard) == Some(Step { table, log: Seq::<Text>::empty() }),
{
    let hand = table.active.hand;
    let mana = table.active.lands + table.active.pool;
    let keys = playable_keys(hand, db, mana);
    let order = ranking(keys);
    lemma_ranking(keys);
    if order.len() > 0 {
        assert(keys[order[0]] is Some);
        assert(known(db, hand[order[0]]) is Some);
    }
}

} // verus!
