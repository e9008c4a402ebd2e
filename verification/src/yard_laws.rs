//! What holds of every special play of the yard format.

use crate::cards::{known, CardKind, Cards};
use crate::players::{is_bridge, Creature, Player, Step, Table};
use crate::ranking::{
    first_set, last_greatest, lemma_first_exists, lemma_first_set, lemma_last_greatest,
};
use crate::text::{decimal, is_ascii_text, lowercase, signed_decimal, Text};
use crate::yard::{
    cycled, holds_known, mana_activated, named_flags, pet_flags, priority_cast, reanimated,
    target_keys, wants_mana, Cycling,
};
use vstd::prelude::*;

verus! {

// ---------------------------------------------------------------------------
// Street Wraith
// ---------------------------------------------------------------------------

/// The first Street Wraith in hand is cycled: it costs 2 life, goes to the shared
/// graveyard and draws the top card of the shared library. Then the next one is looked at.
pub proof fn lemma_one_cycle(
    player: Player,
    graveyard: Seq<Text>,
    rest: Seq<Text>,
    card: Text,
    left: Seq<Text>,
    wraith: Text,
    right: Seq<Text>,
)
    requires
        player.hand == left + seq![wraith] + right,
        lowercase(wraith) == "street wraith"@,
        forall|i: int| 0 <= i < left.len() ==> lowercase(#[trigger] left[i]) != "street wraith"@,
        player.life > 2,
    ensures
        ({
            let next = cycled(
                Player {
                    hand: left + right + seq![card],
                    life: player.life - 2,
                    seen: player.seen.insert(card),
                    ..player
                },
                graveyard + seq![wraith],
                rest,
            );
            cycled(player, graveyard, rest.push(card)) == (Cycling {
                log: seq![
                    "Cycled Street Wraith by paying 2 life ("@ + player.name + " life now "@
                        + signed_decimal(player.life - 2) + ")."@,
                    "Drew shared card: "@ + card,
                ] + next.log,
                ..next
            })
        }),
{
    let flags = named_flags(player.hand, "street wraith"@);
    let k = left.len() as int;
    assert(player.hand[k] == wraith);
    assert(flags[k]);
    assert forall|j: int| 0 <= j < k implies !#[trigger] flags[j] by {
        assert(player.hand[j] == left[j]);
    }
    lemma_first_set(flags, k);
    lemma_no_bridge(wraith);
    assert(player.hand.remove(k) =~= left + right);
    assert(rest.push(card).drop_last() =~= rest);
    assert((left + right).push(card) =~= left + right + seq![card]);
    assert(graveyard.push(wraith) =~= graveyard + seq![wraith]);
}

proof fn lemma_no_bridge(name: Text)
    requires
        lowercase(name) == "street wraith"@ || lowercase(name) == "reanimate"@,
    ensures
        !is_bridge(name),
{
    reveal_strlit("street wraith");
    reveal_strlit("reanimate");
    reveal_strlit("bridge from below");
    assert("street wraith"@.len() == 13 && "reanimate"@.len() == 9);
    assert("bridge from below"@.len() == 17);
}

/// With an empty library the first Street Wraith is still cycled, and loses the game.
pub proof fn lemma_last_cycle(
    player: Player,
    graveyard: Seq<Text>,
    left: Seq<Text>,
    wraith: Text,
    right: Seq<Text>,
)
    requires
        player.hand == left + seq![wraith] + right,
        lowercase(wraith) == "street wraith"@,
        forall|i: int| 0 <= i < left.len() ==> lowercase(#[trigger] left[i]) != "street wraith"@,
        player.life > 2,
    ensures
        ({
            let after = cycled(player, graveyard, Seq::empty());
            &&& after.player == (Player { hand: left + right, life: 0, ..player })
            &&& after.graveyard == graveyard + seq![wraith]
            &&& after.library.len() == 0
            &&& after.log == seq![
                "Cycled Street Wraith by paying 2 life ("@ + player.name + " life now "@
                    + signed_decimal(player.life - 2) + ")."@,
                "Tried to draw from empty shared library and lost the game."@,
            ]
        }),
{
    let flags = named_flags(player.hand, "street wraith"@);
    let k = left.len() as int;
    assert(player.hand[k] == wraith);
    assert(flags[k]);
    assert forall|j: int| 0 <= j < k implies !#[trigger] flags[j] by {
        assert(player.hand[j] == left[j]);
    }
    lemma_first_set(flags, k);
    lemma_no_bridge(wraith);
    assert(player.hand.remove(k) =~= left + right);
    assert(graveyard.push(wraith) =~= graveyard + seq![wraith]);
    reveal_with_fuel(cycled, 2);
    let lost = Player { hand: left + right, life: 0, ..player };
    let none = Seq::<Text>::empty();
    assert(cycled(lost, graveyard + seq![wraith], none).log.len() == 0);
    assert(cycled(player, graveyard, none).log =~= seq![
        "Cycled Street Wraith by paying 2 life ("@ + player.name + " life now "@
            + signed_decimal(player.life - 2) + ")."@,
        "Tried to draw from empty shared library and lost the game."@,
    ]);
}

/// Without a Street Wraith in hand, or with no more than 2 life, nothing is cycled.
pub proof fn lemma_no_cycle(player: Player, graveyard: Seq<Text>, library: Seq<Text>)
    requires
        player.life <= 2 || forall|i: int|
            0 <= i < player.hand.len() ==> lowercase(#[trigger] player.hand[i])
                != "street wraith"@,
    ensures
        cycled(player, graveyard, library) == (Cycling {
            player,
            graveyard,
            library,
            log: Seq::empty(),
        }),
{
    let flags = named_flags(player.hand, "street wraith"@);
    lemma_first_exists(flags);
    if let Some(i) = first_set(flags) {
        assert(flags[i]);
    }
}

// ---------------------------------------------------------------------------
// Reanimate
// ---------------------------------------------------------------------------

/// The first Reanimate in hand brings back the creature card of greatest power in the
/// opponent's graveyard, the last of several, under the caster, who pays its mana value,
/// taken as an `i32`, in life, where the result is an `i32`. Reanimate goes to the shared
/// graveyard, and so does the card, unless it is Bridge from Below, which returns to its
/// owner's.
pub proof fn lemma_reanimation(
    table: Table,
    db: Cards,
    left: Seq<Text>,
    spell: Text,
    right: Seq<Text>,
    above: Seq<Text>,
    card: Text,
    below: Seq<Text>,
    power: i32,
    toughness: i32,
)
    requires
        table.active.hand == left + seq![spell] + right,
        lowercase(spell) == "reanimate"@,
        forall|i: int| 0 <= i < left.len() ==> lowercase(#[trigger] left[i]) != "reanimate"@,
        table.defending.graveyard == above + seq![card] + below,
        known(db, card) matches Some(profile) && profile.kind == (CardKind::Creature {
            power,
            toughness,
        }),
        forall|i: int|
            0 <= i < above.len() ==> (known(db, #[trigger] above[i]) matches Some(other)
                ==> other.kind is Creature ==> other.kind->Creature_power <= power),
        forall|i: int|
            0 <= i < below.len() ==> (known(db, #[trigger] below[i]) matches Some(other)
                ==> other.kind is Creature ==> other.kind->Creature_power < power),
    ensures
        ({
            let profile = known(db, card)->0;
            let price = if profile.cmc <= i32::MAX {
                profile.cmc as int
            } else {
                profile.cmc - 0x1_0000_0000
            };
            let life = table.active.life - price;
            let bridge = lowercase(card) == "bridge from below"@;
            let creature = Creature {
                name: profile.name,
                power: power as int,
                toughness: toughness as int,
                sick: true,
            };
            reanimated(table, db) == if i32::MIN <= life <= i32::MAX {
                Some(
                    Step {
                        table: Table {
                            active: Player {
                                hand: left + right,
                                life,
                                battlefield: table.active.battlefield + seq![creature],
                                ..table.active
                            },
                            defending: Player {
                                graveyard: if bridge {
                                    above + below + seq![card]
                                } else {
                                    above + below
                                },
                                ..table.defending
                            },
                            graveyard: if bridge {
                                table.graveyard + seq!["Reanimate"@]
                            } else {
                                table.graveyard + seq!["Reanimate"@, card]
                            },
                        },
                        log: seq![
                            "Cast Reanimate targeting "@ + profile.name + " (lost "@ + decimal(
                                profile.cmc as nat,
                            ) + " life, "@ + signed_decimal(life) + " life now)."@,
                        ],
                    },
                )
            } else {
                None::<Step>
            }
        }),
{
    let flags = named_flags(table.active.hand, "reanimate"@);
    let i = left.len() as int;
    assert(table.active.hand[i] == spell);
    assert(flags[i]);
    assert forall|j: int| 0 <= j < i implies !#[trigger] flags[j] by {
        assert(table.active.hand[j] == left[j]);
    }
    lemma_first_set(flags, i);
    let pile = table.defending.graveyard;
    let keys = target_keys(pile, db);
    let k = above.len() as int;
    assert(pile[k] == card);
    assert(keys[k] == Some(power as int));
    lemma_last_greatest(keys);
    assert(last_greatest(keys) is Some);
    let g = last_greatest(keys)->0;
    if g < k {
        assert(pile[g] == above[g]);
    } else if g > k {
        assert(pile[g] == below[g - k - 1]);
    }
    assert(g == k);
    reveal_strlit("Reanimate");
    reveal_strlit("reanimate");
    assert(is_ascii_text("Reanimate"@));
    assert(lowercase("Reanimate"@) =~= "reanimate"@);
    lemma_no_bridge("Reanimate"@);
    let profile = known(db, card)->0;
    let cmc: u32 = profile.cmc;
    assert(cmc > 0x7fff_ffff ==> (cmc as i32) == cmc - 0x1_0000_0000) by (bit_vector);
    let creature = Creature {
        name: profile.name,
        power: power as int,
        toughness: toughness as int,
        sick: true,
    };
    assert(table.active.hand.remove(i) =~= left + right);
    assert(pile.remove(k) =~= above + below);
    assert((above + below).push(card) =~= above + below + seq![card]);
    assert(table.active.battlefield.push(creature) =~= table.active.battlefield + seq![creature]);
    assert(table.graveyard.push("Reanimate"@) =~= table.graveyard + seq!["Reanimate"@]);
    assert(table.graveyard.push("Reanimate"@).push(card) =~= table.graveyard + seq![
        "Reanimate"@,
        card,
    ]);
}

/// Without Reanimate in hand, or without a creature card in the opponent's graveyard,
/// nothing is brought back.
pub proof fn lemma_no_reanimation(table: Table, db: Cards)
    requires
        (forall|i: int|
            0 <= i < table.active.hand.len() ==> lowercase(#[trigger] table.active.hand[i])
                != "reanimate"@) || (forall|k: int|
            0 <= k < table.defending.graveyard.len() ==> (known(
                db,
                #[trigger] table.defending.graveyard[k],
            ) matches Some(profile) ==> !(profile.kind is Creature))),
    ensures
        reanimated(table, db) == Some(Step { table, log: Seq::<Text>::empty() }),
{
    let flags = named_flags(table.active.hand, "reanimate"@);
    let keys = target_keys(table.defending.graveyard, db);
    lemma_first_exists(flags);
    lemma_last_greatest(keys);
    if let (Some(i), Some(k)) = (first_set(flags), last_greatest(keys)) {
        assert(flags[i]);
        assert(keys[k] is Some);
        assert(known(db, table.defending.graveyard[k]) is Some);
    }
}

/// Wraiths are cycled before Reanimate is cast, and the log says so.
pub proof fn lemma_wraiths_before_reanimate(table: Table, library: Seq<Text>, db: Cards)
    ensures
        ({
            let wraiths = cycled(table.active, table.graveyard, library);
            priority_cast(table, library, db) == match reanimated(
                Table {
                    active: wraiths.player,
                    defending: table.defending,
                    graveyard: wraiths.graveyard,
                },
                db,
            ) {
                None => None::<(Step, Seq<Text>)>,
                Some(step) => Some(
                    (
                        Step { table: step.table, log: wraiths.log + step.log },
                        wraiths.library,
                    ),
                ),
            }
        }),
{
}

// ---------------------------------------------------------------------------
// Blood Pet
// ---------------------------------------------------------------------------

/// While the hand holds a known card that costs more than the mana of lands and pool, the
/// first Blood Pet is sacrificed: it leaves the battlefield for the shared graveyard, and
/// the pool has one mana more. Then the next one is looked at.
pub proof fn lemma_one_sacrifice(
    player: Player,
    graveyard: Seq<Text>,
    db: Cards,
    left: Seq<Creature>,
    pet: Creature,
    right: Seq<Creature>,
    k: int,
)
    requires
        player.battlefield == left + seq![pet] + right,
        lowercase(pet.name) == "blood pet"@,
        forall|i: int|
            0 <= i < left.len() ==> lowercase((#[trigger] left[i]).name) != "blood pet"@,
        0 <= k < player.hand.len(),
        known(db, player.hand[k]) matches Some(profile) && profile.cmc > player.lands
            + player.pool,
        0 <= player.lands + player.pool,
    ensures
        mana_activated(player, graveyard, db) == match mana_activated(
            Player { battlefield: left + right, pool: player.pool + 1, ..player },
            graveyard + seq![pet.name],
            db,
        ) {
            None => None::<(Player, Seq<Text>, Seq<Text>)>,
            Some((after, pile, log)) => Some(
                (
                    after,
                    pile,
                    seq![
                        "Activated Blood Pet: sacrificed for {B} (pool "@ + decimal(
                            (player.pool + 1) as nat,
                        ) + ")."@,
                    ] + log,
                ),
            ),
        },
{
    let flags = pet_flags(player.battlefield);
    let i = left.len() as int;
    assert(player.battlefield[i] == pet);
    assert(flags[i]);
    assert forall|j: int| 0 <= j < i implies !#[trigger] flags[j] by {
        assert(player.battlefield[j] == left[j]);
    }
    lemma_first_set(flags, i);
    assert(known(db, player.hand[k]) is Some);
    assert(wants_mana(player.hand, db, player.lands + player.pool));
    assert(player.battlefield.remove(i) =~= left + right);
    assert(graveyard.push(pet.name) =~= graveyard + seq![pet.name]);
}

/// Lands and pool that together are more than a `u32` are out of range, where there is a
/// Blood Pet to sacrifice and a known card to pay for.
pub proof fn lemma_pets_out_of_range(
    player: Player,
    graveyard: Seq<Text>,
    db: Cards,
    i: int,
    k: int,
)
    requires
        0 <= i < player.battlefield.len(),
        lowercase(player.battlefield[i].name) == "blood pet"@,
        0 <= k < player.hand.len(),
        known(db, player.hand[k]) is Some,
        player.lands + player.pool > u32::MAX,
    ensures
        mana_activated(player, graveyard, db) is None,
{
    let flags = pet_flags(player.battlefield);
    lemma_first_exists(flags);
    assert(flags[i]);
    assert(holds_known(player.hand, db));
}

/// Without a Blood Pet, or where the mana pays for every known card in hand, nothing is
/// sacrificed.
pub proof fn lemma_no_sacrifice(player: Player, graveyard: Seq<Text>, db: Cards)
    requires
        0 <= player.lands + player.pool <= u32::MAX,
        (forall|i: int|
            0 <= i < player.battlefield.len() ==> lowercase(
                (#[trigger] player.battlefield[i]).name,
            ) != "blood pet"@) || (forall|k: int|
            0 <= k < player.hand.len() ==> (known(db, #[trigger] player.hand[k]) matches Some(
                profile,
            ) ==> profile.cmc <= player.lands + player.pool)),
    ensures
        mana_activated(player, graveyard, db) == Some((player, graveyard, Seq::<Text>::empty())),
{
    let flags = pet_flags(player.battlefield);
    lemma_first_exists(flags);
    if let Some(i) = first_set(flags) {
        assert(flags[i]);
        assert(lowercase(player.battlefield[i].name) == "blood pet"@);
        if wants_mana(player.hand, db, player.lands + player.pool) {
            let k = choose|k: int|
                0 <= k < player.hand.len() && known(db, #[trigger] player.hand[k]) is Some && known(
                    db,
                    player.hand[k],
                )->0.cmc > player.lands + player.pool;
            assert(known(db, player.hand[k]) is Some);
        }
    }
}

} // verus!
