//! Combat: who attacks, who blocks, who dies, and what Bridge from Below makes of
//! it.

use crate::cards::{card_names, normalize_name, DeckCard};
use crate::players::{
    creatures, is_bridge, is_life, is_step, Creature, CreaturePermanent, OutOfRange, Player,
    PlayerState, Step, Table,
};
use crate::ranking::{positions, rank, ranking, widened};
use crate::seen::texts;
use crate::text::{append_decimal, append_signed, decimal, same_text, signed_decimal, Text};
use std::collections::HashSet;
use vstd::prelude::*;

verus! {

// ---------------------------------------------------------------------------
// Attackers and blockers
// ---------------------------------------------------------------------------

/// The power of the creatures that may attack.
pub open spec fn attack_keys(battlefield: Seq<Creature>) -> Seq<Option<int>> {
    battlefield.map_values(
        |creature: Creature|
            if creature.sick {
                None
            } else {
                Some(creature.power)
            },
    )
}

/// The toughness of the creatures, each of which may block.
pub open spec fn block_keys(battlefield: Seq<Creature>) -> Seq<Option<int>> {
    battlefield.map_values(|creature: Creature| Some(creature.toughness))
}

/// The attackers, the most powerful first.
pub open spec fn attackers(battlefield: Seq<Creature>) -> Seq<int> {
    ranking(attack_keys(battlefield))
}

/// The blockers, the toughest first. Each blocks the attacker of its own rank.
pub open spec fn blockers(battlefield: Seq<Creature>) -> Seq<int> {
    ranking(block_keys(battlefield))
}

/// Whether the attacker at position `i` falls: it is blocked, and its blocker's
/// power reaches its toughness.
pub open spec fn attacker_falls(ours: Seq<Creature>, theirs: Seq<Creature>, i: int) -> bool {
    let attack = attackers(ours);
    let block = blockers(theirs);
    exists|k: int|
        0 <= k < attack.len() && k < block.len() && #[trigger] attack[k] == i
            && theirs[block[k]].power >= ours[i].toughness
}

/// Whether the blocker at position `j` falls: it blocks, and the attacker's power
/// reaches its toughness.
pub open spec fn blocker_falls(ours: Seq<Creature>, theirs: Seq<Creature>, j: int) -> bool {
    let attack = attackers(ours);
    let block = blockers(theirs);
    exists|k: int|
        0 <= k < block.len() && k < attack.len() && #[trigger] block[k] == j
            && ours[attack[k]].power >= theirs[j].toughness
}

/// Which attackers fall.
pub open spec fn fallen_attackers(ours: Seq<Creature>, theirs: Seq<Creature>) -> Seq<bool> {
    Seq::new(ours.len(), |i: int| attacker_falls(ours, theirs, i))
}

/// Which blockers fall.
pub open spec fn fallen_blockers(ours: Seq<Creature>, theirs: Seq<Creature>) -> Seq<bool> {
    Seq::new(theirs.len(), |j: int| blocker_falls(ours, theirs, j))
}

/// The attackers that nobody blocks.
pub open spec fn unblocked(ours: Seq<Creature>, theirs: Seq<Creature>) -> Seq<int> {
    let attack = attackers(ours);
    let block = blockers(theirs);
    if attack.len() > block.len() {
        attack.skip(block.len() as int)
    } else {
        Seq::empty()
    }
}

fn rank_attackers(battlefield: &Vec<CreaturePermanent>) -> (order: Vec<usize>)
    ensures
        positions(order@) == attackers(creatures(battlefield@)),
        forall|p: int| 0 <= p < order@.len() ==> #[trigger] order@[p] < battlefield@.len(),
{
    let ghost model = attack_keys(creatures(battlefield@));
    let mut keys: Vec<Option<i64>> = Vec::new();
    let mut i: usize = 0;
    while i < battlefield.len()
        invariant
            model == attack_keys(creatures(battlefield@)),
            i <= battlefield@.len(),
            keys@.len() == i,
            forall|j: int| 0 <= j < i ==> #[trigger] widened(keys@)[j] == model[j],
        decreases battlefield@.len() - i,
    {
        let ghost held = keys@;
        if battlefield[i].summoning_sick {
            keys.push(None);
        } else {
            keys.push(Some(battlefield[i].power as i64));
        }
        proof {
            assert(forall|j: int| 0 <= j < i ==> #[trigger] widened(keys@)[j] == widened(held)[j]);
            assert(widened(keys@)[i as int] == model[i as int]);
        }
        i += 1;
    }
    assert(widened(keys@) =~= model);
    let order = rank(&keys);
    assert forall|p: int| 0 <= p < order@.len() implies #[trigger] order@[p]
        < battlefield@.len() by {
        assert(positions(order@)[p] == order@[p]);
    }
    order
}

fn rank_blockers(battlefield: &Vec<CreaturePermanent>) -> (order: Vec<usize>)
    ensures
        positions(order@) == blockers(creatures(battlefield@)),
        forall|p: int| 0 <= p < order@.len() ==> #[trigger] order@[p] < battlefield@.len(),
{
    let ghost model = block_keys(creatures(battlefield@));
    let mut keys: Vec<Option<i64>> = Vec::new();
    let mut i: usize = 0;
    while i < battlefield.len()
        invariant
            model == block_keys(creatures(battlefield@)),
            i <= battlefield@.len(),
            keys@.len() == i,
            forall|j: int| 0 <= j < i ==> #[trigger] widened(keys@)[j] == model[j],
        decreases battlefield@.len() - i,
    {
        let ghost held = keys@;
        keys.push(Some(battlefield[i].toughness as i64));
        proof {
            assert(forall|j: int| 0 <= j < i ==> #[trigger] widened(keys@)[j] == widened(held)[j]);
            assert(widened(keys@)[i as int] == model[i as int]);
        }
        i += 1;
    }
    assert(widened(keys@) =~= model);
    let order = rank(&keys);
    assert forall|p: int| 0 <= p < order@.len() implies #[trigger] order@[p]
        < battlefield@.len() by {
        assert(positions(order@)[p] == order@[p]);
    }
    order
}

/// Whether a creature of this power kills one of this toughness, for each pair of
/// ranks: the positions of the fallen.
fn clash(
    ours: &Vec<CreaturePermanent>,
    theirs: &Vec<CreaturePermanent>,
    attack: &Vec<usize>,
    block: &Vec<usize>,
) -> (fallen: (HashSet<usize>, HashSet<usize>))
    requires
        positions(attack@) == attackers(creatures(ours@)),
        positions(block@) == blockers(creatures(theirs@)),
        forall|p: int| 0 <= p < attack@.len() ==> #[trigger] attack@[p] < ours@.len(),
        forall|p: int| 0 <= p < block@.len() ==> #[trigger] block@[p] < theirs@.len(),
    ensures
        dead_flags(fallen.0@, ours@.len()) == fallen_attackers(
            creatures(ours@),
            creatures(theirs@),
        ),
        dead_flags(fallen.1@, theirs@.len()) == fallen_blockers(
            creatures(ours@),
            creatures(theirs@),
        ),
{
    broadcast use vstd::std_specs::hash::group_hash_axioms;

    let mut to_kill_attacker: HashSet<usize> = HashSet::new();
    let mut to_kill_blocker: HashSet<usize> = HashSet::new();
    let ghost ours_model = creatures(ours@);
    let ghost theirs_model = creatures(theirs@);
    let own_count: usize = ours.len();
    let other_count: usize = theirs.len();
    let mut k: usize = 0;
    while k < attack.len() && k < block.len()
        invariant
            ours_model == creatures(ours@),
            theirs_model == creatures(theirs@),
            forall|p: int| 0 <= p < attack@.len() ==> #[trigger] attack@[p] < ours@.len(),
            forall|p: int| 0 <= p < block@.len() ==> #[trigger] block@[p] < theirs@.len(),
            k <= attack@.len(),
            k <= block@.len(),
            forall|i: usize|
                #[trigger] to_kill_attacker@.contains(i) <==> exists|m: int|
                    0 <= m < k && #[trigger] attack@[m] == i && theirs_model[block@[m] as int].power
                        >= ours_model[i as int].toughness,
            forall|j: usize|
                #[trigger] to_kill_blocker@.contains(j) <==> exists|m: int|
                    0 <= m < k && #[trigger] block@[m] == j && ours_model[attack@[m] as int].power
                        >= theirs_model[j as int].toughness,
        decreases attack@.len() - k,
    {
        let ghost before_a = to_kill_attacker@;
        let ghost before_b = to_kill_blocker@;
        let a = attack[k];
        let b = block[k];
        let attacker = &ours[a];
        let blocker = &theirs[b];
        assert(ours_model[a as int] == attacker@);
        assert(theirs_model[b as int] == blocker@);
        let blocker_falls = attacker.power >= blocker.toughness;
        let attacker_falls = blocker.power >= attacker.toughness;
        if blocker_falls {
            to_kill_blocker.insert(b);
        }
        if attacker_falls {
            to_kill_attacker.insert(a);
        }
        proof {
            assert forall|i: usize|
                #[trigger] to_kill_attacker@.contains(i) <==> exists|m: int|
                    0 <= m < k + 1 && #[trigger] attack@[m] == i
                        && theirs_model[block@[m] as int].power
                        >= ours_model[i as int].toughness by {
                if before_a.contains(i) {
                    let m = choose|m: int|
                        0 <= m < k && #[trigger] attack@[m] == i
                            && theirs_model[block@[m] as int].power
                            >= ours_model[i as int].toughness;
                    assert(attack@[m] == i);
                }
                assert(attack@[k as int] == a);
            }
            assert forall|j: usize|
                #[trigger] to_kill_blocker@.contains(j) <==> exists|m: int|
                    0 <= m < k + 1 && #[trigger] block@[m] == j
                        && ours_model[attack@[m] as int].power
                        >= theirs_model[j as int].toughness by {
                if before_b.contains(j) {
                    let m = choose|m: int|
                        0 <= m < k && #[trigger] block@[m] == j
                            && ours_model[attack@[m] as int].power
                            >= theirs_model[j as int].toughness;
                    assert(block@[m] == j);
                }
                assert(block@[k as int] == b);
            }
        }
        k += 1;
    }
    proof {
        let att = attackers(ours_model);
        let blk = blockers(theirs_model);
        assert forall|m: int| 0 <= m < attack@.len() implies #[trigger] att[m] == attack@[m] by {}
        assert forall|m: int| 0 <= m < block@.len() implies #[trigger] blk[m] == block@[m] by {}
        assert(att.len() == attack@.len());
        assert(blk.len() == block@.len());
        assert(own_count == ours@.len() && other_count == theirs@.len());
        assert forall|i: int| 0 <= i < ours@.len() implies to_kill_attacker@.contains(i as usize)
            == attacker_falls(ours_model, theirs_model, i) by {
            if to_kill_attacker@.contains(i as usize) {
                let m = choose|m: int|
                    0 <= m < k && #[trigger] attack@[m] == i as usize
                        && theirs_model[block@[m] as int].power >= ours_model[i].toughness;
                assert(att[m] == i);
                assert(blk[m] == block@[m]);
            }
            if attacker_falls(ours_model, theirs_model, i) {
                let m = choose|m: int|
                    0 <= m < att.len() && m < blk.len() && #[trigger] att[m] == i
                        && theirs_model[blk[m]].power >= ours_model[i].toughness;
                assert(attack@[m] == i as usize);
                assert(blk[m] == block@[m]);
            }
        }
        assert forall|j: int| 0 <= j < theirs@.len() implies to_kill_blocker@.contains(j as usize)
            == blocker_falls(ours_model, theirs_model, j) by {
            if to_kill_blocker@.contains(j as usize) {
                let m = choose|m: int|
                    0 <= m < k && #[trigger] block@[m] == j as usize
                        && ours_model[attack@[m] as int].power >= theirs_model[j].toughness;
                assert(blk[m] == j);
                assert(att[m] == attack@[m]);
            }
            if blocker_falls(ours_model, theirs_model, j) {
                let m = choose|m: int|
                    0 <= m < blk.len() && m < att.len() && #[trigger] blk[m] == j
                        && ours_model[att[m]].power >= theirs_model[j].toughness;
                assert(block@[m] == j as usize);
                assert(att[m] == attack@[m]);
            }
        }
        assert(dead_flags(to_kill_attacker@, ours@.len()) =~= fallen_attackers(
            ours_model,
            theirs_model,
        ));
        assert(dead_flags(to_kill_blocker@, theirs@.len()) =~= fallen_blockers(
            ours_model,
            theirs_model,
        ));
    }
    (to_kill_attacker, to_kill_blocker)
}

// ---------------------------------------------------------------------------
// The dead
// ---------------------------------------------------------------------------

/// Which of the first `n` positions are in a set.
pub open spec fn dead_flags(dead: Set<usize>, n: nat) -> Seq<bool> {
    Seq::new(n, |i: int| dead.contains(i as usize))
}

/// The creatures that are not dead, in their order.
pub open spec fn survivors(battlefield: Seq<Creature>, dead: Seq<bool>) -> Seq<Creature>
    decreases battlefield.len(),
{
    if battlefield.len() == 0 {
        Seq::empty()
    } else {
        let rest = survivors(battlefield.drop_last(), dead);
        if dead[battlefield.len() - 1] {
            rest
        } else {
            rest.push(battlefield.last())
        }
    }
}

/// The names of the dead creatures, in their order.
pub open spec fn casualties(battlefield: Seq<Creature>, dead: Seq<bool>) -> Seq<Text>
    decreases battlefield.len(),
{
    if battlefield.len() == 0 {
        Seq::empty()
    } else {
        let rest = casualties(battlefield.drop_last(), dead);
        if dead[battlefield.len() - 1] {
            rest.push(battlefield.last().name)
        } else {
            rest
        }
    }
}

/// Every creature either survives or dies.
pub proof fn lemma_dead_or_alive(battlefield: Seq<Creature>, dead: Seq<bool>)
    ensures
        survivors(battlefield, dead).len() + casualties(battlefield, dead).len()
            == battlefield.len(),
    decreases battlefield.len(),
{
    if battlefield.len() > 0 {
        lemma_dead_or_alive(battlefield.drop_last(), dead);
    }
}

/// Moves the dead creatures from a battlefield to a graveyard, and counts them.
pub fn remove_dead_creatures(
    battlefield: &mut Vec<CreaturePermanent>,
    graveyard: &mut Vec<DeckCard>,
    dead_indices: &HashSet<usize>,
) -> (deaths: usize)
    ensures
        ({
            let before = creatures(old(battlefield)@);
            let dead = dead_flags(dead_indices@, before.len());
            &&& creatures(final(battlefield)@) == survivors(before, dead)
            &&& card_names(final(graveyard)@) == card_names(old(graveyard)@) + casualties(
                before,
                dead,
            )
            &&& deaths == casualties(before, dead).len()
        }),
{
    broadcast use vstd::std_specs::hash::group_hash_axioms;

    let ghost before = creatures(battlefield@);
    let ghost dead = dead_flags(dead_indices@, before.len());
    let ghost pile = card_names(graveyard@);
    let mut all: Vec<CreaturePermanent> = Vec::new();
    std::mem::swap(battlefield, &mut all);
    let ghost whole = all@;
    let count: usize = all.len();
    let mut deaths: usize = 0;
    let mut i: usize = 0;
    assert(creatures(battlefield@) =~= Seq::<Creature>::empty());
    assert(before.take(0) =~= Seq::<Creature>::empty());
    assert(pile + Seq::<Text>::empty() =~= pile);
    for creature in it: all
        invariant
            it.seq() == whole,
            before == creatures(whole),
            dead == dead_flags(dead_indices@, before.len()),
            i == it.index(),
            whole.len() == count,
            deaths <= i,
            deaths == casualties(before.take(i as int), dead).len(),
            creatures(battlefield@) == survivors(before.take(i as int), dead),
            card_names(graveyard@) == pile + casualties(before.take(i as int), dead),
    {
        let ghost next = before.take(i + 1);
        let ghost kept = creatures(battlefield@);
        let ghost buried = card_names(graveyard@);
        let ghost model = creature@;
        proof {
            assert(next.drop_last() =~= before.take(i as int));
            assert(next.last() == model);
        }
        if dead_indices.contains(&i) {
            deaths += 1;
            graveyard.push(DeckCard { name: creature.card_name });
            assert(card_names(graveyard@) =~= buried.push(model.name));
            assert(pile + casualties(next, dead) =~= buried.push(model.name));
        } else {
            battlefield.push(creature);
            assert(creatures(battlefield@) =~= kept.push(model));
        }
        i += 1;
    }
    assert(before.take(before.len() as int) =~= before);
    deaths
}

/// Moves the dead creatures from a battlefield to the shared graveyard, and counts
/// them.
pub fn remove_dead_creatures_yard(
    battlefield: &mut Vec<CreaturePermanent>,
    shared_graveyard: &mut Vec<DeckCard>,
    dead_indices: &HashSet<usize>,
) -> (deaths: usize)
    ensures
        ({
            let before = creatures(old(battlefield)@);
            let dead = dead_flags(dead_indices@, before.len());
            &&& creatures(final(battlefield)@) == survivors(before, dead)
            &&& card_names(final(shared_graveyard)@) == card_names(old(shared_graveyard)@)
                + casualties(before, dead)
            &&& deaths == casualties(before, dead).len()
        }),
{
    remove_dead_creatures(battlefield, shared_graveyard, dead_indices)
}

// ---------------------------------------------------------------------------
// Bridge from Below
// ---------------------------------------------------------------------------

/// How many cards of a graveyard are Bridge from Below.
pub open spec fn bridges(graveyard: Seq<Text>) -> nat
    decreases graveyard.len(),
{
    if graveyard.len() == 0 {
        0
    } else {
        bridges(graveyard.drop_last()) + if is_bridge(graveyard.last()) {
            1nat
        } else {
            0nat
        }
    }
}

/// The creature that Bridge from Below makes.
pub open spec fn zombie() -> Creature {
    Creature { name: "Zombie Token"@, power: 2, toughness: 2, sick: true }
}

/// A battlefield with `n` zombies more.
pub open spec fn with_zombies(battlefield: Seq<Creature>, n: nat) -> Seq<Creature> {
    battlefield + Seq::new(n, |i: int| zombie())
}

/// There are no more bridges in a graveyard than cards.
pub proof fn lemma_bridges_bound(graveyard: Seq<Text>)
    ensures
        bridges(graveyard) <= graveyard.len(),
    decreases graveyard.len(),
{
    if graveyard.len() > 0 {
        lemma_bridges_bound(graveyard.drop_last());
    }
}

/// Zombies can be made in two rounds.
proof fn lemma_tokens_in_two_rounds(battlefield: Seq<Creature>, a: nat, b: nat, each: nat)
    ensures
        with_zombies(with_zombies(battlefield, a * each), b * each) == with_zombies(
            battlefield,
            (a + b) * each,
        ),
{
    assert((a + b) * each == a * each + b * each) by (nonlinear_arith);
    assert(with_zombies(with_zombies(battlefield, a * each), b * each) =~= with_zombies(
        battlefield,
        (a + b) * each,
    ));
}

fn count_bridges(graveyard: &[DeckCard]) -> (count: usize)
    ensures
        count == bridges(card_names(graveyard@)),
{
    let ghost names = card_names(graveyard@);
    let mut count: usize = 0;
    let mut i: usize = 0;
    assert(names.take(0) =~= Seq::<Text>::empty());
    while i < graveyard.len()
        invariant
            names == card_names(graveyard@),
            i <= graveyard@.len(),
            count <= i,
            count == bridges(names.take(i as int)),
        decreases graveyard@.len() - i,
    {
        proof {
            assert(names.take(i + 1).drop_last() =~= names.take(i as int));
            assert(names.take(i + 1).last() == graveyard@[i as int]@);
        }
        if same_text(normalize_name(graveyard[i].name.as_str()).as_str(), "bridge from below") {
            count += 1;
        }
        i += 1;
    }
    assert(names.take(names.len() as int) =~= names);
    count
}

/// Makes `tokens` zombies for each Bridge from Below in a graveyard. An error
/// where their number leaves its range.
pub fn trigger_bridge_from_below(
    personal_graveyard: &[DeckCard],
    battlefield: &mut Vec<CreaturePermanent>,
    tokens: usize,
) -> (done: Result<(), OutOfRange>)
    ensures
        done is Ok <==> bridges(card_names(personal_graveyard@)) * tokens <= usize::MAX,
        done is Ok ==> creatures(final(battlefield)@) == with_zombies(
            creatures(old(battlefield)@),
            bridges(card_names(personal_graveyard@)) * tokens as nat,
        ),
{
    let bridge_triggers = count_bridges(personal_graveyard);
    let total = match bridge_triggers.checked_mul(tokens) {
        Some(total) => total,
        None => {
            return Err(OutOfRange);
        },
    };
    let ghost before = creatures(battlefield@);
    let mut made: usize = 0;
    assert(creatures(battlefield@) =~= with_zombies(before, 0));
    while made < total
        invariant
            made <= total,
            creatures(battlefield@) == with_zombies(before, made as nat),
        decreases total - made,
    {
        let ghost held = battlefield@;
        let token = CreaturePermanent {
            card_name: "Zombie Token".to_string(),
            power: 2,
            toughness: 2,
            summoning_sick: true,
        };
        assert(token@ == zombie());
        battlefield.push(token);
        assert(creatures(battlefield@) =~= creatures(held).push(zombie()));
        assert(with_zombies(before, (made + 1) as nat) =~= with_zombies(before, made as nat).push(
            zombie(),
        ));
        made += 1;
    }
    Ok(())
}

/// A player with the zombies that `deaths` deaths bring.
pub open spec fn haunted(player: Player, deaths: nat) -> Player {
    Player {
        battlefield: with_zombies(player.battlefield, deaths * bridges(player.graveyard)),
        ..player
    }
}

/// Lets every Bridge from Below of both players answer `deaths` deaths, each with a
/// zombie for its owner.
pub fn apply_bridge_triggers(
    deaths: usize,
    dead_owner: &mut PlayerState,
    opponent: &mut PlayerState,
)
    ensures
        final(dead_owner)@ == haunted(old(dead_owner)@, deaths as nat),
        final(opponent)@ == haunted(old(opponent)@, deaths as nat),
{
    let ghost own = bridges(dead_owner@.graveyard);
    let ghost other = bridges(opponent@.graveyard);
    let own_cards: usize = dead_owner.graveyard.len();
    let other_cards: usize = opponent.graveyard.len();
    let mut done: usize = 0;
    proof {
        lemma_bridges_bound(dead_owner@.graveyard);
        lemma_bridges_bound(opponent@.graveyard);
        assert(haunted(dead_owner@, 0) =~= dead_owner@);
        assert(haunted(opponent@, 0) =~= opponent@);
    }
    while done < deaths
        invariant
            done <= deaths,
            own == bridges(old(dead_owner)@.graveyard),
            other == bridges(old(opponent)@.graveyard),
            own <= own_cards,
            other <= other_cards,
            dead_owner@ == haunted(old(dead_owner)@, done as nat),
            opponent@ == haunted(old(opponent)@, done as nat),
        decreases deaths - done,
    {
        let _ = trigger_bridge_from_below(
            dead_owner.graveyard.as_slice(),
            &mut dead_owner.battlefield,
            1,
        );
        let _ = trigger_bridge_from_below(
            opponent.graveyard.as_slice(),
            &mut opponent.battlefield,
            1,
        );
        proof {
            lemma_tokens_in_two_rounds(old(dead_owner)@.battlefield, done as nat, 1, own);
            lemma_tokens_in_two_rounds(old(opponent)@.battlefield, done as nat, 1, other);
        }
        done += 1;
    }
}

// ---------------------------------------------------------------------------
// The attack
// ---------------------------------------------------------------------------

/// The log line of an unblocked attacker.
pub open spec fn strike_line(attacker: Text, damage: int, target: Text, life: int) -> Text {
    attacker + " attacked unblocked for "@ + signed_decimal(damage) + " damage ("@ + target
        + " life: "@ + signed_decimal(life) + ")."@
}

/// The damage of unblocked attackers, one after the other: the life that is left
/// and the log. `None` where the life leaves its range.
pub open spec fn struck(
    battlefield: Seq<Creature>,
    free: Seq<int>,
    target: Text,
    life: int,
) -> Option<(int, Seq<Text>)>
    decreases free.len(),
{
    if free.len() == 0 {
        Some((life, Seq::empty()))
    } else {
        let attacker = battlefield[free[0]];
        let left = life - attacker.power;
        if !is_life(left) {
            None
        } else {
            match struck(battlefield, free.drop_first(), target, left) {
                None => None,
                Some((last, log)) => Some(
                    (last, seq![strike_line(attacker.name, attacker.power, target, left)] + log),
                ),
            }
        }
    }
}

/// The log line of the creatures that fell.
pub open spec fn trade_line(attackers_lost: nat, blockers_lost: nat) -> Text {
    "Combat trades: attackers lost "@ + decimal(attackers_lost) + ", blockers lost "@ + decimal(
        blockers_lost,
    ) + "."@
}

/// An attack of the active player: every creature that may attack does, and every
/// creature of the defending player may block one of them. `None` where life
/// leaves its range.
pub open spec fn attacked(table: Table, yard: bool) -> Option<Step> {
    let ours = table.active.battlefield;
    let theirs = table.defending.battlefield;
    match struck(ours, unblocked(ours, theirs), table.defending.name, table.defending.life) {
        None => None,
        Some((life, strikes)) => {
            let lost_ours = casualties(ours, fallen_attackers(ours, theirs));
            let lost_theirs = casualties(theirs, fallen_blockers(ours, theirs));
            let deaths = lost_ours.len() + lost_theirs.len();
            let active = Player {
                battlefield: survivors(ours, fallen_attackers(ours, theirs)),
                ..table.active
            };
            let defending = Player {
                battlefield: survivors(theirs, fallen_blockers(ours, theirs)),
                life,
                ..table.defending
            };
            let trades = if deaths > 0 {
                seq![trade_line(lost_ours.len(), lost_theirs.len())]
            } else {
                Seq::empty()
            };
            let after = if yard {
                Table {
                    active: haunted(active, deaths),
                    defending: haunted(defending, deaths),
                    graveyard: table.graveyard + lost_ours + lost_theirs,
                }
            } else {
                Table {
                    active: Player { graveyard: active.graveyard + lost_ours, ..active },
                    defending: Player {
                        graveyard: defending.graveyard + lost_theirs,
                        ..defending
                    },
                    ..table
                }
            };
            Some(Step { table: after, log: strikes + trades })
        },
    }
}

fn strike_action(attacker: &str, damage: i32, target: &str, life: i32) -> (action: String)
    ensures
        action@ == strike_line(attacker@, damage as int, target@, life as int),
{
    let mut action = attacker.to_string();
    action.append(" attacked unblocked for ");
    append_signed(&mut action, damage);
    action.append(" damage (");
    action.append(target);
    action.append(" life: ");
    append_signed(&mut action, life);
    action.append(").");
    action
}

fn trade_action(attackers_lost: usize, blockers_lost: usize) -> (action: String)
    ensures
        action@ == trade_line(attackers_lost as nat, blockers_lost as nat),
{
    let mut action = "Combat trades: attackers lost ".to_string();
    append_decimal(&mut action, attackers_lost as u64);
    action.append(", blockers lost ");
    append_decimal(&mut action, blockers_lost as u64);
    action.append(".");
    action
}

/// The rest of the strikes with `first` logged before them.
spec fn strikes_logged(
    first: Seq<Text>,
    rest: Option<(int, Seq<Text>)>,
) -> Option<(int, Seq<Text>)> {
    match rest {
        None => None,
        Some((life, log)) => Some((life, first + log)),
    }
}

/// Lets the attackers after the first `blocked` ones hit the defending player.
fn strike_unblocked(
    active: &PlayerState,
    defending: &mut PlayerState,
    attack: &Vec<usize>,
    blocked: usize,
) -> (actions: Result<Vec<String>, OutOfRange>)
    requires
        positions(attack@) == attackers(active@.battlefield),
        blocked == blockers(old(defending)@.battlefield).len(),
        forall|p: int| 0 <= p < attack@.len() ==> #[trigger] attack@[p] < active.battlefield@.len(),
    ensures
        match struck(
            active@.battlefield,
            unblocked(active@.battlefield, old(defending)@.battlefield),
            old(defending)@.name,
            old(defending)@.life,
        ) {
            None => actions is Err,
            Some((life, log)) => {
                &&& actions is Ok
                &&& texts(actions->Ok_0@) == log
                &&& final(defending)@ == (Player { life, ..old(defending)@ })
            },
        },
{
    let ghost ours = active@.battlefield;
    let ghost free = unblocked(ours, defending@.battlefield);
    let ghost whole = struck(ours, free, defending@.name, defending@.life);
    let mut actions: Vec<String> = Vec::new();
    let mut p: usize = if blocked < attack.len() {
        blocked
    } else {
        attack.len()
    };
    proof {
        assert(texts(actions@) =~= Seq::<Text>::empty());
        if let Some((_, log)) = whole {
            assert(Seq::<Text>::empty() + log =~= log);
        }
        assert(positions(attack@).skip(p as int) =~= free);
    }
    while p < attack.len()
        invariant
            ours == active@.battlefield,
            free == unblocked(ours, old(defending)@.battlefield),
            whole == struck(ours, free, old(defending)@.name, old(defending)@.life),
            forall|p: int|
                0 <= p < attack@.len() ==> #[trigger] attack@[p] < active.battlefield@.len(),
            p <= attack@.len(),
            defending@ == (Player { life: defending@.life, ..old(defending)@ }),
            whole == strikes_logged(
                texts(actions@),
                struck(
                    ours,
                    positions(attack@).skip(p as int),
                    defending@.name,
                    defending@.life,
                ),
            ),
        decreases attack@.len() - p,
    {
        let ghost log = texts(actions@);
        let ghost rest = positions(attack@).skip(p as int);
        let attacker = &active.battlefield[attack[p]];
        proof {
            assert(rest[0] == attack@[p as int]);
            assert(ours[rest[0]] == attacker@);
            assert(rest.drop_first() =~= positions(attack@).skip(p + 1));
        }
        match defending.life.checked_sub(attacker.power) {
            Some(life) => {
                defending.life = life;
            },
            None => {
                return Err(OutOfRange);
            },
        }
        let action = strike_action(
            attacker.card_name.as_str(),
            attacker.power,
            defending.name.as_str(),
            defending.life,
        );
        let ghost line = action@;
        actions.push(action);
        proof {
            assert(texts(actions@) =~= log + seq![line]);
            if let Some((_, more)) = struck(
                ours,
                rest.drop_first(),
                defending@.name,
                defending@.life,
            ) {
                assert(log + (seq![line] + more) =~= texts(actions@) + more);
            }
        }
        p += 1;
    }
    proof {
        assert(positions(attack@).skip(p as int).len() == 0);
        assert(texts(actions@) + Seq::<Text>::empty() =~= texts(actions@));
    }
    Ok(actions)
}

/// Lets the active player attack.
pub fn attack_step(
    active: &mut PlayerState,
    defending: &mut PlayerState,
) -> (actions: Result<Vec<String>, OutOfRange>)
    ensures
        is_step(
            actions,
            Table { active: final(active)@, defending: final(defending)@, graveyard: Seq::empty() },
            attacked(
                Table { active: old(active)@, defending: old(defending)@, graveyard: Seq::empty() },
                false,
            ),
        ),
{
    let attack = rank_attackers(&active.battlefield);
    let block = rank_blockers(&defending.battlefield);
    let fallen = clash(&active.battlefield, &defending.battlefield, &attack, &block);
    let mut actions = match strike_unblocked(active, defending, &attack, block.len()) {
        Ok(lines) => lines,
        Err(error) => {
            return Err(error);
        },
    };
    let attacker_deaths = remove_dead_creatures(
        &mut active.battlefield,
        &mut active.graveyard,
        &fallen.0,
    );
    let blocker_deaths = remove_dead_creatures(
        &mut defending.battlefield,
        &mut defending.graveyard,
        &fallen.1,
    );
    let ghost log = texts(actions@);
    if attacker_deaths > 0 || blocker_deaths > 0 {
        let action = trade_action(attacker_deaths, blocker_deaths);
        actions.push(action);
        assert(texts(actions@) =~= log + seq![action@]);
    } else {
        assert(log + Seq::<Text>::empty() =~= log);
    }
    Ok(actions)
}

/// Lets the active player attack in the yard format.
pub fn attack_step_yard(
    active: &mut PlayerState,
    defending: &mut PlayerState,
    shared_graveyard: &mut Vec<DeckCard>,
) -> (actions: Result<Vec<String>, OutOfRange>)
    ensures
        is_step(
            actions,
            Table {
                active: final(active)@,
                defending: final(defending)@,
                graveyard: card_names(final(shared_graveyard)@),
            },
            attacked(
                Table {
                    active: old(active)@,
                    defending: old(defending)@,
                    graveyard: card_names(old(shared_graveyard)@),
                },
                true,
            ),
        ),
{
    let ghost ours = active@.battlefield;
    let ghost theirs = defending@.battlefield;
    let attack = rank_attackers(&active.battlefield);
    let block = rank_blockers(&defending.battlefield);
    let fallen = clash(&active.battlefield, &defending.battlefield, &attack, &block);
    let mut actions = match strike_unblocked(active, defending, &attack, block.len()) {
        Ok(lines) => lines,
        Err(error) => {
            return Err(error);
        },
    };
    let attacker_deaths = remove_dead_creatures_yard(
        &mut active.battlefield,
        shared_graveyard,
        &fallen.0,
    );
    let blocker_deaths = remove_dead_creatures_yard(
        &mut defending.battlefield,
        shared_graveyard,
        &fallen.1,
    );
    apply_bridge_triggers(attacker_deaths, active, defending);
    apply_bridge_triggers(blocker_deaths, defending, active);
    proof {
        lemma_tokens_in_two_rounds(
            survivors(ours, fallen_attackers(ours, theirs)),
            attacker_deaths as nat,
            blocker_deaths as nat,
            bridges(active@.graveyard),
        );
        lemma_tokens_in_two_rounds(
            survivors(theirs, fallen_blockers(ours, theirs)),
            attacker_deaths as nat,
            blocker_deaths as nat,
            bridges(defending@.graveyard),
        );
    }
    let ghost log = texts(actions@);
    if attacker_deaths > 0 || blocker_deaths > 0 {
        let action = trade_action(attacker_deaths, blocker_deaths);
        actions.push(action);
        assert(texts(actions@) =~= log + seq![action@]);
    } else {
        assert(log + Seq::<Text>::empty() =~= log);
    }
    Ok(actions)
}

} // verus!
