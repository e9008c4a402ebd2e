//! What holds of every attack.

use crate::combat::{
    attack_keys, attacked, attackers, block_keys, blockers, bridges, casualties, dead_flags,
    fallen_attackers, fallen_blockers, haunted, lemma_dead_or_alive, struck, survivors,
    trade_line, unblocked, with_zombies,
};
use crate::laws::lemma_unblocked_attackers;
use crate::players::{is_life, Creature, Player, Table};
use crate::ranking::{goes_before, is_ranking, lemma_is_ranking, lemma_ranking};
use crate::text::{decimal, lowercase, signed_decimal, Text};
use vstd::prelude::*;

verus! {

// ---------------------------------------------------------------------------
// Who fights whom
// ---------------------------------------------------------------------------

/// Every creature that did not come into play this turn attacks, and no other does; the
/// attackers are ranked by power, and those of equal power from left to right.
pub proof fn lemma_attack_order(battlefield: Seq<Creature>)
    ensures
        forall|p: int|
            0 <= p < attackers(battlefield).len() ==> 0 <= #[trigger] attackers(battlefield)[p]
                < battlefield.len() && !battlefield[attackers(battlefield)[p]].sick,
        forall|i: int|
            0 <= i < battlefield.len() && !(#[trigger] battlefield[i]).sick ==> attackers(
                battlefield,
            ).contains(i),
        forall|p: int, q: int|
            0 <= p < q < attackers(battlefield).len() ==> {
                let a = #[trigger] attackers(battlefield)[p];
                let b = #[trigger] attackers(battlefield)[q];
                battlefield[a].power > battlefield[b].power || (battlefield[a].power
                    == battlefield[b].power && a < b)
            },
{
    let keys = attack_keys(battlefield);
    let order = attackers(battlefield);
    lemma_ranking(keys);
    assert forall|p: int| 0 <= p < order.len() implies 0 <= #[trigger] order[p] < battlefield.len()
        && !battlefield[order[p]].sick by {
        assert(keys[order[p]] is Some);
    }
    assert forall|i: int|
        0 <= i < battlefield.len() && !(#[trigger] battlefield[i]).sick implies order.contains(
        i,
    ) by {
        assert(keys[i] is Some);
    }
    assert forall|p: int, q: int| 0 <= p < q < order.len() implies {
        let a = #[trigger] order[p];
        let b = #[trigger] order[q];
        battlefield[a].power > battlefield[b].power || (battlefield[a].power
            == battlefield[b].power && a < b)
    } by {
        assert(goes_before(keys, order[p], order[q]));
        assert(keys[order[p]] is Some && keys[order[q]] is Some);
    }
}

/// Every creature may block; the blockers are ranked by toughness, and those of equal
/// toughness from left to right.
pub proof fn lemma_block_order(battlefield: Seq<Creature>)
    ensures
        blockers(battlefield).len() == battlefield.len(),
        forall|p: int|
            0 <= p < blockers(battlefield).len() ==> 0 <= #[trigger] blockers(battlefield)[p]
                < battlefield.len(),
        forall|i: int| 0 <= i < battlefield.len() ==> #[trigger] blockers(battlefield).contains(i),
        forall|p: int, q: int|
            0 <= p < q < blockers(battlefield).len() ==> {
                let a = #[trigger] blockers(battlefield)[p];
                let b = #[trigger] blockers(battlefield)[q];
                battlefield[a].toughness > battlefield[b].toughness || (battlefield[a].toughness
                    == battlefield[b].toughness && a < b)
            },
{
    let keys = block_keys(battlefield);
    let order = blockers(battlefield);
    lemma_ranking(keys);
    lemma_unblocked_attackers(Seq::empty(), battlefield);
    assert forall|i: int| 0 <= i < battlefield.len() implies #[trigger] order.contains(i) by {
        assert(keys[i] is Some);
    }
    assert forall|p: int, q: int| 0 <= p < q < order.len() implies {
        let a = #[trigger] order[p];
        let b = #[trigger] order[q];
        battlefield[a].toughness > battlefield[b].toughness || (battlefield[a].toughness
            == battlefield[b].toughness && a < b)
    } by {
        assert(goes_before(keys, order[p], order[q]));
        assert(keys[order[p]] is Some && keys[order[q]] is Some);
    }
}

/// Which creatures of a battlefield survive is settled creature by creature, and the
/// survivors stay in their order.
pub proof fn lemma_survivors_side_by_side(
    left: Seq<Creature>,
    right: Seq<Creature>,
    dead_left: Seq<bool>,
    dead_right: Seq<bool>,
)
    requires
        left.len() == dead_left.len(),
        right.len() == dead_right.len(),
    ensures
        survivors(left + right, dead_left + dead_right) == survivors(left, dead_left) + survivors(
            right,
            dead_right,
        ),
        casualties(left + right, dead_left + dead_right) == casualties(left, dead_left)
            + casualties(right, dead_right),
    decreases right.len(),
{
    let all = left + right;
    let dead = dead_left + dead_right;
    if right.len() == 0 {
        assert(all =~= left);
        assert(dead =~= dead_left);
        assert(survivors(left, dead_left) + Seq::<Creature>::empty() =~= survivors(
            left,
            dead_left,
        ));
        assert(casualties(left, dead_left) + Seq::<Text>::empty() =~= casualties(left, dead_left));
    } else {
        let front = right.drop_last();
        assert(all.drop_last() =~= left + front);
        lemma_survivors_side_by_side(left, front, dead_left, dead_right.drop_last());
        lemma_flags_beyond(left + front, dead_left + dead_right.drop_last(), dead);
        lemma_flags_beyond(front, dead_right.drop_last(), dead_right);
        assert(dead[all.len() - 1] == dead_right[right.len() - 1]);
        assert(all.last() == right.last());
        assert(survivors(all, dead) =~= survivors(left, dead_left) + survivors(right, dead_right));
        assert(casualties(all, dead) =~= casualties(left, dead_left) + casualties(
            right,
            dead_right,
        ));
    }
}

/// Flags beyond the end of a battlefield do not count.
proof fn lemma_flags_beyond(battlefield: Seq<Creature>, dead: Seq<bool>, more: Seq<bool>)
    requires
        battlefield.len() <= dead.len(),
        dead.len() <= more.len(),
        forall|i: int| 0 <= i < dead.len() ==> #[trigger] dead[i] == more[i],
    ensures
        survivors(battlefield, dead) == survivors(battlefield, more),
        casualties(battlefield, dead) == casualties(battlefield, more),
    decreases battlefield.len(),
{
    if battlefield.len() > 0 {
        lemma_flags_beyond(battlefield.drop_last(), dead, more);
        assert(dead[battlefield.len() - 1] == more[battlefield.len() - 1]);
    }
}

/// A creature alone on its battlefield survives unless it is dead.
pub proof fn lemma_lone_survivor(creature: Creature, dead: bool)
    ensures
        survivors(seq![creature], seq![dead]) == if dead {
            Seq::<Creature>::empty()
        } else {
            seq![creature]
        },
        casualties(seq![creature], seq![dead]) == if dead {
            seq![creature.name]
        } else {
            Seq::<Text>::empty()
        },
{
    reveal_with_fuel(survivors, 2);
    reveal_with_fuel(casualties, 2);
    assert(seq![creature].drop_last() =~= Seq::<Creature>::empty());
    assert(Seq::<Creature>::empty().push(creature) =~= seq![creature]);
    assert(Seq::<Text>::empty().push(creature.name) =~= seq![creature.name]);
}

/// An attacker falls exactly where it has a blocker of its own rank whose power is at
/// least its toughness, and a blocker exactly where it has an attacker of its own rank
/// whose power is at least its toughness. The fallen leave the battlefield for their
/// owner's graveyard.
pub proof fn lemma_who_falls(table: Table)
    ensures
        attacked(table, false) matches Some(step) ==> {
            let ours = table.active.battlefield;
            let theirs = table.defending.battlefield;
            let attack = attackers(ours);
            let block = blockers(theirs);
            let dead_ours = Seq::new(
                ours.len(),
                |i: int|
                    exists|k: int|
                        0 <= k < attack.len() && k < block.len() && #[trigger] attack[k] == i
                            && theirs[block[k]].power >= ours[i].toughness,
            );
            let dead_theirs = Seq::new(
                theirs.len(),
                |j: int|
                    exists|k: int|
                        0 <= k < block.len() && k < attack.len() && #[trigger] block[k] == j
                            && ours[attack[k]].power >= theirs[j].toughness,
            );
            &&& step.table.active == (Player {
                battlefield: survivors(ours, dead_ours),
                graveyard: table.active.graveyard + casualties(ours, dead_ours),
                ..table.active
            })
            &&& step.table.defending == (Player {
                life: step.table.defending.life,
                battlefield: survivors(theirs, dead_theirs),
                graveyard: table.defending.graveyard + casualties(theirs, dead_theirs),
                ..table.defending
            })
            &&& step.table.graveyard == table.graveyard
        },
{
    let ours = table.active.battlefield;
    let theirs = table.defending.battlefield;
    let attack = attackers(ours);
    let block = blockers(theirs);
    let dead_ours = Seq::new(
        ours.len(),
        |i: int|
            exists|k: int|
                0 <= k < attack.len() && k < block.len() && #[trigger] attack[k] == i
                    && theirs[block[k]].power >= ours[i].toughness,
    );
    let dead_theirs = Seq::new(
        theirs.len(),
        |j: int|
            exists|k: int|
                0 <= k < block.len() && k < attack.len() && #[trigger] block[k] == j
                    && ours[attack[k]].power >= theirs[j].toughness,
    );
    assert(dead_ours =~= fallen_attackers(ours, theirs));
    assert(dead_theirs =~= fallen_blockers(ours, theirs));
}

/// When one creature attacks another, the attacker is gone afterwards exactly if the
/// blocker's power is at least its toughness, and the blocker exactly if the attacker's
/// power is at least its toughness. Nobody loses life.
pub proof fn lemma_duel(table: Table, c: Creature, d: Creature)
    requires
        table.active.battlefield == seq![c],
        table.defending.battlefield == seq![d],
        !c.sick,
    ensures
        attacked(table, false) matches Some(step) && {
            let none = Seq::<Text>::empty();
            let c_falls = d.power >= c.toughness;
            let d_falls = c.power >= d.toughness;
            &&& step.table.active.battlefield == if c_falls {
                Seq::<Creature>::empty()
            } else {
                seq![c]
            }
            &&& step.table.defending.battlefield == if d_falls {
                Seq::<Creature>::empty()
            } else {
                seq![d]
            }
            &&& step.table.active.graveyard == table.active.graveyard + if c_falls {
                seq![c.name]
            } else {
                none
            }
            &&& step.table.defending.graveyard == table.defending.graveyard + if d_falls {
                seq![d.name]
            } else {
                none
            }
            &&& step.table.active.life == table.active.life
            &&& step.table.defending.life == table.defending.life
            &&& step.log == if c_falls || d_falls {
                seq![
                    "Combat trades: attackers lost "@ + (if c_falls {
                        decimal(1)
                    } else {
                        decimal(0)
                    }) + ", blockers lost "@ + (if d_falls {
                        decimal(1)
                    } else {
                        decimal(0)
                    }) + "."@,
                ]
            } else {
                none
            }
        },
{
    let ours = table.active.battlefield;
    let theirs = table.defending.battlefield;
    lemma_lone_attacker(c);
    lemma_lone_blocker(d);
    let attack = attackers(ours);
    let block = blockers(theirs);
    assert(attack == seq![0int]);
    assert(block == seq![0int]);
    assert(unblocked(ours, theirs) =~= Seq::<int>::empty());
    let fa = fallen_attackers(ours, theirs);
    let fb = fallen_blockers(ours, theirs);
    assert(attack[0] == 0 && block[0] == 0);
    assert(fa =~= seq![d.power >= c.toughness]);
    assert(fb =~= seq![c.power >= d.toughness]);
    lemma_lone_survivor(c, d.power >= c.toughness);
    lemma_lone_survivor(d, c.power >= d.toughness);
    assert(struck(ours, Seq::empty(), table.defending.name, table.defending.life) == Some(
        (table.defending.life, Seq::<Text>::empty()),
    ));
    let step = attacked(table, false)->0;
    let a = casualties(ours, fa).len();
    let b = casualties(theirs, fb).len();
    if a + b > 0 {
        assert(step.log =~= seq![trade_line(a, b)]);
    } else {
        assert(step.log =~= Seq::<Text>::empty());
    }
}

/// A creature alone on its battlefield attacks unless it came into play this turn.
pub proof fn lemma_lone_attacker(c: Creature)
    ensures
        attackers(seq![c]) == if c.sick {
            Seq::<int>::empty()
        } else {
            seq![0int]
        },
{
    let keys = attack_keys(seq![c]);
    if c.sick {
        assert(is_ranking(Seq::<int>::empty(), keys));
        lemma_is_ranking(Seq::empty(), keys);
    } else {
        assert(seq![0int][0] == 0);
        assert(is_ranking(seq![0int], keys));
        lemma_is_ranking(seq![0int], keys);
    }
}

/// A creature alone on its battlefield blocks.
pub proof fn lemma_lone_blocker(d: Creature)
    ensures
        blockers(seq![d]) == seq![0int],
{
    let keys = block_keys(seq![d]);
    assert(seq![0int][0] == 0);
    assert(is_ranking(seq![0int], keys));
    lemma_is_ranking(seq![0int], keys);
}

/// A creature that came into play this turn, alone on its battlefield, does not attack:
/// nothing happens.
pub proof fn lemma_sick_creature_stays_home(table: Table, c: Creature, yard: bool)
    requires
        table.active.battlefield == seq![c],
        c.sick,
    ensures
        attacked(table, yard) matches Some(step) && step.table.active.battlefield
            == table.active.battlefield && step.table.defending.battlefield
            == table.defending.battlefield && step.table.defending.life == table.defending.life
            && step.table.graveyard == table.graveyard && step.log.len() == 0,
{
    lemma_lone_attacker(c);
    let ours = table.active.battlefield;
    let theirs = table.defending.battlefield;
    assert(attackers(ours).len() == 0);
    assert(unblocked(ours, theirs) =~= Seq::<int>::empty());
    let fa = fallen_attackers(ours, theirs);
    let fb = fallen_blockers(ours, theirs);
    assert(forall|i: int| 0 <= i < fa.len() ==> !#[trigger] fa[i]);
    assert(forall|i: int| 0 <= i < fb.len() ==> !#[trigger] fb[i]);
    lemma_nobody_dead(ours, fa);
    lemma_nobody_dead(theirs, fb);
    let step = attacked(table, yard)->0;
    let no_one = casualties(ours, fa).len() + casualties(theirs, fb).len();
    assert(no_one * bridges(table.active.graveyard) == 0) by (nonlinear_arith)
        requires
            no_one == 0,
    ;
    assert(no_one * bridges(table.defending.graveyard) == 0) by (nonlinear_arith)
        requires
            no_one == 0,
    ;
    assert(step.log =~= Seq::<Text>::empty());
    assert(step.table.active.battlefield =~= ours);
    assert(step.table.defending.battlefield =~= theirs);
    assert(step.table.graveyard =~= table.graveyard);
}

proof fn lemma_nobody_dead(battlefield: Seq<Creature>, dead: Seq<bool>)
    requires
        battlefield.len() <= dead.len(),
        forall|i: int| 0 <= i < battlefield.len() ==> !#[trigger] dead[i],
    ensures
        survivors(battlefield, dead) == battlefield,
        casualties(battlefield, dead).len() == 0,
    decreases battlefield.len(),
{
    if battlefield.len() > 0 {
        lemma_nobody_dead(battlefield.drop_last(), dead);
        assert(battlefield.drop_last().push(battlefield.last()) =~= battlefield);
    }
}

/// A creature that attacks a player without creatures costs them its power in life, and
/// comes to no harm.
pub proof fn lemma_lone_attack_hits(table: Table, c: Creature, yard: bool)
    requires
        table.active.battlefield == seq![c],
        table.defending.battlefield.len() == 0,
        !c.sick,
    ensures
        attacked(table, yard) is Some <==> i32::MIN <= table.defending.life - c.power <= i32::MAX,
        attacked(table, yard) matches Some(step) ==> {
            &&& step.table.defending.life == table.defending.life - c.power
            &&& step.table.active.battlefield == table.active.battlefield
            &&& step.table.active.life == table.active.life
            &&& step.log == seq![
                c.name + " attacked unblocked for "@ + signed_decimal(c.power) + " damage ("@
                    + table.defending.name + " life: "@ + signed_decimal(
                    table.defending.life - c.power,
                ) + ")."@,
            ]
        },
{
    let ours = table.active.battlefield;
    let theirs = table.defending.battlefield;
    lemma_lone_attacker(c);
    lemma_block_order(theirs);
    let free = unblocked(ours, theirs);
    assert(free =~= seq![0int]);
    assert(free.drop_first() =~= Seq::<int>::empty());
    reveal_with_fuel(struck, 2);
    let fa = fallen_attackers(ours, theirs);
    let fb = fallen_blockers(ours, theirs);
    assert(forall|i: int| 0 <= i < fa.len() ==> !#[trigger] fa[i]);
    lemma_nobody_dead(ours, fa);
    lemma_nobody_dead(theirs, fb);
    let no_one = casualties(ours, fa).len() + casualties(theirs, fb).len();
    assert(no_one * bridges(table.active.graveyard) == 0) by (nonlinear_arith)
        requires
            no_one == 0,
    ;
    if let Some(step) = attacked(table, yard) {
        assert(step.log =~= seq![
            c.name + " attacked unblocked for "@ + signed_decimal(c.power) + " damage ("@
                + table.defending.name + " life: "@ + signed_decimal(
                table.defending.life - c.power,
            ) + ")."@,
        ]);
        assert(step.table.active.battlefield =~= ours);
    }
}

/// The attackers get through that have no blocker of their rank, and each costs the
/// defending player its power in life.
pub proof fn lemma_damage_is_the_power_that_gets_through(table: Table, yard: bool)
    ensures
        attacked(table, yard) matches Some(step) ==> {
            let ours = table.active.battlefield;
            let theirs = table.defending.battlefield;
            let attack = attackers(ours);
            let hits = if attack.len() > theirs.len() {
                attack.skip(theirs.len() as int)
            } else {
                Seq::empty()
            };
            step.table.defending.life == table.defending.life - hits.map_values(
                |i: int| ours[i].power,
            ).fold_left(0, |sum: int, power: int| sum + power)
        },
{
    let ours = table.active.battlefield;
    let theirs = table.defending.battlefield;
    lemma_block_order(theirs);
    lemma_sum_of_strikes(
        ours,
        unblocked(ours, theirs),
        table.defending.name,
        table.defending.life,
    );
}

proof fn lemma_sum_of_strikes(ours: Seq<Creature>, free: Seq<int>, target: Text, life: int)
    ensures
        struck(ours, free, target, life) matches Some((left, _)) ==> left == life
            - free.map_values(|i: int| ours[i].power).fold_left(
            0,
            |sum: int, power: int| sum + power,
        ),
    decreases free.len(),
{
    if free.len() > 0 {
        let add = |sum: int, power: int| sum + power;
        let powers = free.map_values(|i: int| ours[i].power);
        let rest = free.drop_first().map_values(|i: int| ours[i].power);
        lemma_sum_of_strikes(ours, free.drop_first(), target, life - ours[free[0]].power);
        assert(powers.drop_first() =~= rest);
        lemma_sum_splits(powers);
    }
}

proof fn lemma_sum_splits(row: Seq<int>)
    requires
        row.len() > 0,
    ensures
        row.fold_left(0, |sum: int, n: int| sum + n) == row[0] + row.drop_first().fold_left(
            0,
            |sum: int, n: int| sum + n,
        ),
    decreases row.len(),
{
    let add = |sum: int, n: int| sum + n;
    reveal_with_fuel(Seq::fold_left, 2);
    if row.len() > 1 {
        lemma_sum_splits(row.drop_last());
        assert(row.drop_last().drop_first() =~= row.drop_first().drop_last());
        assert(row.drop_first().last() == row.last());
    } else {
        assert(row.drop_first() =~= Seq::<int>::empty());
        assert(row.drop_last() =~= Seq::<int>::empty());
    }
}

/// An attack can be made exactly if the defending player's life stays an `i32` hit by hit.
/// Each hit is logged with the life that it leaves.
pub proof fn lemma_hits_are_logged(table: Table, hits: Seq<int>)
    requires
        hits == if attackers(table.active.battlefield).len()
            > table.defending.battlefield.len() {
            attackers(table.active.battlefield).skip(table.defending.battlefield.len() as int)
        } else {
            Seq::empty()
        },
    ensures
        attacked(table, false) is Some <==> forall|n: int|
            0 < n <= hits.len() ==> i32::MIN <= table.defending.life - (#[trigger] hits.take(
                n,
            )).map_values(|i: int| table.active.battlefield[i].power).fold_left(
                0,
                |sum: int, power: int| sum + power,
            ) <= i32::MAX,
        attacked(table, false) matches Some(step) ==> {
            &&& step.log.len() >= hits.len()
            &&& forall|p: int|
                0 <= p < hits.len() ==> #[trigger] step.log[p]
                    == table.active.battlefield[hits[p]].name + " attacked unblocked for "@
                    + signed_decimal(table.active.battlefield[hits[p]].power) + " damage ("@
                    + table.defending.name + " life: "@ + signed_decimal(
                    table.defending.life - hits.take(p + 1).map_values(
                        |i: int| table.active.battlefield[i].power,
                    ).fold_left(0, |sum: int, power: int| sum + power),
                ) + ")."@
        },
{
    let ours = table.active.battlefield;
    let theirs = table.defending.battlefield;
    lemma_block_order(theirs);
    assert(unblocked(ours, theirs) == hits);
    lemma_hits(ours, hits, table.defending.name, table.defending.life);
}

/// After the hits the log says how many creatures each side lost, if any died, and
/// nothing else.
pub proof fn lemma_trades_are_logged(table: Table, hits: Seq<int>)
    requires
        hits == if attackers(table.active.battlefield).len()
            > table.defending.battlefield.len() {
            attackers(table.active.battlefield).skip(table.defending.battlefield.len() as int)
        } else {
            Seq::empty()
        },
    ensures
        attacked(table, false) matches Some(step) ==> {
            let lost = step.table.active.graveyard.len() - table.active.graveyard.len();
            let killed = step.table.defending.graveyard.len() - table.defending.graveyard.len();
            &&& lost + killed == 0 ==> step.log.len() == hits.len()
            &&& lost + killed > 0 ==> step.log.len() == hits.len() + 1 && step.log.last()
                == "Combat trades: attackers lost "@ + decimal(lost as nat) + ", blockers lost "@
                + decimal(killed as nat) + "."@
        },
{
    let ours = table.active.battlefield;
    let theirs = table.defending.battlefield;
    lemma_block_order(theirs);
    assert(unblocked(ours, theirs) == hits);
    lemma_hits(ours, hits, table.defending.name, table.defending.life);
}

proof fn lemma_hits(ours: Seq<Creature>, free: Seq<int>, target: Text, life: int)
    ensures
        struck(ours, free, target, life) is Some <==> forall|n: int|
            0 < n <= free.len() ==> is_life(
                life - (#[trigger] free.take(n)).map_values(|i: int| ours[i].power).fold_left(
                    0,
                    |sum: int, power: int| sum + power,
                ),
            ),
        struck(ours, free, target, life) matches Some((_, log)) ==> {
            &&& log.len() == free.len()
            &&& forall|p: int|
                0 <= p < free.len() ==> #[trigger] log[p] == ours[free[p]].name
                    + " attacked unblocked for "@ + signed_decimal(ours[free[p]].power)
                    + " damage ("@ + target + " life: "@ + signed_decimal(
                    life - free.take(p + 1).map_values(|i: int| ours[i].power).fold_left(
                        0,
                        |sum: int, power: int| sum + power,
                    ),
                ) + ")."@
        },
    decreases free.len(),
{
    if free.len() > 0 {
        let add = |sum: int, power: int| sum + power;
        let power = |i: int| ours[i].power;
        let rest = free.drop_first();
        let next = life - ours[free[0]].power;
        lemma_hits(ours, rest, target, next);
        assert forall|n: int| 0 < n <= free.len() implies life - (#[trigger] free.take(
            n,
        )).map_values(|i: int| ours[i].power).fold_left(0, |sum: int, power: int| sum + power)
            == next - rest.take(n - 1).map_values(|i: int| ours[i].power).fold_left(
            0,
            |sum: int, power: int| sum + power,
        ) by {
            let part = free.take(n).map_values(|i: int| ours[i].power);
            assert(part.drop_first() =~= rest.take(n - 1).map_values(|i: int| ours[i].power));
            lemma_sum_splits(part);
        }
        assert(rest.take(0).map_values(|i: int| ours[i].power).fold_left(
            0,
            |sum: int, power: int| sum + power,
        ) == 0) by {
            assert(rest.take(0) =~= Seq::<int>::empty());
        }
        assert(free.take(1).len() == 1);
        if struck(ours, free, target, life) is Some {
            assert forall|n: int| 0 < n <= free.len() implies is_life(
                life - (#[trigger] free.take(n)).map_values(|i: int| ours[i].power).fold_left(
                    0,
                    |sum: int, power: int| sum + power,
                ),
            ) by {
                if n > 1 {
                    assert(rest.take(n - 1).len() == n - 1);
                }
            }
        } else if is_life(next) {
            let m = choose|m: int|
                0 < m <= rest.len() && !is_life(
                    next - (#[trigger] rest.take(m)).map_values(|i: int| ours[i].power).fold_left(
                        0,
                        |sum: int, power: int| sum + power,
                    ),
                );
            assert(free.take(m + 1).len() == m + 1);
        }
        if let Some((_, log)) = struck(ours, free, target, life) {
            let later = match struck(ours, rest, target, next) {
                Some((_, lines)) => lines,
                None => Seq::empty(),
            };
            assert forall|p: int| 0 <= p < free.len() implies #[trigger] log[p]
                == ours[free[p]].name + " attacked unblocked for "@ + signed_decimal(
                ours[free[p]].power,
            ) + " damage ("@ + target + " life: "@ + signed_decimal(
                life - free.take(p + 1).map_values(|i: int| ours[i].power).fold_left(
                    0,
                    |sum: int, power: int| sum + power,
                ),
            ) + ")."@ by {
                assert(free.take(p + 1).len() == p + 1);
                if p > 0 {
                    assert(log[p] == later[p - 1]);
                    assert(rest[p - 1] == free[p]);
                }
            }
        }
    }
}

// ---------------------------------------------------------------------------
// The yard
// ---------------------------------------------------------------------------

/// The bridges of a graveyard are its cards of that name, in whatever case.
pub proof fn lemma_bridges_are_counted(graveyard: Seq<Text>)
    ensures
        bridges(graveyard) == graveyard.filter(
            |card: Text| lowercase(card) == "bridge from below"@,
        ).len(),
    decreases graveyard.len(),
{
    let is_one = |card: Text| lowercase(card) == "bridge from below"@;
    reveal(Seq::filter);
    if graveyard.len() > 0 {
        lemma_bridges_are_counted(graveyard.drop_last());
    }
}

/// Deaths bring a player a zombie for each pair of a death and a Bridge from Below in their
/// graveyard, behind the creatures that they have, and change nothing else.
pub proof fn lemma_deaths_bring_zombies(player: Player, deaths: nat)
    ensures
        haunted(player, deaths) == (Player {
            battlefield: player.battlefield + Seq::new(
                deaths * player.graveyard.filter(
                    |card: Text| lowercase(card) == "bridge from below"@,
                ).len(),
                |i: int|
                    Creature { name: "Zombie Token"@, power: 2, toughness: 2, sick: true },
            ),
            ..player
        }),
        with_zombies(player.battlefield, deaths) == player.battlefield + Seq::new(
            deaths,
            |i: int| Creature { name: "Zombie Token"@, power: 2, toughness: 2, sick: true },
        ),
{
    lemma_bridges_are_counted(player.graveyard);
    let n = deaths * bridges(player.graveyard);
    assert(haunted(player, deaths).battlefield =~= player.battlefield + Seq::new(
        n,
        |i: int| Creature { name: "Zombie Token"@, power: 2, toughness: 2, sick: true },
    ));
}

/// A position is dead exactly if it is in the set.
pub proof fn lemma_dead_positions(dead: Set<usize>, n: nat)
    requires
        n <= usize::MAX,
    ensures
        dead_flags(dead, n).len() == n,
        forall|i: usize| i < n ==> #[trigger] dead_flags(dead, n)[i as int] == dead.contains(i),
{
}

/// An attack in the yard format goes like any other, but for the dead: those of the
/// active player and then those of the other go to the shared graveyard, and each player
/// gets a zombie for every pair of a Bridge from Below in their own graveyard and a
/// creature of either side that died.
pub proof fn lemma_plain_and_yard(table: Table)
    ensures
        attacked(table, true) is Some == attacked(table, false) is Some,
        attacked(table, true) matches Some(yard) ==> {
            let plain = attacked(table, false)->0;
            let zombie = Creature { name: "Zombie Token"@, power: 2, toughness: 2, sick: true };
            let old_active = table.active.graveyard;
            let old_defending = table.defending.graveyard;
            let is_bridge = |card: Text| lowercase(card) == "bridge from below"@;
            let dead = (yard.table.graveyard.len() - table.graveyard.len()) as nat;
            &&& yard.log == plain.log
            &&& yard.table.graveyard == table.graveyard + plain.table.active.graveyard.skip(
                old_active.len() as int,
            ) + plain.table.defending.graveyard.skip(old_defending.len() as int)
            &&& yard.table.active == (Player {
                battlefield: plain.table.active.battlefield + Seq::new(
                    dead * old_active.filter(is_bridge).len(),
                    |i: int| zombie,
                ),
                graveyard: old_active,
                ..plain.table.active
            })
            &&& yard.table.defending == (Player {
                battlefield: plain.table.defending.battlefield + Seq::new(
                    dead * old_defending.filter(is_bridge).len(),
                    |i: int| zombie,
                ),
                graveyard: old_defending,
                ..plain.table.defending
            })
        },
{
    let ours = table.active.battlefield;
    let theirs = table.defending.battlefield;
    lemma_bridges_are_counted(table.active.graveyard);
    lemma_bridges_are_counted(table.defending.graveyard);
    if let Some(yard) = attacked(table, true) {
        let plain = attacked(table, false)->0;
        let lost_ours = casualties(ours, fallen_attackers(ours, theirs));
        let lost_theirs = casualties(theirs, fallen_blockers(ours, theirs));
        assert(plain.table.active.graveyard.skip(table.active.graveyard.len() as int)
            =~= lost_ours);
        assert(plain.table.defending.graveyard.skip(table.defending.graveyard.len() as int)
            =~= lost_theirs);
        let zombie = Creature { name: "Zombie Token"@, power: 2, toughness: 2, sick: true };
        let n = lost_ours.len() + lost_theirs.len();
        assert(yard.table.active.battlefield =~= plain.table.active.battlefield + Seq::new(
            n * bridges(table.active.graveyard),
            |i: int| zombie,
        ));
        assert(yard.table.defending.battlefield =~= plain.table.defending.battlefield + Seq::new(
            n * bridges(table.defending.graveyard),
            |i: int| zombie,
        ));
    }
}

/// In the yard format an attack leaves a player with as many creatures as before, less
/// their own dead, plus one for every pair of a Bridge from Below in their graveyard and
/// a creature of either side that died.
pub proof fn lemma_yard_head_count(table: Table)
    ensures
        attacked(table, true) matches Some(yard) ==> {
            let plain = attacked(table, false)->0;
            let is_bridge = |card: Text| lowercase(card) == "bridge from below"@;
            let own_dead = plain.table.active.graveyard.len() - table.active.graveyard.len();
            let their_dead = plain.table.defending.graveyard.len()
                - table.defending.graveyard.len();
            &&& yard.table.graveyard.len() == table.graveyard.len() + own_dead + their_dead
            &&& yard.table.active.battlefield.len() == table.active.battlefield.len() - own_dead + (
            own_dead + their_dead) * table.active.graveyard.filter(is_bridge).len()
            &&& yard.table.defending.battlefield.len() == table.defending.battlefield.len()
                - their_dead + (own_dead + their_dead) * table.defending.graveyard.filter(
                is_bridge,
            ).len()
        },
{
    let ours = table.active.battlefield;
    let theirs = table.defending.battlefield;
    lemma_plain_and_yard(table);
    lemma_dead_or_alive(ours, fallen_attackers(ours, theirs));
    lemma_dead_or_alive(theirs, fallen_blockers(ours, theirs));
}

} // verus!
