use std::collections::VecDeque;

use submarine::dice::Dice;
use submarine::entity::{EType, Entity, EntityColl, Intent};
use submarine::grid::{HEIGHT, WIDTH};
use submarine::outcome::ResolveError;
use submarine::resolver::{move_enemies, TickOutcome};

fn coll(items: Vec<Entity>) -> EntityColl {
    items.into_iter().collect::<VecDeque<Entity>>()
}

fn tick(items: Vec<Entity>, dice: &mut Dice) -> TickOutcome {
    move_enemies(coll(items), WIDTH, HEIGHT, dice).expect("only ships and monsters move")
}

fn find(out: &TickOutcome, x: usize, y: usize) -> Option<Entity> {
    out.entities.iter().find(|e| e.pos.x == x && e.pos.y == y).copied()
}

#[test]
fn wall_bounce() {
    let mut dice = Dice::scripted(vec![3]);
    let out = tick(vec![Entity::mover(19, 10, EType::Ship, 1, 0)], &mut dice);
    assert_eq!(out.entities.len(), 1);
    let ship = out.entities[0];
    assert_eq!((ship.pos.x, ship.pos.y), (19, 10));
    assert_eq!(ship.etype, EType::Ship);
    assert_eq!(ship.intent, Some(Intent { dx: -1, dy: 0 }));
    assert!(!out.stalemate);
    assert_eq!(out.passes, 1);
    assert_eq!(out.destroyed, 0);
    assert!(!out.game_over);
}

#[test]
fn wall_bounce_takes_any_nonzero_direction() {
    for seed in 0..20 {
        let mut dice = Dice::seeded(seed);
        let out = tick(vec![Entity::mover(19, 10, EType::Ship, 1, 0)], &mut dice);
        let ship = out.entities[0];
        assert_eq!((ship.pos.x, ship.pos.y), (19, 10));
        let v = ship.intent.expect("a fresh intent");
        assert!((-1..=1).contains(&v.dx) && (-1..=1).contains(&v.dy));
        assert!(v.dx != 0 || v.dy != 0);
    }
}

#[test]
fn island_turns_ship() {
    // The first turn points at the island again; the stalemate then turns it south.
    let mut dice = Dice::scripted(vec![4, 6]);
    let out = tick(
        vec![Entity::mover(5, 5, EType::Ship, 1, 0), Entity::new(6, 5, EType::Island)],
        &mut dice,
    );
    assert_eq!(out.entities.len(), 2);
    assert_eq!(find(&out, 6, 5), Some(Entity::new(6, 5, EType::Island)));
    let ship = find(&out, 5, 5).expect("the ship stays put");
    assert_eq!(ship.etype, EType::Ship);
    assert_eq!(ship.intent, Some(Intent { dx: 0, dy: 1 }));
    assert!(out.stalemate);
    assert_eq!(out.passes, 1);
    assert_eq!(out.destroyed, 0);
}

#[test]
fn mine_sinks_ship() {
    let mut dice = Dice::scripted(vec![85]);
    let out = tick(
        vec![Entity::mover(5, 5, EType::Ship, 1, 0), Entity::new(6, 5, EType::Mine)],
        &mut dice,
    );
    assert_eq!(out.entities.len(), 1);
    assert_eq!(out.entities[0], Entity::new(6, 5, EType::Mine));
    assert_eq!(out.destroyed, 1);
    assert!(!out.game_over);
    assert!(!out.stalemate);
}

#[test]
fn mine_at_seventy_still_sinks_ship() {
    let mut dice = Dice::scripted(vec![70]);
    let out = tick(
        vec![Entity::mover(5, 5, EType::Ship, 1, 0), Entity::new(6, 5, EType::Mine)],
        &mut dice,
    );
    assert_eq!(out.entities.len(), 1);
    assert_eq!(out.destroyed, 1);
}

#[test]
fn ship_evades_mine() {
    // 69 is below the 70 percent threshold: the ship turns, then the stalemate turns it again.
    let mut dice = Dice::scripted(vec![69, 4, 1]);
    let out = tick(
        vec![Entity::mover(5, 5, EType::Ship, 1, 0), Entity::new(6, 5, EType::Mine)],
        &mut dice,
    );
    assert_eq!(out.entities.len(), 2);
    assert_eq!(find(&out, 6, 5), Some(Entity::new(6, 5, EType::Mine)));
    assert_eq!(find(&out, 5, 5).unwrap().intent, Some(Intent { dx: 0, dy: -1 }));
    assert_eq!(out.destroyed, 0);
    assert!(out.stalemate);
}

#[test]
fn two_ships_same_cell() {
    // The first ship takes the cell; the second runs into it, turns, and moves on the next pass.
    let mut dice = Dice::scripted(vec![6]);
    let out = tick(
        vec![Entity::mover(4, 5, EType::Ship, 1, 0), Entity::mover(6, 5, EType::Ship, -1, 0)],
        &mut dice,
    );
    assert_eq!(out.entities.len(), 2);
    assert_eq!(out.entities[0], Entity::mover(5, 5, EType::Ship, 1, 0));
    assert_eq!(out.entities[1], Entity::mover(6, 6, EType::Ship, 0, 1));
    assert_eq!(out.passes, 2);
    assert!(!out.stalemate);
}

#[test]
fn ships_blocking_each_other() {
    // Each heads for the other's cell while both are pending: neither moves in the pass.
    let mut dice = Dice::scripted(vec![1, 6]);
    let out = tick(
        vec![Entity::mover(5, 5, EType::Ship, 1, 0), Entity::mover(6, 5, EType::Ship, -1, 0)],
        &mut dice,
    );
    assert!(out.stalemate);
    assert_eq!(out.passes, 1);
    assert_eq!(out.entities.len(), 2);
    assert_eq!(out.entities[0], Entity::mover(5, 5, EType::Ship, 0, -1));
    assert_eq!(out.entities[1], Entity::mover(6, 5, EType::Ship, 0, 1));
}

#[test]
fn blocked_ship_moves_once_the_way_clears() {
    // The rear ship is blocked by the front one, which is still pending; the front one moves first.
    let mut dice = Dice::scripted(vec![0]);
    let out = tick(
        vec![Entity::mover(4, 5, EType::Ship, 1, 0), Entity::mover(5, 5, EType::Ship, 1, 0)],
        &mut dice,
    );
    assert_eq!(out.entities.len(), 2);
    assert_eq!(out.entities[0], Entity::mover(6, 5, EType::Ship, 1, 0));
    assert_eq!(out.entities[1], Entity::mover(5, 5, EType::Ship, 1, 0));
    assert_eq!(out.passes, 2);
    assert!(!out.stalemate);
}

#[test]
fn monster_rams_player() {
    let mut dice = Dice::scripted(vec![]);
    let out = tick(
        vec![Entity::new(4, 4, EType::Player), Entity::mover(3, 3, EType::Monster, 1, 1)],
        &mut dice,
    );
    assert!(out.game_over);
    assert_eq!(out.entities.len(), 1);
    assert_eq!(out.entities[0], Entity::mover(4, 4, EType::Monster, 1, 1));
    assert_eq!(out.destroyed, 1);
}

#[test]
fn ship_rams_headquarters() {
    let mut dice = Dice::scripted(vec![]);
    let out = tick(
        vec![Entity::new(2, 3, EType::HQ), Entity::mover(2, 2, EType::Ship, 0, 1)],
        &mut dice,
    );
    assert!(out.game_over);
    assert_eq!(out.entities.len(), 1);
    assert_eq!(out.entities[0].etype, EType::Ship);
}

#[test]
fn monster_eats_ship_without_ending_the_game() {
    let mut dice = Dice::scripted(vec![]);
    let out = tick(
        vec![Entity::new(8, 8, EType::Ship), Entity::mover(7, 8, EType::Monster, 1, 0)],
        &mut dice,
    );
    assert!(!out.game_over);
    assert_eq!(out.entities.len(), 1);
    assert_eq!(out.entities[0], Entity::mover(8, 8, EType::Monster, 1, 0));
}

#[test]
fn ship_sails_into_monster() {
    let mut dice = Dice::scripted(vec![]);
    let out = tick(
        vec![Entity::new(8, 8, EType::Monster), Entity::mover(7, 8, EType::Ship, 1, 0)],
        &mut dice,
    );
    assert_eq!(out.entities.len(), 1);
    assert_eq!(out.entities[0], Entity::new(8, 8, EType::Monster));
    assert_eq!(out.destroyed, 1);
}

#[test]
fn monster_fight_one_dies() {
    let mut dice = Dice::scripted(vec![95]);
    let out = tick(
        vec![Entity::new(8, 8, EType::Monster), Entity::mover(7, 8, EType::Monster, 1, 0)],
        &mut dice,
    );
    assert_eq!(out.entities.len(), 1);
    assert_eq!(out.destroyed, 1);
}

#[test]
fn non_mover_kind_is_refused() {
    let mut dice = Dice::scripted(vec![]);
    let r = move_enemies(
        coll(vec![Entity::mover(1, 1, EType::Ship, 1, 0), Entity::mover(3, 3, EType::Island, 1, 0)]),
        WIDTH,
        HEIGHT,
        &mut dice,
    );
    assert!(matches!(r, Err(ResolveError::InvariantViolation { mover: EType::Island })));
}

#[test]
fn statics_stay_and_empty_tick() {
    let mut dice = Dice::scripted(vec![]);
    let out = tick(vec![], &mut dice);
    assert_eq!(out.entities.len(), 0);
    assert_eq!(out.passes, 0);
    let out = tick(vec![Entity::new(0, 0, EType::Island), Entity::new(1, 0, EType::Mine)], &mut dice);
    assert_eq!(out.entities.len(), 2);
    assert_eq!(out.passes, 0);
    assert!(!out.stalemate);
}

fn crowd() -> Vec<Entity> {
    let mut v = vec![
        Entity::new(10, 10, EType::Player),
        Entity::new(12, 12, EType::HQ),
        Entity::new(9, 9, EType::Island),
        Entity::new(9, 10, EType::Island),
        Entity::new(11, 9, EType::Mine),
        Entity::new(3, 14, EType::Mine),
    ];
    let movers = [
        (8, 8, EType::Ship, 1, 1),
        (11, 11, EType::Ship, -1, -1),
        (12, 10, EType::Monster, -1, 0),
        (0, 0, EType::Ship, -1, 0),
        (19, 19, EType::Monster, 1, 1),
        (4, 14, EType::Ship, -1, 0),
        (5, 5, EType::Monster, 1, 0),
        (6, 5, EType::Monster, -1, 0),
        (13, 12, EType::Ship, -1, 0),
        (10, 11, EType::Monster, 0, -1),
    ];
    for (x, y, k, dx, dy) in movers {
        v.push(Entity::mover(x, y, k, dx, dy));
    }
    v
}

#[test]
fn same_seed_same_outcome() {
    for seed in 0..10 {
        let mut d1 = Dice::seeded(seed);
        let mut d2 = Dice::seeded(seed);
        let a = tick(crowd(), &mut d1);
        let b = tick(crowd(), &mut d2);
        assert_eq!(a.entities, b.entities);
        assert_eq!(a.game_over, b.game_over);
        assert_eq!(a.destroyed, b.destroyed);
        assert_eq!(a.passes, b.passes);
        assert_eq!(a.stalemate, b.stalemate);
    }
}

#[test]
fn conservation_and_no_overlap_and_pass_bound() {
    for seed in 0..30 {
        let mut dice = Dice::seeded(seed);
        let input = crowd();
        let n = input.len();
        let movers = input.iter().filter(|e| e.intent.is_some()).count();
        let out = tick(input, &mut dice);
        assert!(out.entities.len() <= n);
        assert_eq!(out.entities.len() + out.destroyed, n);
        assert!(out.passes <= movers);
        for i in 0..out.entities.len() {
            for j in 0..out.entities.len() {
                if i != j {
                    assert_ne!(out.entities[i].pos, out.entities[j].pos);
                }
            }
        }
    }
}

#[test]
fn statics_never_move() {
    for seed in 0..30 {
        let mut dice = Dice::seeded(seed);
        let input = crowd();
        let out = tick(input.clone(), &mut dice);
        for e in out.entities.iter().filter(|e| e.intent.is_none()) {
            assert!(input.contains(e));
        }
        for e in out.entities.iter().filter(|e| e.intent.is_some()) {
            assert!(e.etype == EType::Ship || e.etype == EType::Monster);
        }
    }
}
