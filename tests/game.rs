use std::collections::VecDeque;

use submarine::dice::{change_direction, Dice};
use submarine::entity::{
    check_collision, count_all_of, get_collision, get_first, get_first_pos, occupant_at, EType,
    Entity, EntityColl, Intent,
};
use submarine::grid::{Position, HEIGHT, WIDTH};
use submarine::navigation::{navigate, nearby_monsters, NavError, NavEvent};
use submarine::outcome::{outcome, resolve_collision, EResolution, ResolveError};
use submarine::player::{
    command_from_code, crew_suffices, direction_from_key, get_power, Command, Docking, Supplies,
};
use submarine::setup::{place_random, setup};
use submarine::weapons::{
    fire_torpedo, missile_range, missile_target, resolve_missile, torpedo_range, TorpedoRun,
};

fn coll(items: Vec<Entity>) -> EntityColl {
    items.into_iter().collect::<VecDeque<Entity>>()
}

fn pos(x: usize, y: usize) -> Position {
    Position { x, y }
}

#[test]
fn step_stays_on_the_grid() {
    assert_eq!(pos(0, 0).step(-1, 0, WIDTH, HEIGHT), None);
    assert_eq!(pos(19, 19).step(1, 1, WIDTH, HEIGHT), None);
    assert_eq!(pos(5, 5).step(1, -1, WIDTH, HEIGHT), Some(pos(6, 4)));
    assert_eq!(pos(0, 19).step(0, -1, WIDTH, HEIGHT), Some(pos(0, 18)));
    assert_eq!(pos(25, 3).step(-1, 0, WIDTH, HEIGHT), None);
}

#[test]
fn range_and_distance() {
    assert!(pos(0, 0).within_range(&pos(2, 2), 2));
    assert!(!pos(0, 0).within_range(&pos(3, 0), 2));
    assert!(pos(7, 7).within_range(&pos(7, 7), 0));
    assert_eq!(pos(1, 2).distance_squared(&pos(4, 6)), Some(25));
    assert_eq!(pos(4, 6).distance_squared(&pos(1, 2)), Some(25));
    assert_eq!(pos(3, 3).distance_squared(&pos(3, 3)), Some(0));
}

fn sample() -> EntityColl {
    coll(vec![
        Entity::new(1, 1, EType::Island),
        Entity::mover(2, 2, EType::Ship, 1, 0),
        Entity::new(3, 3, EType::Player),
        Entity::mover(4, 4, EType::Ship, 0, 1),
        Entity::new(1, 1, EType::Mine),
    ])
}

#[test]
fn collision_index() {
    let s = sample();
    assert_eq!(count_all_of(&s, EType::Ship), 2);
    assert_eq!(count_all_of(&s, EType::HQ), 0);
    assert_eq!(get_first_pos(&s, EType::Ship), Some(pos(2, 2)));
    assert_eq!(get_first_pos(&s, EType::Monster), None);
    assert!(check_collision(&s, 3, 3));
    assert!(!check_collision(&s, 3, 4));
    assert_eq!(occupant_at(&s, 1, 1), Some(0));
    assert_eq!(occupant_at(&s, 9, 9), None);
}

#[test]
fn taking_entities_out() {
    let mut s = sample();
    assert_eq!(get_first(&mut s, EType::Ship), Some(Entity::mover(2, 2, EType::Ship, 1, 0)));
    assert_eq!(s.len(), 4);
    assert_eq!(s[1], Entity::new(3, 3, EType::Player));
    assert_eq!(get_first(&mut s, EType::HQ), None);
    assert_eq!(s.len(), 4);
    assert_eq!(get_collision(&mut s, 1, 1), Some(Entity::new(1, 1, EType::Island)));
    assert_eq!(get_collision(&mut s, 1, 1), Some(Entity::new(1, 1, EType::Mine)));
    assert_eq!(get_collision(&mut s, 1, 1), None);
    assert_eq!(s.len(), 2);
}

#[test]
fn scripted_dice_cycles_and_reduces() {
    let mut d = Dice::scripted(vec![3, 9, 150]);
    assert_eq!(d.roll(8), 3);
    assert_eq!(d.roll(8), 1);
    assert_eq!(d.roll(100), 50);
    assert_eq!(d.roll(8), 3);
    let mut empty = Dice::scripted(vec![]);
    assert_eq!(empty.roll(8), 0);
}

#[test]
fn seeded_dice_stays_below_bound_and_repeats() {
    let mut a = Dice::seeded(11);
    let mut b = Dice::seeded(11);
    for bound in 1..50u32 {
        let x = a.roll(bound);
        assert!(x < bound);
        assert_eq!(x, b.roll(bound));
    }
}

#[test]
fn directions_from_rolls() {
    let expected = [(-1, -1), (0, -1), (1, -1), (-1, 0), (1, 0), (-1, 1), (0, 1), (1, 1)];
    for (k, (dx, dy)) in expected.iter().enumerate() {
        assert_eq!(Intent::from_roll(k as u32), Intent { dx: *dx, dy: *dy });
        assert_eq!(Intent::from_roll(k as u32 + 8), Intent { dx: *dx, dy: *dy });
    }
    let mut d = Dice::scripted(vec![5]);
    assert_eq!(Intent::new_vel(&mut d), Intent { dx: -1, dy: 1 });
    let turned = change_direction(Entity::new(4, 4, EType::Monster), &mut d);
    assert_eq!(turned, Entity::mover(4, 4, EType::Monster, -1, 1));
}

#[test]
fn outcome_table_is_total() {
    let kinds = [EType::Player, EType::Island, EType::Ship, EType::Mine, EType::HQ, EType::Monster];
    for o in kinds {
        for roll in [0, 69, 70, 79, 80, 99] {
            assert!(outcome(EType::Ship, o, roll).is_ok());
            assert!(outcome(EType::Monster, o, roll).is_ok());
        }
        for m in [EType::Player, EType::Island, EType::Mine, EType::HQ] {
            assert_eq!(outcome(m, o, 0), Err(ResolveError::InvariantViolation { mover: m }));
        }
    }
    assert_eq!(outcome(EType::Ship, EType::Island, 0), Ok(EResolution::MoverChangeDirection));
    assert_eq!(outcome(EType::Ship, EType::Ship, 0), Ok(EResolution::MoverChangeDirection));
    assert_eq!(outcome(EType::Ship, EType::Player, 0), Ok(EResolution::CrasheeDestroyed));
    assert_eq!(outcome(EType::Ship, EType::HQ, 0), Ok(EResolution::CrasheeDestroyed));
    assert_eq!(outcome(EType::Ship, EType::Mine, 69), Ok(EResolution::MoverChangeDirection));
    assert_eq!(outcome(EType::Ship, EType::Mine, 70), Ok(EResolution::MoverDestroyed));
    assert_eq!(outcome(EType::Ship, EType::Monster, 0), Ok(EResolution::MoverDestroyed));
    assert_eq!(outcome(EType::Monster, EType::Island, 0), Ok(EResolution::MoverChangeDirection));
    assert_eq!(outcome(EType::Monster, EType::Player, 0), Ok(EResolution::CrasheeDestroyed));
    assert_eq!(outcome(EType::Monster, EType::HQ, 0), Ok(EResolution::CrasheeDestroyed));
    assert_eq!(outcome(EType::Monster, EType::Ship, 0), Ok(EResolution::CrasheeDestroyed));
    assert_eq!(outcome(EType::Monster, EType::Mine, 0), Ok(EResolution::MoverDestroyed));
    assert_eq!(outcome(EType::Monster, EType::Monster, 79), Ok(EResolution::MoverChangeDirection));
    assert_eq!(outcome(EType::Monster, EType::Monster, 80), Ok(EResolution::MoverDestroyed));
}

#[test]
fn collisions_draw_only_when_random() {
    let ship = Entity::mover(1, 1, EType::Ship, 1, 0);
    let monster = Entity::mover(1, 1, EType::Monster, 1, 0);
    let mut d = Dice::scripted(vec![69, 70, 79, 80]);
    assert_eq!(resolve_collision(&ship, &Entity::new(2, 1, EType::Mine), &mut d), Ok(EResolution::MoverChangeDirection));
    assert_eq!(resolve_collision(&ship, &Entity::new(2, 1, EType::Island), &mut d), Ok(EResolution::MoverChangeDirection));
    assert_eq!(resolve_collision(&ship, &Entity::new(2, 1, EType::Mine), &mut d), Ok(EResolution::MoverDestroyed));
    assert_eq!(resolve_collision(&monster, &Entity::new(2, 1, EType::Monster), &mut d), Ok(EResolution::MoverChangeDirection));
    assert_eq!(resolve_collision(&monster, &Entity::new(2, 1, EType::Monster), &mut d), Ok(EResolution::MoverDestroyed));
    assert_eq!(
        resolve_collision(&Entity::new(1, 1, EType::Mine), &Entity::new(2, 1, EType::Ship), &mut d),
        Err(ResolveError::InvariantViolation { mover: EType::Mine })
    );
}

#[test]
fn monsters_nearby() {
    let s = coll(vec![Entity::new(3, 3, EType::Monster), Entity::new(10, 10, EType::Monster)]);
    let mut d = Dice::scripted(vec![40]);
    assert_eq!(nearby_monsters(&s, 4, 4, &mut d), (false, true));
    let mut d = Dice::scripted(vec![5]);
    assert_eq!(nearby_monsters(&s, 5, 5, &mut d), (true, true));
    let mut d = Dice::scripted(vec![5]);
    assert_eq!(nearby_monsters(&s, 15, 3, &mut d), (false, false));
    let far = coll(vec![Entity::new(3, 3, EType::Ship)]);
    assert_eq!(nearby_monsters(&far, 3, 4, &mut d), (false, false));
}

#[test]
fn voyage_stops_at_the_edge() {
    let mut s = coll(vec![Entity::new(0, 5, EType::Player)]);
    let mut d = Dice::scripted(vec![]);
    let v = navigate(&mut s, -1, 0, 3, 1000, WIDTH, HEIGHT, &mut d).unwrap();
    assert!(v.alive);
    assert_eq!(v.pos, pos(0, 5));
    assert_eq!(v.power, 900);
    assert_eq!(v.events, vec![NavEvent::LeftArea]);
    assert_eq!(s, coll(vec![Entity::new(0, 5, EType::Player)]));
}

#[test]
fn voyage_runs_aground() {
    let mut s = coll(vec![Entity::new(5, 5, EType::Player), Entity::new(7, 5, EType::Island)]);
    let mut d = Dice::scripted(vec![]);
    let v = navigate(&mut s, 1, 0, 5, 250, WIDTH, HEIGHT, &mut d).unwrap();
    assert!(v.alive);
    assert_eq!(v.pos, pos(6, 5));
    assert_eq!(v.power, 50);
    assert_eq!(v.events, vec![NavEvent::RanAground]);
    assert_eq!(s, coll(vec![Entity::new(7, 5, EType::Island), Entity::new(6, 5, EType::Player)]));
}

#[test]
fn voyage_rams_a_ship() {
    let mut s = coll(vec![Entity::new(5, 5, EType::Player), Entity::new(6, 5, EType::Ship)]);
    let mut d = Dice::scripted(vec![]);
    let v = navigate(&mut s, 1, 0, 4, 1000, WIDTH, HEIGHT, &mut d).unwrap();
    assert!(!v.alive);
    assert_eq!(v.events, vec![NavEvent::RammedShip]);
    assert!(s.is_empty());
}

#[test]
fn voyage_kills_a_monster() {
    let mut s = coll(vec![Entity::new(5, 5, EType::Player), Entity::new(6, 5, EType::Monster)]);
    let mut d = Dice::scripted(vec![10]);
    let v = navigate(&mut s, 1, 0, 2, 1000, WIDTH, HEIGHT, &mut d).unwrap();
    assert!(v.alive);
    assert_eq!(v.pos, pos(6, 5));
    assert_eq!(v.power, 800);
    assert_eq!(v.events, vec![NavEvent::RammedMonster]);
    assert_eq!(s, coll(vec![Entity::new(6, 5, EType::Player)]));
}

#[test]
fn voyage_feeds_a_monster() {
    let mut s = coll(vec![Entity::new(5, 5, EType::Player), Entity::new(6, 5, EType::Monster)]);
    let mut d = Dice::scripted(vec![21]);
    let v = navigate(&mut s, 1, 0, 2, 1000, WIDTH, HEIGHT, &mut d).unwrap();
    assert!(!v.alive);
    assert_eq!(v.events, vec![NavEvent::EatenByMonster]);
    assert!(s.is_empty());
}

#[test]
fn voyage_near_monsters() {
    let mut s = coll(vec![Entity::new(5, 5, EType::Player), Entity::new(8, 5, EType::Monster)]);
    let mut d = Dice::scripted(vec![30]);
    let v = navigate(&mut s, 1, 0, 1, 1000, WIDTH, HEIGHT, &mut d).unwrap();
    assert!(v.alive);
    assert_eq!(v.events, vec![NavEvent::NarrowEscape]);
    assert_eq!(s, coll(vec![Entity::new(8, 5, EType::Monster), Entity::new(6, 5, EType::Player)]));

    let mut s = coll(vec![Entity::new(5, 5, EType::Player), Entity::new(8, 5, EType::Monster)]);
    let mut d = Dice::scripted(vec![10]);
    let v = navigate(&mut s, 1, 0, 1, 1000, WIDTH, HEIGHT, &mut d).unwrap();
    assert!(!v.alive);
    assert_eq!(v.events, vec![NavEvent::EatenNearby]);
    assert_eq!(s, coll(vec![Entity::new(8, 5, EType::Monster)]));
}

#[test]
fn voyage_power_runs_down_to_zero() {
    let mut s = coll(vec![Entity::new(2, 2, EType::Player)]);
    let mut d = Dice::scripted(vec![]);
    let v = navigate(&mut s, 1, 1, 3, 150, WIDTH, HEIGHT, &mut d).unwrap();
    assert!(v.alive);
    assert_eq!(v.pos, pos(5, 5));
    assert_eq!(v.power, 0);
    assert!(v.events.is_empty());
}

#[test]
fn voyage_needs_one_player() {
    let mut d = Dice::scripted(vec![]);
    let mut none = coll(vec![Entity::new(1, 1, EType::Ship)]);
    assert!(matches!(navigate(&mut none, 1, 0, 1, 100, WIDTH, HEIGHT, &mut d), Err(NavError::NoPlayer)));
    let two = vec![Entity::new(1, 1, EType::Player), Entity::new(5, 5, EType::Player)];
    let mut s = coll(two.clone());
    assert!(matches!(navigate(&mut s, 1, 0, 1, 100, WIDTH, HEIGHT, &mut d), Err(NavError::SecondPlayer)));
    assert_eq!(s, coll(two));
}

#[test]
fn new_map_layout() {
    let islands = [
        (8, 7), (9, 7), (10, 7),
        (8, 8), (9, 8), (10, 8), (11, 8),
        (7, 9), (8, 9), (9, 9), (11, 9), (12, 9),
        (7, 10), (8, 10), (12, 10),
        (7, 11), (8, 11), (11, 11), (12, 11),
        (8, 12), (9, 12), (11, 12),
        (9, 13),
    ];
    for seed in 0..5 {
        let mut d = Dice::seeded(seed);
        let map = setup(&mut d);
        for (i, (x, y)) in islands.iter().enumerate() {
            assert_eq!(map[i], Entity::new(*x, *y, EType::Island));
        }
        assert_eq!(map[23], Entity::new(10, 10, EType::Player));
        let ships = count_all_of(&map, EType::Ship);
        let mines = count_all_of(&map, EType::Mine);
        assert!((15..=30).contains(&ships));
        assert!((8..=14).contains(&mines));
        assert_eq!(count_all_of(&map, EType::HQ), 1);
        assert_eq!(count_all_of(&map, EType::Monster), 4);
        assert_eq!(map.len() as u32, 24 + ships + 1 + mines + 4);
        for e in map.iter() {
            assert!(e.pos.x < WIDTH && e.pos.y < HEIGHT);
            let moving = e.etype == EType::Ship || e.etype == EType::Monster;
            assert_eq!(e.intent.is_some(), moving);
            if let Some(v) = e.intent {
                assert!((v.dx, v.dy) != (0, 0));
            }
        }
        for i in 0..map.len() {
            for j in (i + 1)..map.len() {
                assert_ne!(map[i].pos, map[j].pos);
            }
        }
    }
}

#[test]
fn placing_on_a_full_or_nearly_full_grid() {
    let mut full = EntityColl::new();
    for y in 0..HEIGHT {
        for x in 0..WIDTH {
            full.push_back(Entity::new(x, y, EType::Island));
        }
    }
    let mut d = Dice::scripted(vec![7]);
    assert_eq!(place_random(&full, &mut d, EType::Mine), None);
    full.retain(|e| e.pos != pos(13, 4));
    assert_eq!(place_random(&full, &mut d, EType::Mine), Some(Entity::new(13, 4, EType::Mine)));
    let mut d = Dice::scripted(vec![2]);
    let one = coll(vec![Entity::new(1, 0, EType::Island)]);
    assert_eq!(place_random(&one, &mut d, EType::HQ), Some(Entity::new(3, 0, EType::HQ)));
}

#[test]
fn missile_flight() {
    assert_eq!(missile_range(0), 0);
    assert_eq!(missile_range(37), 0);
    assert_eq!(missile_range(38), 1);
    assert_eq!(missile_range(75), 1);
    assert_eq!(missile_range(112), 1);
    assert_eq!(missile_range(113), 2);
    assert_eq!(missile_range(150), 2);
    assert_eq!(missile_target(pos(10, 10), 1, -1, 5, WIDTH, HEIGHT), Some(pos(15, 5)));
    assert_eq!(missile_target(pos(10, 10), 1, 0, 10, WIDTH, HEIGHT), None);
    assert_eq!(missile_target(pos(10, 10), -1, 0, 10, WIDTH, HEIGHT), Some(pos(0, 10)));
    assert_eq!(missile_target(pos(10, 10), -1, 0, 11, WIDTH, HEIGHT), None);
    assert_eq!(missile_target(pos(2, 3), 2, 1, 4, WIDTH, HEIGHT), Some(pos(10, 7)));
    assert_eq!(missile_target(pos(2, 3), 0, 0, u32::MAX, WIDTH, HEIGHT), Some(pos(2, 3)));
    assert_eq!(missile_target(pos(2, 3), -128, 0, u32::MAX, WIDTH, HEIGHT), None);
}

#[test]
fn torpedo_hit_on_a_missing_index_changes_nothing() {
    let mut s = coll(vec![Entity::new(1, 1, EType::Ship)]);
    submarine::weapons::resolve_torpedo(&mut s, 3);
    assert_eq!(s, coll(vec![Entity::new(1, 1, EType::Ship)]));
    submarine::weapons::resolve_torpedo(&mut s, 0);
    assert!(s.is_empty());
}

#[test]
fn missile_blast() {
    let mut s = coll(vec![
        Entity::new(10, 12, EType::Player),
        Entity::new(12, 12, EType::Ship),
        Entity::new(13, 10, EType::Ship),
        Entity::new(8, 8, EType::Mine),
        Entity::new(9, 11, EType::Monster),
        Entity::new(10, 7, EType::Island),
        Entity::new(11, 9, EType::HQ),
    ]);
    let b = resolve_missile(10, 10, &mut s);
    assert_eq!((b.monsters, b.ships, b.mines, b.islands), (1, 1, 1, 0));
    assert!(b.player);
    assert!(b.hq);
    assert_eq!(s, coll(vec![Entity::new(13, 10, EType::Ship), Entity::new(10, 7, EType::Island)]));
}

#[test]
fn torpedo_ranges() {
    assert_eq!(torpedo_range(0, 100), 12);
    assert_eq!(torpedo_range(0, 50), 7);
    assert_eq!(torpedo_range(7, 10), 3);
    assert_eq!(torpedo_range(3, 10), 5);
    assert_eq!(torpedo_range(4, 51), 10);
    assert_eq!(torpedo_range(8, 100), 12);
    assert_eq!(torpedo_range(15, 0), 3);
}

#[test]
fn torpedo_runs() {
    let mut s = coll(vec![Entity::new(8, 5, EType::Ship), Entity::new(5, 7, EType::Island)]);
    assert_eq!(fire_torpedo(&mut s, pos(5, 5), 1, 0, 5, WIDTH, HEIGHT), TorpedoRun::Hit(EType::Ship));
    assert_eq!(s, coll(vec![Entity::new(5, 7, EType::Island)]));

    let mut s = coll(vec![Entity::new(7, 5, EType::Mine), Entity::new(5, 7, EType::Island)]);
    assert_eq!(fire_torpedo(&mut s, pos(5, 5), 1, 0, 5, WIDTH, HEIGHT), TorpedoRun::Hit(EType::Mine));
    assert_eq!(s, coll(vec![Entity::new(5, 7, EType::Island), Entity::new(7, 5, EType::Mine)]));

    let mut s = coll(vec![Entity::new(8, 5, EType::Ship)]);
    assert_eq!(fire_torpedo(&mut s, pos(5, 5), 1, 0, 2, WIDTH, HEIGHT), TorpedoRun::Dud);
    assert_eq!(s.len(), 1);

    let mut s = coll(vec![]);
    assert_eq!(fire_torpedo(&mut s, pos(18, 5), 1, 0, 5, WIDTH, HEIGHT), TorpedoRun::OutOfRange);
}

#[test]
fn starting_supplies() {
    let s = Supplies::new();
    assert_eq!(
        s,
        Supplies { depth: 100, crew: 30, power: 6000, fuel: 2500, torpedos: 10, missiles: 3, resupply_left: 2 }
    );
}

#[test]
fn converting_power_and_fuel() {
    let mut s = Supplies::new();
    assert!(s.convert_power_to_fuel(1000));
    assert_eq!((s.power, s.fuel), (5000, 5500));
    assert!(!s.convert_power_to_fuel(5000));
    assert_eq!((s.power, s.fuel), (5000, 5500));
    assert!(s.convert_fuel_to_power(301));
    assert_eq!((s.power, s.fuel), (5100, 5199));
    assert!(!s.convert_fuel_to_power(5200));
    let mut big = Supplies { fuel: u32::MAX - 2, ..Supplies::new() };
    assert!(!big.convert_power_to_fuel(1));
    assert!(big.convert_power_to_fuel(0));
}

#[test]
fn manuevering() {
    let mut s = Supplies::new();
    assert!(s.manuever(300));
    assert_eq!((s.depth, s.power), (300, 5900));
    assert!(s.manuever(299));
    assert_eq!((s.depth, s.power), (299, 5899));
    assert!(!s.manuever(3000));
    assert!(!s.manuever(-1));
    assert_eq!((s.depth, s.power), (299, 5899));
    let mut weak = Supplies { power: 10, ..Supplies::new() };
    assert!(weak.manuever(2999));
    assert_eq!(weak.power, 0);
}

#[test]
fn resupplying() {
    let low = Supplies { depth: 40, crew: 5, power: 1000, fuel: 2000, torpedos: 3, missiles: 0, resupply_left: 2 };
    let mut s = low;
    assert_eq!(s.resupply(pos(10, 10), Some(pos(12, 11))), Docking::Refused);
    assert_eq!(s, low);
    assert_eq!(s.resupply(pos(10, 10), None), Docking::Refused);
    assert_eq!(s.resupply(pos(10, 10), Some(pos(12, 10))), Docking::Supplied);
    assert_eq!(
        s,
        Supplies { depth: 40, crew: 25, power: 4000, fuel: 2000, torpedos: 8, missiles: 2, resupply_left: 1 }
    );
    let mut deep = Supplies { depth: 51, ..low };
    assert_eq!(deep.resupply(pos(10, 10), Some(pos(11, 11))), Docking::Refused);
    let mut gone = Supplies { resupply_left: 0, ..low };
    assert_eq!(gone.resupply(pos(10, 10), Some(pos(11, 11))), Docking::Abandoned);
}

#[test]
fn loading_weapons() {
    let mut s = Supplies::new();
    assert!(s.load_torpedo());
    assert_eq!((s.torpedos, s.power), (9, 5850));
    let mut none = Supplies { torpedos: 0, ..Supplies::new() };
    assert!(!none.load_torpedo());
    let mut weak = Supplies { power: 100, ..Supplies::new() };
    assert!(weak.load_torpedo());
    assert_eq!(weak.power, 0);
    assert!(s.load_missile(100));
    assert_eq!((s.missiles, s.fuel), (2, 2400));
    assert!(!s.load_missile(0));
    assert!(!s.load_missile(2401));
    assert_eq!((s.missiles, s.fuel), (2, 2400));
}

#[test]
fn orders_and_headings() {
    let expected = [
        (0, Some(Command::Navigate)),
        (1, Some(Command::Sonar)),
        (2, Some(Command::Torpedo)),
        (3, Some(Command::Missile)),
        (4, Some(Command::Manuever)),
        (5, Some(Command::Status)),
        (6, Some(Command::Resupply)),
        (7, None),
        (8, Some(Command::Convert)),
        (9, Some(Command::Surrender)),
        (-1, None),
        (10, None),
    ];
    for (code, c) in expected {
        assert_eq!(command_from_code(code), c);
    }
    assert_eq!(direction_from_key(8), Some((0, -1)));
    assert_eq!(direction_from_key(1), Some((-1, 1)));
    assert_eq!(direction_from_key(6), Some((1, 0)));
    assert_eq!(direction_from_key(5), None);
    assert_eq!(get_power(100, 200), Some(100));
    assert_eq!(get_power(200, 200), None);
    assert!(!crew_suffices(Command::Missile, 23));
    assert!(crew_suffices(Command::Missile, 24));
    assert!(!crew_suffices(Command::Torpedo, 9));
    assert!(crew_suffices(Command::Torpedo, 10));
    assert!(crew_suffices(Command::Resupply, 0));
}
