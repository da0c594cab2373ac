use vstd::prelude::*;

use crate::dice::{
    drawn, lemma_drawn_concat, lemma_drawn_none, lemma_drawn_one, lemma_next_roll_front,
    next_roll, Dice,
};
use crate::entity::{
    first_at, first_index_of, first_of, get_first_pos, occupant_at, EType, Entity, EntityColl,
};
use crate::grid::{box_gap, cell_after, Position};

verus! {

/// Power spent for each cell the player tries to cross.
pub const POWER_PER_CELL: u32 = 100;

/// Out of 100, how often a sea monster the player rams does not eat the player.
pub const MONSTER_SPARES_PERCENT: u32 = 21;

/// Out of 100, how often each sea monster close to the player eats it.
pub const NEARBY_MONSTER_PERCENT: u32 = 25;

/// How far, along each axis, a sea monster reaches the player.
pub const MONSTER_REACH: usize = 2;

/// What happened on a voyage, in order.
#[derive(Clone, Copy, Debug, PartialEq, Eq, Structural)]
pub enum NavEvent {
    /// The next cell is off the grid; the voyage ends there.
    LeftArea,
    /// An island is in the way; the voyage ends there.
    RanAground,
    /// The player rammed a ship; both sink.
    RammedShip,
    /// The player rammed the headquarters; both sink.
    RammedHQ,
    /// The player ran into a mine; both blow up.
    HitMine,
    /// The player rammed a sea monster, which ate it.
    EatenByMonster,
    /// The player rammed a sea monster and killed it, without moving.
    RammedMonster,
    /// Sea monsters were close, and none ate the player.
    NarrowEscape,
    /// A sea monster close to the player ate it.
    EatenNearby,
}

/// Why a voyage could not start.
#[derive(Clone, Copy, Debug, PartialEq, Eq, Structural)]
pub enum NavError {
    /// There is no player on the map.
    NoPlayer,
    /// There is more than one player on the map.
    SecondPlayer,
}

/// The state of a voyage between two cells: where the player is, the other
/// entities, the power left, whether the player lives, whether the voyage is
/// over, what happened so far, and the rolls not yet used.
pub ghost struct Trip {
    pub pos: Position,
    pub others: Seq<Entity>,
    pub power: u32,
    pub alive: bool,
    pub done: bool,
    pub events: Seq<NavEvent>,
    pub rest: Seq<u32>,
}

/// `a - b`, or 0 when `b` is larger.
pub open spec fn sat_sub(a: u32, b: u32) -> u32 {
    if a >= b {
        (a - b) as u32
    } else {
        0
    }
}

/// The sea monsters of `s`, in order, each rolling once whether it eats a player
/// standing on `p` when it is within reach; the first that does ends the search.
/// The result: eaten, some monster was within reach, the rolls left.
pub open spec fn lurk(s: Seq<Entity>, p: Position, nearby: bool, tape: Seq<u32>) -> (
    bool,
    bool,
    Seq<u32>,
)
    decreases s.len(),
{
    if s.len() == 0 {
        (false, nearby, tape)
    } else if s[0].etype == EType::Monster && box_gap(s[0].pos, p) <= MONSTER_REACH {
        let (r, t1) = next_roll(tape);
        if r < NEARBY_MONSTER_PERCENT {
            (true, true, t1)
        } else {
            lurk(s.drop_first(), p, true, t1)
        }
    } else {
        lurk(s.drop_first(), p, nearby, tape)
    }
}

/// One cell of a voyage heading `(dx, dy)`.
pub open spec fn leg(width: usize, height: usize, dx: i8, dy: i8, t: Trip) -> Trip {
    let power = sat_sub(t.power, POWER_PER_CELL);
    match cell_after(t.pos, dx, dy, width, height) {
        None => Trip { power, done: true, events: t.events.push(NavEvent::LeftArea), ..t },
        Some(d) => match first_at(t.others, d) {
            Some(i) => {
                let sunk = Trip {
                    power,
                    others: t.others.remove(i),
                    alive: false,
                    done: true,
                    ..t
                };
                match t.others[i].etype {
                    EType::Island => Trip {
                        power,
                        done: true,
                        events: t.events.push(NavEvent::RanAground),
                        ..t
                    },
                    EType::Ship => Trip { events: t.events.push(NavEvent::RammedShip), ..sunk },
                    EType::HQ => Trip { events: t.events.push(NavEvent::RammedHQ), ..sunk },
                    EType::Mine => Trip { events: t.events.push(NavEvent::HitMine), ..sunk },
                    EType::Monster => {
                        let (r, t1) = next_roll(t.rest);
                        if r >= MONSTER_SPARES_PERCENT {
                            Trip { events: t.events.push(NavEvent::EatenByMonster), rest: t1, ..sunk }
                        } else {
                            Trip {
                                power,
                                others: t.others.remove(i),
                                events: t.events.push(NavEvent::RammedMonster),
                                rest: t1,
                                ..t
                            }
                        }
                    },
                    EType::Player => Trip { power, done: true, ..t },
                }
            },
            None => {
                let (eaten, nearby, t1) = lurk(t.others, d, false, t.rest);
                if eaten {
                    Trip {
                        pos: d,
                        power,
                        alive: false,
                        done: true,
                        events: t.events.push(NavEvent::EatenNearby),
                        rest: t1,
                        ..t
                    }
                } else if nearby {
                    Trip { pos: d, power, events: t.events.push(NavEvent::NarrowEscape), rest: t1, ..t }
                } else {
                    Trip { pos: d, power, rest: t1, ..t }
                }
            },
        },
    }
}

/// Up to `steps` legs, stopping early when the voyage is over.
pub open spec fn voyage(width: usize, height: usize, dx: i8, dy: i8, t: Trip, steps: nat) -> Trip
    decreases steps,
{
    if steps == 0 || t.done {
        t
    } else {
        voyage(width, height, dx, dy, leg(width, height, dx, dy, t), (steps - 1) as nat)
    }
}

/// Whether a sea monster close to `(x, y)` eats the player there, and whether any
/// was close: each monster within reach, in order, rolls once below 100 and eats
/// the player on a roll under `NEARBY_MONSTER_PERCENT`.
pub fn nearby_monsters(entities: &EntityColl, x: usize, y: usize, dice: &mut Dice) -> (r: (
    bool,
    bool,
))
    ensures
        old(dice).history().is_prefix_of(final(dice).history()),
        forall|t: Seq<u32>|
            #[trigger] lurk(
                entities@,
                Position { x, y },
                false,
                drawn(old(dice).history(), final(dice).history()) + t,
            ) == (r.0, r.1, t),
{
    let pos = Position { x, y };
    let ghost s = entities@;
    let ghost h0 = dice.history();
    proof {
        lemma_drawn_none(h0);
        assert forall|t: Seq<u32>|
            #[trigger] lurk(s, pos, false, drawn(h0, dice.history()) + t) == lurk(
                s.skip(0),
                pos,
                false,
                t,
            ) by {
            assert(drawn(h0, dice.history()) + t =~= t);
            assert(s.skip(0) =~= s);
        }
    }
    let mut nearby = false;
    let mut i: usize = 0;
    while i < entities.len()
        invariant
            s == entities@,
            pos == (Position { x, y }),
            i <= s.len(),
            h0 == old(dice).history(),
            h0.is_prefix_of(dice.history()),
            forall|t: Seq<u32>|
                #[trigger] lurk(s, pos, false, drawn(h0, dice.history()) + t) == lurk(
                    s.skip(i as int),
                    pos,
                    nearby,
                    t,
                ),
        decreases s.len() - i,
    {
        let e = entities[i];
        let ghost h1 = dice.history();
        proof {
            assert(s.skip(i as int)[0] == e);
            assert(s.skip(i as int).drop_first() =~= s.skip(i + 1));
        }
        if e.etype == EType::Monster && e.pos.within_range(&pos, MONSTER_REACH) {
            let r = dice.roll(100);
            proof {
                let h2 = dice.history();
                assert(h2.drop_last() =~= h1);
                lemma_drawn_one(h1, h2);
                lemma_drawn_concat(h0, h1, h2);
                assert forall|t: Seq<u32>| #[trigger]
                    lurk(s, pos, false, drawn(h0, h2) + t) == (if r < NEARBY_MONSTER_PERCENT {
                        (true, true, t)
                    } else {
                        lurk(s.skip(i + 1), pos, true, t)
                    }) by {
                    lemma_next_roll_front(r, t);
                    assert(drawn(h0, h2) + t =~= drawn(h0, h1) + (seq![r] + t));
                }
            }
            if r < NEARBY_MONSTER_PERCENT {
                return (true, true);
            }
            nearby = true;
        }
        i = i + 1;
    }
    proof {
        assert forall|t: Seq<u32>|
            #[trigger] lurk(s, pos, false, drawn(h0, dice.history()) + t) == (false, nearby, t)
            by {
            assert(s.skip(i as int) =~= Seq::<Entity>::empty());
        }
    }
    (false, nearby)
}

/// How a voyage ended.
pub struct Voyage {
    /// Where the player ended up.
    pub pos: Position,
    /// The player is still alive.
    pub alive: bool,
    /// The power left.
    pub power: u32,
    /// What happened, in order.
    pub events: Vec<NavEvent>,
}

/// The entities after a voyage of `player` that left the round `t`: the others,
/// and the player at its last cell when it survived.
pub open spec fn landed(t: Trip, player: Entity) -> Seq<Entity> {
    if t.alive {
        t.others.push(Entity { pos: t.pos, ..player })
    } else {
        t.others
    }
}

/// The round a voyage of `player` starts from.
pub open spec fn embark(player: Entity, others: Seq<Entity>, power: u32, tape: Seq<u32>) -> Trip {
    Trip {
        pos: player.pos,
        others,
        power,
        alive: true,
        done: false,
        events: Seq::empty(),
        rest: tape,
    }
}

struct Helm {
    pos: Position,
    power: u32,
    alive: bool,
    done: bool,
    events: Vec<NavEvent>,
}

impl Helm {
    spec fn trip(&self, others: Seq<Entity>, tape: Seq<u32>) -> Trip {
        Trip {
            pos: self.pos,
            others,
            power: self.power,
            alive: self.alive,
            done: self.done,
            events: self.events@,
            rest: tape,
        }
    }
}

fn take_leg(
    helm: &mut Helm,
    others: &mut EntityColl,
    dx: i8,
    dy: i8,
    width: usize,
    height: usize,
    dice: &mut Dice,
)
    ensures
        old(dice).history().is_prefix_of(final(dice).history()),
        forall|x: Seq<u32>|
            #[trigger] leg(
                width,
                height,
                dx,
                dy,
                old(helm).trip(old(others)@, drawn(old(dice).history(), final(dice).history()) + x),
            ) == final(helm).trip(final(others)@, x),
{
    let ghost h0 = dice.history();
    proof {
        lemma_drawn_none(h0);
    }
    helm.power = if helm.power >= POWER_PER_CELL {
        helm.power - POWER_PER_CELL
    } else {
        0
    };
    match helm.pos.step(dx, dy, width, height) {
        None => {
            helm.done = true;
            helm.events.push(NavEvent::LeftArea);
            proof {
                assert forall|x: Seq<u32>| drawn(h0, dice.history()) + x == x by {
                    assert(drawn(h0, dice.history()) + x =~= x);
                }
            }
        },
        Some(d) => {
            match occupant_at(others, d.x, d.y) {
                Some(i) => {
                    let kind = others[i].etype;
                    match kind {
                        EType::Island => {
                            helm.done = true;
                            helm.events.push(NavEvent::RanAground);
                        },
                        EType::Ship | EType::HQ | EType::Mine => {
                            others.remove(i);
                            helm.alive = false;
                            helm.done = true;
                            helm.events.push(
                                match kind {
                                    EType::Ship => NavEvent::RammedShip,
                                    EType::HQ => NavEvent::RammedHQ,
                                    _ => NavEvent::HitMine,
                                },
                            );
                        },
                        EType::Monster => {
                            let r = dice.roll(100);
                            others.remove(i);
                            if r >= MONSTER_SPARES_PERCENT {
                                helm.alive = false;
                                helm.done = true;
                                helm.events.push(NavEvent::EatenByMonster);
                            } else {
                                helm.events.push(NavEvent::RammedMonster);
                            }
                            proof {
                                let h1 = dice.history();
                                assert(h1.drop_last() =~= h0);
                                lemma_drawn_one(h0, h1);
                                assert forall|x: Seq<u32>|
                                    #[trigger] next_roll(drawn(h0, h1) + x) == (r, x) by {
                                    lemma_next_roll_front(r, x);
                                }
                            }
                        },
                        EType::Player => {
                            helm.done = true;
                        },
                    }
                    proof {
                        if kind != EType::Monster {
                            assert forall|x: Seq<u32>| drawn(h0, dice.history()) + x == x by {
                                assert(drawn(h0, dice.history()) + x =~= x);
                            }
                        }
                    }
                },
                None => {
                    let (eaten, nearby) = nearby_monsters(others, d.x, d.y, dice);
                    helm.pos = d;
                    if eaten {
                        helm.alive = false;
                        helm.done = true;
                        helm.events.push(NavEvent::EatenNearby);
                    } else if nearby {
                        helm.events.push(NavEvent::NarrowEscape);
                    }
                },
            }
        },
    }
}

/// The player's voyage: up to `range` cells heading `(dx, dy)` from where it
/// stands, each costing `POWER_PER_CELL` power (down to 0). The voyage ends at
/// the edge of the grid or an island; ramming a ship, the headquarters or a mine
/// sinks both; a rammed sea monster dies, or eats the player unless a roll falls
/// under `MONSTER_SPARES_PERCENT`; after each move the sea monsters close by may
/// eat the player. A surviving player ends at its last cell, at the back of the
/// collection; what was destroyed is taken out.
pub fn navigate(
    entities: &mut EntityColl,
    dx: i8,
    dy: i8,
    range: u32,
    power: u32,
    width: usize,
    height: usize,
    dice: &mut Dice,
) -> (r: Result<Voyage, NavError>)
    ensures
        first_of(old(entities)@, EType::Player) is None ==> {
            &&& r == Err::<Voyage, NavError>(NavError::NoPlayer)
            &&& final(entities)@ == old(entities)@
            &&& final(dice).history() == old(dice).history()
        },
        first_of(old(entities)@, EType::Player) matches Some(i) ==> {
            let player = old(entities)@[i];
            let others = old(entities)@.remove(i);
            if first_of(others, EType::Player) is Some {
                &&& r == Err::<Voyage, NavError>(NavError::SecondPlayer)
                &&& final(entities)@ == old(entities)@
                &&& final(dice).history() == old(dice).history()
            } else {
                &&& r is Ok
                &&& old(dice).history().is_prefix_of(final(dice).history())
                &&& forall|x: Seq<u32>|
                    {
                        let t = #[trigger] voyage(
                            width,
                            height,
                            dx,
                            dy,
                            embark(
                                player,
                                others,
                                power,
                                drawn(old(dice).history(), final(dice).history()) + x,
                            ),
                            range as nat,
                        );
                        &&& r matches Ok(v) && t.pos == v.pos && t.alive == v.alive && t.power
                            == v.power && t.events == v.events@
                        &&& t.rest == x
                        &&& final(entities)@ == landed(t, player)
                    }
            }
        },
{
    let i = match first_index_of(entities, EType::Player) {
        Some(i) => i,
        None => {
            return Err(NavError::NoPlayer);
        },
    };
    let ghost all = entities@;
    let player = match entities.remove(i) {
        Some(p) => p,
        None => {
            return Err(NavError::NoPlayer);
        },
    };
    if get_first_pos(entities, EType::Player).is_some() {
        entities.insert(i, player);
        assert(entities@ =~= all);
        return Err(NavError::SecondPlayer);
    }
    let ghost others = entities@;
    let ghost h0 = dice.history();
    proof {
        lemma_drawn_none(h0);
        assert forall|x: Seq<u32>| drawn(h0, dice.history()) + x == x by {
            assert(drawn(h0, dice.history()) + x =~= x);
        }
    }
    let mut helm = Helm { pos: player.pos, power, alive: true, done: false, events: Vec::new() };
    proof {
        assert(helm.events@ =~= Seq::<NavEvent>::empty());
    }
    let mut step: u32 = 0;
    while step < range && !helm.done
        invariant
            step <= range,
            h0 == old(dice).history(),
            h0.is_prefix_of(dice.history()),
            forall|x: Seq<u32>|
                #[trigger] voyage(
                    width,
                    height,
                    dx,
                    dy,
                    embark(player, others, power, drawn(h0, dice.history()) + x),
                    range as nat,
                ) == voyage(width, height, dx, dy, helm.trip(entities@, x), (range - step) as nat),
        decreases range - step,
    {
        let ghost b = helm;
        let ghost o = entities@;
        let ghost h1 = dice.history();
        take_leg(&mut helm, entities, dx, dy, width, height, dice);
        proof {
            let h2 = dice.history();
            lemma_drawn_concat(h0, h1, h2);
            assert forall|x: Seq<u32>|
                #[trigger] voyage(
                    width,
                    height,
                    dx,
                    dy,
                    embark(player, others, power, drawn(h0, h2) + x),
                    range as nat,
                ) == voyage(width, height, dx, dy, helm.trip(entities@, x), (range - step - 1) as nat) by {
                let y = drawn(h1, h2) + x;
                assert(drawn(h0, h2) + x =~= drawn(h0, h1) + y);
                assert(leg(width, height, dx, dy, b.trip(o, y)) == helm.trip(entities@, x));
            }
        }
        step = step + 1;
    }
    let alive = helm.alive;
    let pos = helm.pos;
    if alive {
        entities.push_back(Entity { pos, ..player });
    }
    Ok(Voyage { pos, alive, power: helm.power, events: helm.events })
}

} // verus!
