use vstd::prelude::*;

use crate::entity::{count_kind, first_at, occupant_at, EType, Entity, EntityColl};
use crate::grid::{box_gap, cell_after, Position};

verus! {

/// How far, along each axis, a missile's blast reaches.
pub const MISSILE_REACH: usize = 2;

/// Pounds of fuel that carry a missile one cell.
pub const FUEL_PER_CELL: u32 = 75;

/// Whether `e` is caught in a blast centred on `p`.
pub open spec fn in_blast(e: Entity, p: Position) -> bool {
    box_gap(e.pos, p) <= MISSILE_REACH
}

/// The entities of `s` outside a blast centred on `p`, in order.
pub open spec fn spared(s: Seq<Entity>, p: Position) -> Seq<Entity>
    decreases s.len(),
{
    if s.len() == 0 {
        s
    } else if in_blast(s.last(), p) {
        spared(s.drop_last(), p)
    } else {
        spared(s.drop_last(), p).push(s.last())
    }
}

/// The entities of `s` caught in a blast centred on `p`, in order.
pub open spec fn blasted(s: Seq<Entity>, p: Position) -> Seq<Entity>
    decreases s.len(),
{
    if s.len() == 0 {
        s
    } else if in_blast(s.last(), p) {
        blasted(s.drop_last(), p).push(s.last())
    } else {
        blasted(s.drop_last(), p)
    }
}

/// What a missile destroyed, by kind.
pub struct Blast {
    pub monsters: usize,
    pub ships: usize,
    pub mines: usize,
    pub islands: usize,
    /// The player was caught in the blast.
    pub player: bool,
    /// The headquarters was caught in the blast.
    pub hq: bool,
}

/// The cells a missile flies for `fuel` pounds: `fuel / FUEL_PER_CELL`, rounded
/// to the nearest whole cell.
pub fn missile_range(fuel: u32) -> (r: u32)
    ensures
        r == (fuel + 37) / 75,
{
    (fuel / FUEL_PER_CELL) + if fuel % FUEL_PER_CELL >= 38 {
        1
    } else {
        0
    }
}

/// Where a missile fired from `from` heading `(dx, dy)` comes down after `range`
/// cells, or `None` when that is off the grid.
pub open spec fn landing(from: Position, dx: i8, dy: i8, range: u32, width: usize, height: usize) -> Option<Position> {
    let x = from.x + dx * range;
    let y = from.y + dy * range;
    if 0 <= x < width && 0 <= y < height {
        Some(Position { x: x as usize, y: y as usize })
    } else {
        None
    }
}

/// Where a missile comes down, when that is on the grid.
pub fn missile_target(from: Position, dx: i8, dy: i8, range: u32, width: usize, height: usize) -> (r:
    Option<Position>)
    ensures
        r == landing(from, dx, dy, range, width, height),
{
    let x = reach(from.x, dx, range, width);
    let y = reach(from.y, dy, range, height);
    match (x, y) {
        (Some(x), Some(y)) => Some(Position { x, y }),
        _ => None,
    }
}

fn reach(c: usize, d: i8, range: u32, limit: usize) -> (r: Option<usize>)
    ensures
        r == (if 0 <= c + d * range < limit {
            Some((c + d * range) as usize)
        } else {
            None::<usize>
        }),
{
    assert(-128 * 0x1_0000_0000 <= d * range <= 127 * 0x1_0000_0000) by (nonlinear_arith)
        requires
            -128 <= d <= 127,
            0 <= range < 0x1_0000_0000,
    ;
    let v: i128 = c as i128 + (d as i128) * (range as i128);
    if 0 <= v && v < limit as i128 {
        Some(v as usize)
    } else {
        None
    }
}

proof fn lemma_blast_len(s: Seq<Entity>, p: Position)
    ensures
        spared(s, p).len() + blasted(s, p).len() == s.len(),
    decreases s.len(),
{
    if s.len() > 0 {
        lemma_blast_len(s.drop_last(), p);
    }
}

/// A missile coming down on `(x, y)`: every entity within `MISSILE_REACH` along
/// both axes is destroyed, the others stay in their order, and the report counts
/// what was destroyed.
pub fn resolve_missile(x: usize, y: usize, entities: &mut EntityColl) -> (r: Blast)
    ensures
        final(entities)@ == spared(old(entities)@, Position { x, y }),
        r.monsters == count_kind(blasted(old(entities)@, Position { x, y }), EType::Monster),
        r.ships == count_kind(blasted(old(entities)@, Position { x, y }), EType::Ship),
        r.mines == count_kind(blasted(old(entities)@, Position { x, y }), EType::Mine),
        r.islands == count_kind(blasted(old(entities)@, Position { x, y }), EType::Island),
        r.player == (count_kind(blasted(old(entities)@, Position { x, y }), EType::Player) > 0),
        r.hq == (count_kind(blasted(old(entities)@, Position { x, y }), EType::HQ) > 0),
{
    let pos = Position { x, y };
    let ghost s = entities@;
    let mut kept = EntityColl::new();
    let mut r = Blast { monsters: 0, ships: 0, mines: 0, islands: 0, player: false, hq: false };
    let mut i: usize = 0;
    while i < entities.len()
        invariant
            s == entities@,
            pos == (Position { x, y }),
            i <= s.len(),
            kept@ == spared(s.take(i as int), pos),
            r.monsters == count_kind(blasted(s.take(i as int), pos), EType::Monster),
            r.ships == count_kind(blasted(s.take(i as int), pos), EType::Ship),
            r.mines == count_kind(blasted(s.take(i as int), pos), EType::Mine),
            r.islands == count_kind(blasted(s.take(i as int), pos), EType::Island),
            r.player == (count_kind(blasted(s.take(i as int), pos), EType::Player) > 0),
            r.hq == (count_kind(blasted(s.take(i as int), pos), EType::HQ) > 0),
            blasted(s.take(i as int), pos).len() <= i,
        decreases s.len() - i,
    {
        let e = entities[i];
        proof {
            let t = s.take(i + 1);
            assert(t.drop_last() =~= s.take(i as int));
            assert(t.last() == e);
            lemma_blast_len(s.take(i as int), pos);
            crate::entity::lemma_count_bound(blasted(s.take(i as int), pos), e.etype);
            let b = blasted(s.take(i as int), pos);
            assert(b.push(e).drop_last() =~= b);
        }
        if e.pos.within_range(&pos, MISSILE_REACH) {
            match e.etype {
                EType::Monster => r.monsters = r.monsters + 1,
                EType::Ship => r.ships = r.ships + 1,
                EType::Mine => r.mines = r.mines + 1,
                EType::Island => r.islands = r.islands + 1,
                EType::Player => r.player = true,
                EType::HQ => r.hq = true,
            }
        } else {
            kept.push_back(e);
        }
        i = i + 1;
    }
    proof {
        assert(s.take(i as int) =~= s);
    }
    *entities = kept;
    r
}

/// The cells a torpedo runs: 7 less the roll modulo 8 halved and rounded up (3
/// to 7, the middle values twice as likely as the ends for a uniform roll), and
/// 5 more below a depth of 50.
pub fn torpedo_range(roll: u32, depth: i32) -> (r: u32)
    ensures
        r == 7 - (roll % 8 + 1) / 2 + if depth > 50 {
            5int
        } else {
            0int
        },
{
    let base = 7 - (roll % 8 + 1) / 2;
    if depth > 50 {
        base + 5
    } else {
        base
    }
}

/// How a torpedo run ended.
#[derive(Clone, Copy, Debug, PartialEq, Eq, Structural)]
pub enum TorpedoRun {
    /// It left the grid.
    OutOfRange,
    /// It hit an entity of this kind.
    Hit(EType),
    /// It ran its whole range and hit nothing.
    Dud,
}

/// The first entity on the torpedo's path, up to `range` cells from `from`
/// heading `(dx, dy)`, or how the run ended without one.
pub open spec fn torpedo_path(
    s: Seq<Entity>,
    from: Position,
    dx: i8,
    dy: i8,
    range: nat,
    width: usize,
    height: usize,
) -> (TorpedoRun, Option<int>)
    decreases range,
{
    if range == 0 {
        (TorpedoRun::Dud, None)
    } else {
        match cell_after(from, dx, dy, width, height) {
            None => (TorpedoRun::OutOfRange, None),
            Some(d) => match first_at(s, d) {
                Some(i) => (TorpedoRun::Hit(s[i].etype), Some(i)),
                None => torpedo_path(s, d, dx, dy, (range - 1) as nat, width, height),
            },
        }
    }
}

/// What a torpedo leaves: the entity it hit is destroyed, unless it is a mine
/// or a sea monster (the torpedo is wasted on a mine, a monster eats it), which
/// moves to the back of the collection.
pub open spec fn after_torpedo(s: Seq<Entity>, hit: Option<int>) -> Seq<Entity> {
    match hit {
        Some(i) => if s[i].etype == EType::Mine || s[i].etype == EType::Monster || s[i].etype
            == EType::Player {
            s.remove(i).push(s[i])
        } else {
            s.remove(i)
        },
        None => s,
    }
}

/// A torpedo fired from `from` heading `(dx, dy)` for `range` cells: it stops at
/// the edge of the grid or on the first entity in its way. An island, a ship or
/// the headquarters it hits is destroyed; a mine or a sea monster survives, as
/// does a player, which it can hit only when two are on the map.
pub fn fire_torpedo(
    entities: &mut EntityColl,
    from: Position,
    dx: i8,
    dy: i8,
    range: u32,
    width: usize,
    height: usize,
) -> (r: TorpedoRun)
    ensures
        r == torpedo_path(old(entities)@, from, dx, dy, range as nat, width, height).0,
        final(entities)@ == after_torpedo(
            old(entities)@,
            torpedo_path(old(entities)@, from, dx, dy, range as nat, width, height).1,
        ),
{
    let ghost s = entities@;
    let mut at = from;
    let mut left = range;
    while left > 0
        invariant
            s == entities@,
            s == old(entities)@,
            torpedo_path(s, from, dx, dy, range as nat, width, height) == torpedo_path(
                s,
                at,
                dx,
                dy,
                left as nat,
                width,
                height,
            ),
        decreases left,
    {
        match at.step(dx, dy, width, height) {
            None => {
                assert(torpedo_path(s, at, dx, dy, left as nat, width, height) == (
                    TorpedoRun::OutOfRange,
                    None::<int>,
                ));
                return TorpedoRun::OutOfRange;
            },
            Some(d) => {
                if let Some(i) = occupant_at(entities, d.x, d.y) {
                    let kind = entities[i].etype;
                    resolve_torpedo(entities, i);
                    return TorpedoRun::Hit(kind);
                }
                at = d;
            },
        }
        left = left - 1;
    }
    TorpedoRun::Dud
}

/// What the torpedo does to entity `i`, which it hit; nothing when there is no
/// entity `i`.
pub fn resolve_torpedo(entities: &mut EntityColl, i: usize)
    ensures
        i < old(entities)@.len() ==> final(entities)@ == after_torpedo(old(entities)@, Some(i as int)),
        i >= old(entities)@.len() ==> final(entities)@ == old(entities)@,
{
    if let Some(e) = entities.remove(i) {
        match e.etype {
            EType::Mine | EType::Monster | EType::Player => entities.push_back(e),
            _ => {},
        }
    }
}

} // verus!
