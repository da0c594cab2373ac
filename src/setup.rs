use vstd::prelude::*;
use vstd::set_lib::{lemma_int_range, lemma_len_subset, lemma_map_size_bound, set_int_range};

use crate::dice::Dice;
use crate::entity::{check_collision, occupied, EType, Entity, EntityColl, Intent};
use crate::grid::{Position, HEIGHT, WIDTH};
use crate::resolver::{distinct_cells, lemma_push_distinct};

verus! {

/// The number of cells of the grid.
pub const CELLS: usize = WIDTH * HEIGHT;

/// Cell number `k` of the grid, counting row by row.
pub open spec fn cell(k: int) -> Position {
    Position { x: (k % WIDTH as int) as usize, y: (k / WIDTH as int) as usize }
}

/// The free cells among the first `k`, in order.
pub open spec fn free_cells(s: Seq<Entity>, k: nat) -> Seq<Position>
    decreases k,
{
    if k == 0 {
        Seq::empty()
    } else if occupied(s, cell(k - 1)) {
        free_cells(s, (k - 1) as nat)
    } else {
        free_cells(s, (k - 1) as nat).push(cell(k - 1))
    }
}

/// The cell lies on the grid.
pub open spec fn on_grid(p: Position) -> bool {
    p.x < WIDTH && p.y < HEIGHT
}

/// Fewer entities than cells leave a cell free.
pub proof fn lemma_free_cell_exists(s: Seq<Entity>)
    requires
        s.len() < CELLS,
    ensures
        exists|k: int| 0 <= k < CELLS && !occupied(s, #[trigger] cell(k)),
{
    if forall|k: int| 0 <= k < CELLS ==> occupied(s, #[trigger] cell(k)) {
        let f = |i: int| s[i].pos.y * WIDTH + s[i].pos.x;
        let idx = set_int_range(0, s.len() as int);
        let all = set_int_range(0, CELLS as int);
        let img = idx.map(f);
        lemma_int_range(0, s.len() as int);
        lemma_int_range(0, CELLS as int);
        lemma_map_size_bound(idx, img, f);
        assert forall|k: int| all.contains(k) implies img.contains(k) by {
            assert(occupied(s, cell(k)));
            let i = choose|i: int| 0 <= i < s.len() && s[i].pos == cell(k);
            assert(f(i) == k);
            assert(idx.contains(i));
        }
        lemma_len_subset(all, img);
    }
}

/// A cell picked uniformly among the free ones, holding a new static entity of
/// kind `etype`; `None` when every cell is taken, and then nothing is drawn.
pub fn place_random(entities: &EntityColl, dice: &mut Dice, etype: EType) -> (r: Option<Entity>)
    ensures
        r is None <==> free_cells(entities@, CELLS as nat).len() == 0,
        r is None ==> final(dice).history() == old(dice).history(),
        entities@.len() < CELLS ==> r is Some,
        r matches Some(e) ==> {
            &&& final(dice).history().len() == old(dice).history().len() + 1
            &&& final(dice).history().drop_last() == old(dice).history()
            &&& final(dice).history().last() < free_cells(entities@, CELLS as nat).len()
            &&& e == Entity::new_spec(
                free_cells(entities@, CELLS as nat)[final(dice).history().last() as int],
                etype,
            )
            &&& on_grid(e.pos)
            &&& !occupied(entities@, e.pos)
        },
{
    let mut free: Vec<Position> = Vec::new();
    let mut k: usize = 0;
    while k < CELLS
        invariant
            k <= CELLS,
            free@ == free_cells(entities@, k as nat),
            forall|j: int| 0 <= j < free@.len() ==> on_grid(#[trigger] free@[j]) && !occupied(entities@, free@[j]),
            free@.len() == 0 ==> forall|m: int| 0 <= m < k ==> occupied(entities@, #[trigger] cell(m)),
            free@.len() <= k,
        decreases CELLS - k,
    {
        let p = Position { x: k % WIDTH, y: k / WIDTH };
        assert(p == cell(k as int));
        if !check_collision(entities, p.x, p.y) {
            free.push(p);
        }
        k = k + 1;
    }
    proof {
        if entities@.len() < CELLS {
            lemma_free_cell_exists(entities@);
        }
    }
    if free.len() == 0 {
        return None;
    }
    let roll = dice.roll(free.len() as u32);
    proof {
        assert(dice.history().drop_last() =~= old(dice).history());
    }
    let p = free[roll as usize];
    Some(Entity::new(p.x, p.y, etype))
}

/// Column of the island chart's top left corner on the grid.
pub const ISLAND_X: usize = 7;

/// Row of the island chart's top left corner on the grid.
pub const ISLAND_Y: usize = 7;

/// Columns of the island chart.
pub const ISLAND_COLS: usize = 6;

/// Rows of the island chart.
pub const ISLAND_ROWS: usize = 7;

/// Column where the player starts.
pub const START_X: usize = 10;

/// Row where the player starts.
pub const START_Y: usize = 10;

/// The island chart: whether column `col`, row `row` of it is land.
pub open spec fn land(col: int, row: int) -> bool {
    0 <= col < 6 && if row == 0 {
        1 <= col <= 3
    } else if row == 1 {
        1 <= col <= 4
    } else if row == 2 {
        col != 3
    } else if row == 3 {
        col <= 1 || col == 5
    } else if row == 4 {
        col <= 1 || col >= 4
    } else if row == 5 {
        col == 1 || col == 2 || col == 4
    } else if row == 6 {
        col == 2
    } else {
        false
    }
}

fn is_land(col: usize, row: usize) -> (r: bool)
    ensures
        r == land(col as int, row as int),
{
    col < 6 && if row == 0 {
        1 <= col && col <= 3
    } else if row == 1 {
        1 <= col && col <= 4
    } else if row == 2 {
        col != 3
    } else if row == 3 {
        col <= 1 || col == 5
    } else if row == 4 {
        col <= 1 || col >= 4
    } else if row == 5 {
        col == 1 || col == 2 || col == 4
    } else if row == 6 {
        col == 2
    } else {
        false
    }
}

/// The islands of the first `k` cells of the chart, row by row.
pub open spec fn islands(k: nat) -> Seq<Entity>
    decreases k,
{
    if k == 0 {
        Seq::empty()
    } else {
        let col = (k - 1) % ISLAND_COLS as int;
        let row = (k - 1) / ISLAND_COLS as int;
        if land(col, row) {
            islands((k - 1) as nat).push(
                Entity::new_spec(
                    Position { x: (ISLAND_X + col) as usize, y: (ISLAND_Y + row) as usize },
                    EType::Island,
                ),
            )
        } else {
            islands((k - 1) as nat)
        }
    }
}

/// The fixed part of the map: the islands, then the player.
pub open spec fn chart() -> Seq<Entity> {
    islands((ISLAND_COLS * ISLAND_ROWS) as nat).push(
        Entity::new_spec(Position { x: START_X, y: START_Y }, EType::Player),
    )
}

/// Entities `from..to` of `s` are of kind `k`, each with a valid intent when
/// `moving` and with none otherwise.
pub open spec fn fleet(s: Seq<Entity>, from: int, to: int, k: EType, moving: bool) -> bool {
    forall|j: int|
        from <= j < to ==> (#[trigger] s[j]).etype == k && if moving {
            s[j].intent matches Some(v) && v.is_valid()
        } else {
            s[j].intent is None
        }
}

/// Fewest enemy ships.
pub const MIN_SHIPS: usize = 15;

/// Most enemy ships.
pub const MAX_SHIPS: usize = 30;

/// Fewest mines.
pub const MIN_MINES: usize = 8;

/// Most mines.
pub const MAX_MINES: usize = 14;

/// Sea monsters at the start.
pub const MONSTERS: usize = 4;

/// Places entities of kind `etype` on free cells, appending them; movers get a fresh intent.
fn deploy(v: &mut EntityColl, count: usize, etype: EType, moving: bool, dice: &mut Dice)
    requires
        old(v)@.len() + count < CELLS,
        distinct_cells(old(v)@),
        forall|j: int| 0 <= j < old(v)@.len() ==> on_grid(#[trigger] old(v)@[j].pos),
    ensures
        final(v)@.len() == old(v)@.len() + count,
        final(v)@.subrange(0, old(v)@.len() as int) == old(v)@,
        distinct_cells(final(v)@),
        forall|j: int| 0 <= j < final(v)@.len() ==> on_grid(#[trigger] final(v)@[j].pos),
        fleet(final(v)@, old(v)@.len() as int, final(v)@.len() as int, etype, moving),
{
    let ghost start = v@;
    let mut i: usize = 0;
    while i < count
        invariant
            i <= count,
            start.len() + count < CELLS,
            v@.len() == start.len() + i,
            v@.subrange(0, start.len() as int) == start,
            distinct_cells(v@),
            forall|j: int| 0 <= j < v@.len() ==> on_grid(#[trigger] v@[j].pos),
            fleet(v@, start.len() as int, v@.len() as int, etype, moving),
        decreases count - i,
    {
        let ghost before = v@;
        if let Some(e) = place_random(v, dice, etype) {
            let e = if moving {
                Entity { intent: Some(Intent::new_vel(dice)), ..e }
            } else {
                e
            };
            proof {
                assert forall|j: int| 0 <= j < before.len() implies (#[trigger] before[j]).pos != e.pos by {
                    assert(!occupied(before, e.pos));
                }
                lemma_push_distinct(before, e);
            }
            v.push_back(e);
            proof {
                assert(v@.subrange(0, start.len() as int) =~= before.subrange(0, start.len() as int));
            }
        }
        i = i + 1;
    }
}

/// After the chart, `ships` moving enemy ships, the headquarters, `mines`
/// mines and `MONSTERS` moving sea monsters, in that order, and nothing else.
pub open spec fn layout(s: Seq<Entity>, ships: int, mines: int) -> bool {
    let base = chart().len() as int;
    let hq = base + ships;
    let m0 = hq + 1;
    let s0 = m0 + mines;
    &&& MIN_SHIPS <= ships <= MAX_SHIPS
    &&& MIN_MINES <= mines <= MAX_MINES
    &&& s.len() == s0 + MONSTERS
    &&& fleet(s, base, hq, EType::Ship, true)
    &&& fleet(s, hq, m0, EType::HQ, false)
    &&& fleet(s, m0, s0, EType::Mine, false)
    &&& fleet(s, s0, s0 + MONSTERS, EType::Monster, true)
}

/// A new map: the islands of the chart and the player, then between
/// `MIN_SHIPS` and `MAX_SHIPS` moving enemy ships, the headquarters, between
/// `MIN_MINES` and `MAX_MINES` mines and `MONSTERS` moving sea monsters, each on a
/// free cell picked at random.
pub fn setup(dice: &mut Dice) -> (r: EntityColl)
    ensures
        r@.len() >= chart().len(),
        r@.subrange(0, chart().len() as int) == chart(),
        distinct_cells(r@),
        forall|j: int| 0 <= j < r@.len() ==> on_grid(#[trigger] r@[j].pos),
        exists|ships: int, mines: int| #[trigger] layout(r@, ships, mines),
{
    let mut v = EntityColl::new();
    let mut k: usize = 0;
    while k < ISLAND_COLS * ISLAND_ROWS
        invariant
            k <= ISLAND_COLS * ISLAND_ROWS,
            v@ == islands(k as nat),
            distinct_cells(v@),
            forall|j: int|
                0 <= j < v@.len() ==> {
                    let p = (#[trigger] v@[j]).pos;
                    &&& ISLAND_X <= p.x < ISLAND_X + ISLAND_COLS
                    &&& ISLAND_Y <= p.y < ISLAND_Y + ISLAND_ROWS
                    &&& (p.y - ISLAND_Y) * ISLAND_COLS + (p.x - ISLAND_X) < k
                    &&& land(p.x - ISLAND_X, p.y - ISLAND_Y)
                },
            v@.len() <= k,
        decreases ISLAND_COLS * ISLAND_ROWS - k,
    {
        let col = k % ISLAND_COLS;
        let row = k / ISLAND_COLS;
        if is_land(col, row) {
            let e = Entity::new(ISLAND_X + col, ISLAND_Y + row, EType::Island);
            proof {
                assert forall|j: int| 0 <= j < v@.len() implies (#[trigger] v@[j]).pos != e.pos by {}
                lemma_push_distinct(v@, e);
            }
            v.push_back(e);
        }
        k = k + 1;
    }
    let player = Entity::new(START_X, START_Y, EType::Player);
    proof {
        assert forall|j: int| 0 <= j < v@.len() implies (#[trigger] v@[j]).pos != player.pos by {}
        lemma_push_distinct(v@, player);
    }
    v.push_back(player);
    assert(v@ == chart());
    let ghost base = v@.len() as int;
    let ships = MIN_SHIPS + dice.roll((MAX_SHIPS - MIN_SHIPS + 1) as u32) as usize;
    deploy(&mut v, ships, EType::Ship, true, dice);
    let ghost v1 = v@;
    deploy(&mut v, 1, EType::HQ, false, dice);
    let ghost v2 = v@;
    let mines = MIN_MINES + dice.roll((MAX_MINES - MIN_MINES + 1) as u32) as usize;
    deploy(&mut v, mines, EType::Mine, false, dice);
    let ghost v3 = v@;
    deploy(&mut v, MONSTERS, EType::Monster, true, dice);
    proof {
        let hq = base + ships;
        let m0 = hq + 1;
        let s0 = m0 + mines;
        assert(v@.subrange(0, base) =~= chart());
        assert(fleet(v@, base, hq, EType::Ship, true)) by {
            assert forall|j: int| base <= j < hq implies #[trigger] v@[j] == v1[j] by {
                assert(v@.subrange(0, v3.len() as int)[j] == v3[j]);
                assert(v3.subrange(0, v2.len() as int)[j] == v2[j]);
                assert(v2.subrange(0, v1.len() as int)[j] == v1[j]);
            }
        }
        assert(fleet(v@, hq, m0, EType::HQ, false)) by {
            assert forall|j: int| hq <= j < m0 implies #[trigger] v@[j] == v2[j] by {
                assert(v@.subrange(0, v3.len() as int)[j] == v3[j]);
                assert(v3.subrange(0, v2.len() as int)[j] == v2[j]);
            }
        }
        assert(fleet(v@, m0, s0, EType::Mine, false)) by {
            assert forall|j: int| m0 <= j < s0 implies #[trigger] v@[j] == v3[j] by {
                assert(v@.subrange(0, v3.len() as int)[j] == v3[j]);
            }
        }
        assert(layout(v@, ships as int, mines as int));
    }
    v
}

} // verus!
