use vstd::prelude::*;

use crate::dice::{
    change_direction, drawn, lemma_drawn_concat, lemma_drawn_none, lemma_drawn_one,
    lemma_next_roll_front, next_roll, redirect, Dice,
};
use crate::entity::{
    check_collision, first_at, occupant_at, occupied, EType, Entity, EntityColl, Intent,
};
use crate::grid::{cell_after, Position};
use crate::laws::lemma_outcome_laws;
use crate::outcome::{
    is_mover_kind, needs_roll, resolve_collision, verdict, EResolution, ResolveError,
};

verus! {

/// The working state of a tick between two move attempts: the settled entities,
/// the pending queue, whether the player or the headquarters was destroyed, how
/// many entities were destroyed, and the rolls not yet used.
pub ghost struct Round {
    pub settled: Seq<Entity>,
    pub queue: Seq<Entity>,
    pub crushed: bool,
    pub destroyed: nat,
    pub rest: Seq<u32>,
}

/// The result of a whole tick: the entities left, whether the player or the
/// headquarters was destroyed, how many entities were destroyed, how many passes
/// ran, whether the tick ended in a stalemate, and the rolls not used.
pub ghost struct Resolution {
    pub entities: Seq<Entity>,
    pub crushed: bool,
    pub destroyed: nat,
    pub passes: nat,
    pub stalemate: bool,
    pub rest: Seq<u32>,
}

/// The intent of a mover; a static entity stands still.
pub open spec fn intent_of(e: Entity) -> Intent {
    match e.intent {
        Some(v) => v,
        None => Intent { dx: 0i8, dy: 0i8 },
    }
}

/// `e` standing on `d`.
pub open spec fn moved_to(e: Entity, d: Position) -> Entity {
    Entity { pos: d, ..e }
}

/// One move attempt of `e`, taken off the front of the queue, against the round `r`.
pub open spec fn attempt(width: usize, height: usize, r: Round, e: Entity) -> Round {
    let v = intent_of(e);
    match cell_after(e.pos, v.dx, v.dy, width, height) {
        None => {
            let (k, rest) = next_roll(r.rest);
            Round { settled: r.settled.push(redirect(e, k)), rest, ..r }
        },
        Some(d) => if occupied(r.queue, d) {
            Round { queue: r.queue.push(e), ..r }
        } else {
            match first_at(r.settled, d) {
                None => Round { settled: r.settled.push(moved_to(e, d)), ..r },
                Some(i) => {
                    let o = r.settled[i];
                    let (roll, t1) = if needs_roll(e.etype, o.etype) {
                        next_roll(r.rest)
                    } else {
                        (0u32, r.rest)
                    };
                    match verdict(e.etype, o.etype, roll) {
                        EResolution::CrasheeDestroyed => Round {
                            settled: r.settled.remove(i).push(moved_to(e, d)),
                            crushed: r.crushed || o.etype == EType::Player || o.etype
                                == EType::HQ,
                            destroyed: r.destroyed + 1,
                            rest: t1,
                            ..r
                        },
                        EResolution::MoverDestroyed => Round {
                            destroyed: r.destroyed + 1,
                            rest: t1,
                            ..r
                        },
                        EResolution::MoverChangeDirection => {
                            let (k, t2) = next_roll(t1);
                            Round { queue: r.queue.push(redirect(e, k)), rest: t2, ..r }
                        },
                    }
                },
            }
        },
    }
}

/// The next `left` attempts of a pass, each on the entity at the front of the queue.
pub open spec fn run_pass(width: usize, height: usize, r: Round, left: nat) -> Round
    decreases left,
{
    if left == 0 || r.queue.len() == 0 {
        r
    } else {
        run_pass(
            width,
            height,
            attempt(width, height, Round { queue: r.queue.drop_first(), ..r }, r.queue[0]),
            (left - 1) as nat,
        )
    }
}

/// The end of a stalemate: each entity still pending, in queue order, takes a
/// fresh direction and is settled where it stands.
pub open spec fn settle_all(r: Round) -> Round
    decreases r.queue.len(),
{
    if r.queue.len() == 0 {
        r
    } else {
        let (k, rest) = next_roll(r.rest);
        settle_all(
            Round {
                settled: r.settled.push(redirect(r.queue[0], k)),
                queue: r.queue.drop_first(),
                rest,
                ..r
            },
        )
    }
}

/// The result read off a finished round.
pub open spec fn finish(r: Round, passes: nat, stalemate: bool) -> Resolution {
    Resolution {
        entities: r.settled,
        crushed: r.crushed,
        destroyed: r.destroyed,
        passes,
        stalemate,
        rest: r.rest,
    }
}

/// Passes until the queue is empty, or until a pass that leaves as many pending
/// as it started with (a stalemate); `passes` have run so far.
pub open spec fn resolve_from(width: usize, height: usize, r: Round, passes: nat) -> Resolution
    decreases r.queue.len(),
{
    if r.queue.len() == 0 {
        finish(r, passes, false)
    } else {
        let n = r.queue.len();
        let r2 = run_pass(width, height, r, n);
        if r2.queue.len() >= n {
            finish(settle_all(r2), passes + 1, true)
        } else {
            resolve_from(width, height, r2, passes + 1)
        }
    }
}

/// What follows a pass that started with `n` pending and left the round `r2`;
/// `passes` counts it.
pub open spec fn after_pass(width: usize, height: usize, r2: Round, n: nat, passes: nat) -> Resolution {
    if r2.queue.len() >= n {
        finish(settle_all(r2), passes, true)
    } else {
        resolve_from(width, height, r2, passes)
    }
}

/// The entities of `input` appended to `settled` when they have no intent and to
/// `movers` when they have one, in order.
pub open spec fn split(settled: Seq<Entity>, movers: Seq<Entity>, input: Seq<Entity>) -> (Seq<
    Entity,
>, Seq<Entity>)
    decreases input.len(),
{
    if input.len() == 0 {
        (settled, movers)
    } else if input[0].intent is None {
        split(settled.push(input[0]), movers, input.drop_first())
    } else {
        split(settled, movers.push(input[0]), input.drop_first())
    }
}

/// The round a tick starts from: static entities settled, movers pending in input order.
pub open spec fn start(entities: Seq<Entity>, tape: Seq<u32>) -> Round {
    let (s, m) = split(Seq::empty(), Seq::empty(), entities);
    Round { settled: s, queue: m, crushed: false, destroyed: 0, rest: tape }
}

/// One tick of movement over `entities` on a `width` × `height` grid, drawing its
/// rolls from the front of `tape`.
pub open spec fn tick(entities: Seq<Entity>, width: usize, height: usize, tape: Seq<u32>) -> Resolution {
    resolve_from(width, height, start(entities, tape), 0)
}

/// Every entity with an intent is of a moving kind.
pub open spec fn movers_ok(s: Seq<Entity>) -> bool {
    forall|j: int| 0 <= j < s.len() && #[trigger] s[j].intent is Some ==> is_mover_kind(s[j].etype)
}

/// The number of entities with an intent.
pub open spec fn mover_count(s: Seq<Entity>) -> nat {
    split(Seq::empty(), Seq::empty(), s).1.len()
}

/// Every pair of entities of `s` stands on two different cells.
pub open spec fn distinct_cells(s: Seq<Entity>) -> bool {
    forall|i: int, j: int|
        0 <= i < s.len() && 0 <= j < s.len() && i != j ==> #[trigger] s[i].pos != #[trigger] s[j].pos
}

/// No entity of `a` stands on the cell of an entity of `b`.
pub open spec fn apart(a: Seq<Entity>, b: Seq<Entity>) -> bool {
    forall|i: int, j: int|
        0 <= i < a.len() && 0 <= j < b.len() ==> #[trigger] a[i].pos != #[trigger] b[j].pos
}

/// A cell free in `s` stays apart from all of it once appended.
pub proof fn lemma_push_distinct(s: Seq<Entity>, x: Entity)
    requires
        distinct_cells(s),
        forall|i: int| 0 <= i < s.len() ==> (#[trigger] s[i]).pos != x.pos,
    ensures
        distinct_cells(s.push(x)),
{
    let s1 = s.push(x);
    assert forall|i: int, j: int|
        0 <= i < s1.len() && 0 <= j < s1.len() && i != j implies #[trigger] s1[i].pos
        != #[trigger] s1[j].pos by {
        if i < s.len() && j < s.len() {
            assert(s[i].pos != s[j].pos);
        } else if i < s.len() {
            assert(s[i].pos != x.pos);
        } else {
            assert(s[j].pos != x.pos);
        }
    }
}

/// Every entity of the queue is a mover of a moving kind.
pub open spec fn queue_ok(s: Seq<Entity>) -> bool {
    forall|j: int| 0 <= j < s.len() ==> (#[trigger] s[j]).intent is Some && is_mover_kind(s[j].etype)
}

/// An entity with an intent that is not of a moving kind.
pub open spec fn bad_mover(e: Entity) -> bool {
    e.intent is Some && !is_mover_kind(e.etype)
}

/// The entities a tick hands back, with what happened during it.
pub struct TickOutcome {
    /// The entities left, in settling order.
    pub entities: EntityColl,
    /// The player or the headquarters was destroyed.
    pub game_over: bool,
    /// How many entities were destroyed.
    pub destroyed: usize,
    /// How many passes ran.
    pub passes: usize,
    /// The tick ended in a stalemate.
    pub stalemate: bool,
}

impl TickOutcome {
    /// This outcome as a result of the model, with `rest` as the unused rolls.
    pub open spec fn resolution(self, rest: Seq<u32>) -> Resolution {
        Resolution {
            entities: self.entities@,
            crushed: self.game_over,
            destroyed: self.destroyed as nat,
            passes: self.passes as nat,
            stalemate: self.stalemate,
            rest,
        }
    }
}

struct Board {
    settled: EntityColl,
    pending: EntityColl,
    crushed: bool,
    destroyed: usize,
}

impl Board {
    spec fn round(&self, tape: Seq<u32>) -> Round {
        Round {
            settled: self.settled@,
            queue: self.pending@,
            crushed: self.crushed,
            destroyed: self.destroyed as nat,
            rest: tape,
        }
    }

    spec fn size(&self) -> nat {
        self.settled@.len() + self.pending@.len() + self.destroyed as nat
    }
}

/// One move attempt of `e`, which has been taken off the front of the pending queue.
fn move_enemy(e: Entity, board: &mut Board, width: usize, height: usize, dice: &mut Dice)
    requires
        e.intent is Some,
        is_mover_kind(e.etype),
        queue_ok(old(board).pending@),
        old(board).size() + 1 <= usize::MAX,
    ensures
        old(dice).history().is_prefix_of(final(dice).history()),
        forall|x: Seq<u32>|
            #[trigger] attempt(
                width,
                height,
                old(board).round(drawn(old(dice).history(), final(dice).history()) + x),
                e,
            ) == final(board).round(x),
        final(board).size() == old(board).size() + 1,
        old(board).pending@.len() <= final(board).pending@.len() <= old(board).pending@.len() + 1,
        queue_ok(final(board).pending@),
{
    let ghost h0 = dice.history();
    let ghost b0 = *board;
    let v = match e.intent {
        Some(v) => v,
        None => Intent { dx: 0, dy: 0 },
    };
    match e.pos.step(v.dx, v.dy, width, height) {
        None => {
            let e2 = change_direction(e, dice);
            board.settled.push_back(e2);
            proof {
                let k = dice.history().last();
                lemma_drawn_one(h0, dice.history());
                assert forall|x: Seq<u32>|
                    #[trigger] attempt(width, height, b0.round(drawn(h0, dice.history()) + x), e)
                        == board.round(x) by {
                    lemma_next_roll_front(k, x);
                }
            }
        },
        Some(d) => {
            if check_collision(&board.pending, d.x, d.y) {
                board.pending.push_back(e);
                proof {
                    lemma_drawn_none(h0);
                    assert forall|x: Seq<u32>|
                        #[trigger] attempt(
                            width,
                            height,
                            b0.round(drawn(h0, dice.history()) + x),
                            e,
                        ) == board.round(x) by {
                        assert(drawn(h0, dice.history()) + x =~= x);
                    }
                }
            } else {
                match occupant_at(&board.settled, d.x, d.y) {
                    None => {
                        board.settled.push_back(Entity { pos: d, ..e });
                        proof {
                            lemma_drawn_none(h0);
                            assert forall|x: Seq<u32>|
                                #[trigger] attempt(
                                    width,
                                    height,
                                    b0.round(drawn(h0, dice.history()) + x),
                                    e,
                                ) == board.round(x) by {
                                assert(drawn(h0, dice.history()) + x =~= x);
                            }
                        }
                    },
                    Some(i) => {
                        let o = board.settled[i];
                        let res = resolve_collision(&e, &o, dice);
                        let ghost h1 = dice.history();
                        proof {
                            if needs_roll(e.etype, o.etype) {
                                lemma_drawn_one(h0, h1);
                            } else {
                                lemma_drawn_none(h0);
                            }
                        }
                        match res {
                            Ok(EResolution::CrasheeDestroyed) => {
                                board.settled.remove(i);
                                board.settled.push_back(Entity { pos: d, ..e });
                                if o.etype == EType::Player || o.etype == EType::HQ {
                                    board.crushed = true;
                                }
                                board.destroyed = board.destroyed + 1;
                                proof {
                                    assert forall|x: Seq<u32>|
                                        #[trigger] attempt(
                                            width,
                                            height,
                                            b0.round(drawn(h0, dice.history()) + x),
                                            e,
                                        ) == board.round(x) by {
                                        if needs_roll(e.etype, o.etype) {
                                            lemma_next_roll_front(h1.last(), x);
                                        } else {
                                            assert(drawn(h0, dice.history()) + x =~= x);
                                        }
                                    }
                                }
                            },
                            Ok(EResolution::MoverDestroyed) => {
                                board.destroyed = board.destroyed + 1;
                                proof {
                                    assert forall|x: Seq<u32>|
                                        #[trigger] attempt(
                                            width,
                                            height,
                                            b0.round(drawn(h0, dice.history()) + x),
                                            e,
                                        ) == board.round(x) by {
                                        if needs_roll(e.etype, o.etype) {
                                            lemma_next_roll_front(h1.last(), x);
                                        } else {
                                            assert(drawn(h0, dice.history()) + x =~= x);
                                        }
                                    }
                                }
                            },
                            Ok(EResolution::MoverChangeDirection) => {
                                let e2 = change_direction(e, dice);
                                board.pending.push_back(e2);
                                proof {
                                    let k = dice.history().last();
                                    lemma_drawn_one(h1, dice.history());
                                    lemma_drawn_concat(h0, h1, dice.history());
                                    assert forall|x: Seq<u32>|
                                        #[trigger] attempt(
                                            width,
                                            height,
                                            b0.round(drawn(h0, dice.history()) + x),
                                            e,
                                        ) == board.round(x) by {
                                        lemma_next_roll_front(k, x);
                                        if needs_roll(e.etype, o.etype) {
                                            lemma_next_roll_front(h1.last(), seq![k] + x);
                                            assert(drawn(h0, dice.history()) + x =~= seq![
                                                h1.last(),
                                            ] + (seq![k] + x));
                                        } else {
                                            assert(drawn(h0, dice.history()) + x =~= seq![k]
                                                + x);
                                        }
                                    }
                                }
                            },
                            Err(_) => {},
                        }
                    },
                }
            }
        },
    }
}

/// The kind of the first entity that has an intent but is not of a moving kind.
fn first_bad_mover(entities: &EntityColl) -> (r: Option<EType>)
    ensures
        r is None <==> movers_ok(entities@),
        r matches Some(k) ==> exists|j: int|
            0 <= j < entities@.len() && bad_mover(entities@[j]) && entities@[j].etype == k
                && forall|i: int| 0 <= i < j ==> !bad_mover(#[trigger] entities@[i]),
{
    let mut i: usize = 0;
    while i < entities.len()
        invariant
            i <= entities@.len(),
            forall|j: int| 0 <= j < i ==> !bad_mover(#[trigger] entities@[j]),
        decreases entities@.len() - i,
    {
        let e = entities[i];
        if e.intent.is_some() && !(e.etype == EType::Ship || e.etype == EType::Monster) {
            assert(bad_mover(entities@[i as int]));
            return Some(e.etype);
        }
        i = i + 1;
    }
    assert forall|j: int| 0 <= j < entities@.len() && #[trigger] entities@[j].intent is Some implies is_mover_kind(
        entities@[j].etype,
    ) by {
        assert(!bad_mover(entities@[j]));
    }
    None
}

/// One tick of movement. The static entities are settled first; then the movers,
/// in queue order, try one step each per pass, until none is pending or a pass
/// leaves as many pending as it started with, when each still pending turns and
/// settles where it stands. A mover that is neither a ship nor a monster is an
/// invariant violation: the tick is refused and nothing is drawn.
///
/// The result is the model's `tick` over the rolls drawn, whatever rolls would
/// follow them.
pub fn move_enemies(entities: EntityColl, width: usize, height: usize, dice: &mut Dice) -> (r:
    Result<TickOutcome, ResolveError>)
    ensures
        r is Ok <==> movers_ok(entities@),
        r matches Err(ResolveError::InvariantViolation { mover }) ==> {
            &&& final(dice).history() == old(dice).history()
            &&& exists|j: int|
                0 <= j < entities@.len() && bad_mover(entities@[j]) && entities@[j].etype == mover
                    && forall|i: int| 0 <= i < j ==> !bad_mover(#[trigger] entities@[i])
        },
        r matches Ok(out) ==> {
            &&& old(dice).history().is_prefix_of(final(dice).history())
            &&& forall|x: Seq<u32>|
                #[trigger] tick(
                    entities@,
                    width,
                    height,
                    drawn(old(dice).history(), final(dice).history()) + x,
                ) == out.resolution(x)
            &&& out.entities@.len() + out.destroyed == entities@.len()
            &&& distinct_cells(entities@) ==> distinct_cells(out.entities@)
            &&& out.passes <= mover_count(entities@)
            &&& forall|j: int|
                0 <= j < out.entities@.len() && (#[trigger] out.entities@[j]).intent is None
                    ==> entities@.contains(out.entities@[j])
        },
{
    if let Some(k) = first_bad_mover(&entities) {
        return Err(ResolveError::InvariantViolation { mover: k });
    }
    let ghost input = entities@;
    let ghost h0 = dice.history();
    let total = entities.len();
    let mut rest = entities;
    let mut board = Board {
        settled: EntityColl::new(),
        pending: EntityColl::new(),
        crushed: false,
        destroyed: 0,
    };
    while rest.len() > 0
        invariant
            split(Seq::empty(), Seq::empty(), input) == split(
                board.settled@,
                board.pending@,
                rest@,
            ),
            board.settled@.len() + board.pending@.len() + rest@.len() == input.len(),
            movers_ok(rest@),
            queue_ok(board.pending@),
            !board.crushed,
            board.destroyed == 0,
            dice.history() == h0,
        decreases rest@.len(),
    {
        let ghost before = rest@;
        if let Some(e) = rest.pop_front() {
            assert(e == before[0]);
            assert(rest@ =~= before.drop_first());
            if e.intent.is_none() {
                board.settled.push_back(e);
            } else {
                board.pending.push_back(e);
            }
        }
    }
    proof {
        lemma_drawn_none(h0);
        assert forall|x: Seq<u32>|
            #[trigger] tick(input, width, height, drawn(h0, dice.history()) + x) == resolve_from(
                width,
                height,
                board.round(x),
                0,
            ) by {
            assert(drawn(h0, dice.history()) + x =~= x);
        }
    }
    let mut passes: usize = 0;
    loop
        invariant
            h0.is_prefix_of(dice.history()),
            forall|x: Seq<u32>|
                #[trigger] tick(input, width, height, drawn(h0, dice.history()) + x)
                    == resolve_from(width, height, board.round(x), passes as nat),
            board.size() == input.len(),
            queue_ok(board.pending@),
            passes + board.pending@.len() <= input.len(),
            input == entities@,
            input.len() == total,
            movers_ok(input),
            h0 == old(dice).history(),
        decreases board.pending@.len(),
    {
        if board.pending.len() == 0 {
            let out = TickOutcome {
                entities: board.settled,
                game_over: board.crushed,
                destroyed: board.destroyed,
                passes,
                stalemate: false,
            };
            proof {
                lemma_outcome_laws(input, width, height, drawn(h0, dice.history()), out);
            }
            return Ok(out);
        }
        let n = board.pending.len();
        let mut i: usize = 0;
        while i < n
            invariant
                0 < n,
                i <= n,
                n - i <= board.pending@.len() <= n,
                passes + n <= input.len(),
                h0.is_prefix_of(dice.history()),
                forall|x: Seq<u32>|
                    #[trigger] tick(input, width, height, drawn(h0, dice.history()) + x)
                        == after_pass(
                        width,
                        height,
                        run_pass(width, height, board.round(x), (n - i) as nat),
                        n as nat,
                        (passes + 1) as nat,
                    ),
                board.size() == input.len(),
                queue_ok(board.pending@),
                input == entities@,
                input.len() == total,
                movers_ok(input),
                h0 == old(dice).history(),
            decreases n - i,
        {
            let ghost b1 = board;
            let ghost h1 = dice.history();
            let e = match board.pending.pop_front() {
                Some(e) => e,
                None => {
                    return Err(ResolveError::InvariantViolation { mover: EType::Player });
                },
            };
            proof {
                assert(e == b1.pending@[0]);
                assert(board.pending@ =~= b1.pending@.drop_first());
            }
            let ghost b2 = board;
            move_enemy(e, &mut board, width, height, dice);
            proof {
                let h2 = dice.history();
                lemma_drawn_concat(h0, h1, h2);
                assert forall|x: Seq<u32>|
                    #[trigger] tick(input, width, height, drawn(h0, h2) + x) == after_pass(
                        width,
                        height,
                        run_pass(width, height, board.round(x), (n - i - 1) as nat),
                        n as nat,
                        (passes + 1) as nat,
                    ) by {
                    let y = drawn(h1, h2) + x;
                    assert(drawn(h0, h2) + x =~= drawn(h0, h1) + y);
                    assert(attempt(width, height, b2.round(y), e) == board.round(x));
                    assert(b2.round(y) == Round { queue: b1.round(y).queue.drop_first(), ..b1.round(y) });
                }
            }
            i = i + 1;
        }
        passes = passes + 1;
        if board.pending.len() == n {
            while board.pending.len() > 0
                invariant
                    h0.is_prefix_of(dice.history()),
                    forall|x: Seq<u32>|
                        #[trigger] tick(input, width, height, drawn(h0, dice.history()) + x)
                            == finish(settle_all(board.round(x)), passes as nat, true),
                    board.size() == input.len(),
                    input == entities@,
                    movers_ok(input),
                    h0 == old(dice).history(),
                decreases board.pending@.len(),
            {
                let ghost b1 = board;
                let ghost h1 = dice.history();
                if let Some(e) = board.pending.pop_front() {
                    proof {
                        assert(e == b1.pending@[0]);
                        assert(board.pending@ =~= b1.pending@.drop_first());
                    }
                    let e2 = change_direction(e, dice);
                    board.settled.push_back(e2);
                    proof {
                        let h2 = dice.history();
                        let k = h2.last();
                        lemma_drawn_one(h1, h2);
                        lemma_drawn_concat(h0, h1, h2);
                        assert forall|x: Seq<u32>|
                            #[trigger] tick(input, width, height, drawn(h0, h2) + x) == finish(
                                settle_all(board.round(x)),
                                passes as nat,
                                true,
                            ) by {
                            lemma_next_roll_front(k, x);
                            assert(drawn(h0, h2) + x =~= drawn(h0, h1) + (seq![k] + x));
                        }
                    }
                }
            }
            let out = TickOutcome {
                entities: board.settled,
                game_over: board.crushed,
                destroyed: board.destroyed,
                passes,
                stalemate: true,
            };
            proof {
                lemma_outcome_laws(input, width, height, drawn(h0, dice.history()), out);
            }
            return Ok(out);
        }
    }
}

} // verus!
