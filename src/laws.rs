use vstd::prelude::*;

use crate::dice::{next_roll, redirect};
use crate::entity::{first_at, lemma_first_at, occupied, Entity};
use crate::grid::cell_after;
use crate::outcome::{needs_roll, verdict, EResolution};
use crate::resolver::{
    apart, attempt, distinct_cells, intent_of, lemma_push_distinct, mover_count, moved_to, resolve_from,
    run_pass, settle_all, split, start, tick, Round, TickOutcome,
};

verus! {

spec fn size(r: Round) -> nat {
    r.settled.len() + r.queue.len() + r.destroyed
}

/// No two entities of the round share a cell.
spec fn spread(r: Round) -> bool {
    distinct_cells(r.settled) && distinct_cells(r.queue) && apart(r.settled, r.queue)
}

/// `e`, just taken off the queue, shares a cell with nothing left in the round.
spec fn alone(r: Round, e: Entity) -> bool {
    &&& forall|i: int| 0 <= i < r.settled.len() ==> (#[trigger] r.settled[i]).pos != e.pos
    &&& forall|j: int| 0 <= j < r.queue.len() ==> (#[trigger] r.queue[j]).pos != e.pos
}

proof fn lemma_split_sizes(s: Seq<Entity>, m: Seq<Entity>, q: Seq<Entity>)
    ensures
        split(s, m, q).0.len() + split(s, m, q).1.len() == s.len() + m.len() + q.len(),
    decreases q.len(),
{
    if q.len() > 0 {
        if q[0].intent is None {
            lemma_split_sizes(s.push(q[0]), m, q.drop_first());
        } else {
            lemma_split_sizes(s, m.push(q[0]), q.drop_first());
        }
    }
}

proof fn lemma_attempt_size(width: usize, height: usize, r: Round, e: Entity)
    ensures
        size(attempt(width, height, r, e)) == size(r) + 1,
        attempt(width, height, r, e).queue.len() <= r.queue.len() + 1,
{
    let v = intent_of(e);
    match cell_after(e.pos, v.dx, v.dy, width, height) {
        Some(d) => {
            lemma_first_at(r.settled, d);
        },
        None => {},
    }
}

proof fn lemma_pass_size(width: usize, height: usize, r: Round, left: nat)
    ensures
        size(run_pass(width, height, r, left)) == size(r),
        run_pass(width, height, r, left).queue.len() <= r.queue.len(),
    decreases left,
{
    if left > 0 && r.queue.len() > 0 {
        let r1 = Round { queue: r.queue.drop_first(), ..r };
        lemma_attempt_size(width, height, r1, r.queue[0]);
        lemma_pass_size(width, height, attempt(width, height, r1, r.queue[0]), (left - 1) as nat);
    }
}

proof fn lemma_settle_size(r: Round)
    ensures
        size(settle_all(r)) == size(r),
        settle_all(r).queue.len() == 0,
        settle_all(r).crushed == r.crushed,
    decreases r.queue.len(),
{
    if r.queue.len() > 0 {
        let (k, rest) = next_roll(r.rest);
        lemma_settle_size(
            Round {
                settled: r.settled.push(redirect(r.queue[0], k)),
                queue: r.queue.drop_first(),
                rest,
                ..r
            },
        );
    }
}

proof fn lemma_resolve_size(width: usize, height: usize, r: Round, passes: nat)
    ensures
        resolve_from(width, height, r, passes).entities.len() + resolve_from(
            width,
            height,
            r,
            passes,
        ).destroyed == size(r),
        resolve_from(width, height, r, passes).passes <= passes + r.queue.len(),
    decreases r.queue.len(),
{
    if r.queue.len() > 0 {
        let n = r.queue.len();
        let r2 = run_pass(width, height, r, n);
        lemma_pass_size(width, height, r, n);
        if r2.queue.len() >= n {
            lemma_settle_size(r2);
        } else {
            lemma_resolve_size(width, height, r2, passes + 1);
        }
    }
}

/// Conservation: a tick never creates entities; the entities it hands back and
/// those it destroyed (each by a verdict that destroys the mover or what it hit)
/// add up to the entities it was given.
pub proof fn lemma_conservation(entities: Seq<Entity>, width: usize, height: usize, tape: Seq<u32>)
    ensures
        tick(entities, width, height, tape).entities.len() + tick(
            entities,
            width,
            height,
            tape,
        ).destroyed == entities.len(),
        tick(entities, width, height, tape).entities.len() <= entities.len(),
{
    lemma_split_sizes(Seq::empty(), Seq::empty(), entities);
    lemma_resolve_size(width, height, start(entities, tape), 0);
}

/// Termination bound: a tick runs at most as many passes as it has movers.
pub proof fn lemma_pass_bound(entities: Seq<Entity>, width: usize, height: usize, tape: Seq<u32>)
    ensures
        tick(entities, width, height, tape).passes <= mover_count(entities),
{
    lemma_resolve_size(width, height, start(entities, tape), 0);
}

proof fn lemma_split_spread(s: Seq<Entity>, m: Seq<Entity>, q: Seq<Entity>)
    requires
        distinct_cells(s),
        distinct_cells(m),
        distinct_cells(q),
        apart(s, m),
        apart(s, q),
        apart(m, q),
    ensures
        distinct_cells(split(s, m, q).0),
        distinct_cells(split(s, m, q).1),
        apart(split(s, m, q).0, split(s, m, q).1),
    decreases q.len(),
{
    if q.len() > 0 {
        let q1 = q.drop_first();
        assert forall|i: int| 0 <= i < q1.len() implies #[trigger] q1[i] == q[i + 1] by {}
        if q[0].intent is None {
            let s1 = s.push(q[0]);
            assert forall|i: int, j: int|
                0 <= i < s1.len() && 0 <= j < s1.len() && i != j implies #[trigger] s1[i].pos
                != #[trigger] s1[j].pos by {
                if i < s.len() && j < s.len() {
                } else if i < s.len() {
                    assert(s[i].pos != q[0].pos);
                } else {
                    assert(s[j].pos != q[0].pos);
                }
            }
            assert forall|i: int, j: int| 0 <= i < s1.len() && 0 <= j < m.len() implies #[trigger] s1[i].pos
                != #[trigger] m[j].pos by {
                if i == s.len() {
                    assert(m[j].pos != q[0].pos);
                }
            }
            assert forall|i: int, j: int| 0 <= i < s1.len() && 0 <= j < q1.len() implies #[trigger] s1[i].pos
                != #[trigger] q1[j].pos by {
                if i == s.len() {
                    assert(q[0].pos != q[j + 1].pos);
                } else {
                    assert(s[i].pos != q[j + 1].pos);
                }
            }
            assert forall|i: int, j: int| 0 <= i < m.len() && 0 <= j < q1.len() implies #[trigger] m[i].pos
                != #[trigger] q1[j].pos by {
                assert(m[i].pos != q[j + 1].pos);
            }
            lemma_split_spread(s1, m, q1);
        } else {
            let m1 = m.push(q[0]);
            assert forall|i: int, j: int|
                0 <= i < m1.len() && 0 <= j < m1.len() && i != j implies #[trigger] m1[i].pos
                != #[trigger] m1[j].pos by {
                if i < m.len() && j < m.len() {
                } else if i < m.len() {
                    assert(m[i].pos != q[0].pos);
                } else {
                    assert(m[j].pos != q[0].pos);
                }
            }
            assert forall|i: int, j: int| 0 <= i < s.len() && 0 <= j < m1.len() implies #[trigger] s[i].pos
                != #[trigger] m1[j].pos by {
                if j == m.len() {
                    assert(s[i].pos != q[0].pos);
                }
            }
            assert forall|i: int, j: int| 0 <= i < m1.len() && 0 <= j < q1.len() implies #[trigger] m1[i].pos
                != #[trigger] q1[j].pos by {
                if i == m.len() {
                    assert(q[0].pos != q[j + 1].pos);
                } else {
                    assert(m[i].pos != q[j + 1].pos);
                }
            }
            assert forall|i: int, j: int| 0 <= i < s.len() && 0 <= j < q1.len() implies #[trigger] s[i].pos
                != #[trigger] q1[j].pos by {
                assert(s[i].pos != q[j + 1].pos);
            }
            lemma_split_spread(s, m1, q1);
        }
    }
}

proof fn lemma_push_apart(a: Seq<Entity>, b: Seq<Entity>, x: Entity)
    requires
        apart(a, b),
    ensures
        (forall|j: int| 0 <= j < b.len() ==> (#[trigger] b[j]).pos != x.pos) ==> apart(a.push(x), b),
        (forall|i: int| 0 <= i < a.len() ==> (#[trigger] a[i]).pos != x.pos) ==> apart(a, b.push(x)),
{
    if forall|j: int| 0 <= j < b.len() ==> (#[trigger] b[j]).pos != x.pos {
        let a1 = a.push(x);
        assert forall|i: int, j: int| 0 <= i < a1.len() && 0 <= j < b.len() implies #[trigger] a1[i].pos
            != #[trigger] b[j].pos by {
            if i < a.len() {
                assert(a[i].pos != b[j].pos);
            }
        }
    }
    if forall|i: int| 0 <= i < a.len() ==> (#[trigger] a[i]).pos != x.pos {
        let b1 = b.push(x);
        assert forall|i: int, j: int| 0 <= i < a.len() && 0 <= j < b1.len() implies #[trigger] a[i].pos
            != #[trigger] b1[j].pos by {
            if j < b.len() {
                assert(a[i].pos != b[j].pos);
            }
        }
    }
}

proof fn lemma_remove_spread(s: Seq<Entity>, b: Seq<Entity>, k: int)
    requires
        0 <= k < s.len(),
        distinct_cells(s),
        apart(s, b),
    ensures
        distinct_cells(s.remove(k)),
        apart(s.remove(k), b),
        forall|j: int| 0 <= j < s.remove(k).len() ==> (#[trigger] s.remove(k)[j]).pos != s[k].pos,
{
    let s1 = s.remove(k);
    assert forall|j: int| 0 <= j < s1.len() implies #[trigger] s1[j] == s[if j < k {
        j
    } else {
        j + 1
    }] by {}
    assert forall|i: int, j: int|
        0 <= i < s1.len() && 0 <= j < s1.len() && i != j implies #[trigger] s1[i].pos
        != #[trigger] s1[j].pos by {
        let i1 = if i < k {
            i
        } else {
            i + 1
        };
        let j1 = if j < k {
            j
        } else {
            j + 1
        };
        assert(s[i1].pos != s[j1].pos);
    }
    assert forall|i: int, j: int| 0 <= i < s1.len() && 0 <= j < b.len() implies #[trigger] s1[i].pos
        != #[trigger] b[j].pos by {
        let i1 = if i < k {
            i
        } else {
            i + 1
        };
        assert(s[i1].pos != b[j].pos);
    }
    assert forall|j: int| 0 <= j < s1.len() implies (#[trigger] s1[j]).pos != s[k].pos by {
        let j1 = if j < k {
            j
        } else {
            j + 1
        };
        assert(s[j1].pos != s[k].pos);
    }
}

proof fn lemma_attempt_spread(width: usize, height: usize, r: Round, e: Entity)
    requires
        spread(r),
        alone(r, e),
    ensures
        spread(attempt(width, height, r, e)),
{
    let v = intent_of(e);
    match cell_after(e.pos, v.dx, v.dy, width, height) {
        None => {
            let (k, rest) = next_roll(r.rest);
            lemma_push_distinct(r.settled, redirect(e, k));
            lemma_push_apart(r.settled, r.queue, redirect(e, k));
        },
        Some(d) => {
            if occupied(r.queue, d) {
                lemma_push_distinct(r.queue, e);
                lemma_push_apart(r.settled, r.queue, e);
            } else {
                lemma_first_at(r.settled, d);
                let m = moved_to(e, d);
                match first_at(r.settled, d) {
                    None => {
                        lemma_push_distinct(r.settled, m);
                        lemma_push_apart(r.settled, r.queue, m);
                    },
                    Some(i) => {
                        lemma_remove_spread(r.settled, r.queue, i);
                        lemma_push_distinct(r.settled.remove(i), m);
                        lemma_push_apart(r.settled.remove(i), r.queue, m);
                        let o = r.settled[i];
                        let (roll, t1) = if needs_roll(e.etype, o.etype) {
                            next_roll(r.rest)
                        } else {
                            (0u32, r.rest)
                        };
                        let (k, t2) = next_roll(t1);
                        lemma_push_distinct(r.queue, redirect(e, k));
                        lemma_push_apart(r.settled, r.queue, redirect(e, k));
                    },
                }
            }
        },
    }
}

proof fn lemma_pass_spread(width: usize, height: usize, r: Round, left: nat)
    requires
        spread(r),
    ensures
        spread(run_pass(width, height, r, left)),
    decreases left,
{
    if left > 0 && r.queue.len() > 0 {
        let r1 = Round { queue: r.queue.drop_first(), ..r };
        let e = r.queue[0];
        assert forall|j: int| 0 <= j < r1.queue.len() implies #[trigger] r1.queue[j] == r.queue[j
            + 1] by {}
        assert(spread(r1));
        assert forall|j: int| 0 <= j < r1.queue.len() implies (#[trigger] r1.queue[j]).pos
            != e.pos by {
            assert(r.queue[j + 1].pos != r.queue[0].pos);
        }
        assert forall|i: int| 0 <= i < r1.settled.len() implies (#[trigger] r1.settled[i]).pos
            != e.pos by {
            assert(r.settled[i].pos != r.queue[0].pos);
        }
        lemma_attempt_spread(width, height, r1, e);
        lemma_pass_spread(width, height, attempt(width, height, r1, e), (left - 1) as nat);
    }
}

proof fn lemma_settle_spread(r: Round)
    requires
        spread(r),
    ensures
        distinct_cells(settle_all(r).settled),
    decreases r.queue.len(),
{
    if r.queue.len() > 0 {
        let (k, rest) = next_roll(r.rest);
        let e = redirect(r.queue[0], k);
        let q1 = r.queue.drop_first();
        assert forall|j: int| 0 <= j < q1.len() implies #[trigger] q1[j] == r.queue[j + 1] by {}
        assert forall|i: int| 0 <= i < r.settled.len() implies (#[trigger] r.settled[i]).pos
            != e.pos by {
            assert(r.settled[i].pos != r.queue[0].pos);
        }
        assert forall|j: int| 0 <= j < q1.len() implies (#[trigger] q1[j]).pos != e.pos by {
            assert(r.queue[j + 1].pos != r.queue[0].pos);
        }
        lemma_push_distinct(r.settled, e);
        assert(apart(r.settled, q1)) by {
            assert forall|i: int, j: int| 0 <= i < r.settled.len() && 0 <= j < q1.len() implies #[trigger] r.settled[i].pos
                != #[trigger] q1[j].pos by {
                assert(r.settled[i].pos != r.queue[j + 1].pos);
            }
        }
        lemma_push_apart(r.settled, q1, e);
        lemma_settle_spread(Round { settled: r.settled.push(e), queue: q1, rest, ..r });
    }
}

proof fn lemma_resolve_spread(width: usize, height: usize, r: Round, passes: nat)
    requires
        spread(r),
    ensures
        distinct_cells(resolve_from(width, height, r, passes).entities),
    decreases r.queue.len(),
{
    if r.queue.len() > 0 {
        let n = r.queue.len();
        let r2 = run_pass(width, height, r, n);
        lemma_pass_spread(width, height, r, n);
        if r2.queue.len() >= n {
            lemma_settle_spread(r2);
        } else {
            lemma_resolve_spread(width, height, r2, passes + 1);
        }
    }
}

/// No overlap: when no two entities share a cell before a tick, none do after it,
/// whether the tick ends normally or in a stalemate.
pub proof fn lemma_no_overlap(entities: Seq<Entity>, width: usize, height: usize, tape: Seq<u32>)
    requires
        distinct_cells(entities),
    ensures
        distinct_cells(tick(entities, width, height, tape).entities),
{
    lemma_split_spread(Seq::empty(), Seq::empty(), entities);
    lemma_resolve_spread(width, height, start(entities, tape), 0);
}

/// Determinism: two resolutions of one collection on one grid whose rolls come
/// from one stream, as two dice seeded alike give, draw the same rolls and hand
/// back the same entities, flag and counts.
pub proof fn lemma_replay(
    entities: Seq<Entity>,
    width: usize,
    height: usize,
    t1: Seq<u32>,
    t2: Seq<u32>,
    out1: TickOutcome,
    out2: TickOutcome,
)
    requires
        forall|x: Seq<u32>| #[trigger] tick(entities, width, height, t1 + x) == out1.resolution(x),
        forall|x: Seq<u32>| #[trigger] tick(entities, width, height, t2 + x) == out2.resolution(x),
        t1.is_prefix_of(t2) || t2.is_prefix_of(t1),
    ensures
        t1 == t2,
        out1.resolution(Seq::empty()) == out2.resolution(Seq::empty()),
{
    let e = Seq::<u32>::empty();
    if t1.is_prefix_of(t2) {
        let y = t2.subrange(t1.len() as int, t2.len() as int);
        assert(t1 + y =~= t2);
        assert(t2 + e =~= t2);
        assert(tick(entities, width, height, t1 + y) == out1.resolution(y));
        assert(tick(entities, width, height, t2 + e) == out2.resolution(e));
        assert(y =~= e);
        assert(t1 =~= t2);
    } else {
        let y = t1.subrange(t2.len() as int, t1.len() as int);
        assert(t2 + y =~= t1);
        assert(t1 + e =~= t1);
        assert(tick(entities, width, height, t2 + y) == out2.resolution(y));
        assert(tick(entities, width, height, t1 + e) == out1.resolution(e));
        assert(y =~= e);
        assert(t1 =~= t2);
    }
}

/// Every entity of `s` without an intent is an entity of `input`, and every
/// entity of `q` has an intent.
spec fn kept_still(s: Seq<Entity>, q: Seq<Entity>, input: Seq<Entity>) -> bool {
    &&& forall|j: int| 0 <= j < s.len() && (#[trigger] s[j]).intent is None ==> input.contains(s[j])
    &&& forall|j: int| 0 <= j < q.len() ==> (#[trigger] q[j]).intent is Some
}

proof fn lemma_split_still(s: Seq<Entity>, m: Seq<Entity>, q: Seq<Entity>, input: Seq<Entity>)
    requires
        kept_still(s, m, input),
        forall|j: int| 0 <= j < q.len() ==> input.contains(#[trigger] q[j]),
    ensures
        kept_still(split(s, m, q).0, split(s, m, q).1, input),
    decreases q.len(),
{
    if q.len() > 0 {
        let q1 = q.drop_first();
        assert forall|j: int| 0 <= j < q1.len() implies input.contains(#[trigger] q1[j]) by {
            assert(q1[j] == q[j + 1]);
        }
        assert(input.contains(q[0]));
        if q[0].intent is None {
            let s1 = s.push(q[0]);
            assert forall|j: int| 0 <= j < s1.len() && (#[trigger] s1[j]).intent is None implies input.contains(
                s1[j],
            ) by {
                if j < s.len() {
                    assert(s1[j] == s[j]);
                }
            }
            lemma_split_still(s1, m, q1, input);
        } else {
            let m1 = m.push(q[0]);
            assert forall|j: int| 0 <= j < m1.len() implies (#[trigger] m1[j]).intent is Some by {
                if j < m.len() {
                    assert(m1[j] == m[j]);
                }
            }
            lemma_split_still(s, m1, q1, input);
        }
    }
}

proof fn lemma_attempt_still(width: usize, height: usize, r: Round, e: Entity, input: Seq<Entity>)
    requires
        kept_still(r.settled, r.queue, input),
        e.intent is Some,
    ensures
        kept_still(attempt(width, height, r, e).settled, attempt(width, height, r, e).queue, input),
{
    let a = attempt(width, height, r, e);
    let v = intent_of(e);
    match cell_after(e.pos, v.dx, v.dy, width, height) {
        None => {
            assert forall|j: int| 0 <= j < a.settled.len() && (#[trigger] a.settled[j]).intent is None implies input.contains(
                a.settled[j],
            ) by {
                if j < r.settled.len() {
                    assert(a.settled[j] == r.settled[j]);
                }
            }
        },
        Some(d) => {
            lemma_first_at(r.settled, d);
            assert forall|j: int| 0 <= j < a.queue.len() implies (#[trigger] a.queue[j]).intent is Some by {
                if j < r.queue.len() {
                    assert(a.queue[j] == r.queue[j]);
                }
            }
            match first_at(r.settled, d) {
                Some(i) if !occupied(r.queue, d) => {
                    let rem = r.settled.remove(i);
                    assert forall|j: int| 0 <= j < rem.len() implies #[trigger] rem[j] == r.settled[if j < i {
                        j
                    } else {
                        j + 1
                    }] by {}
                    let o = r.settled[i];
                    let (roll, t1) = if needs_roll(e.etype, o.etype) {
                        next_roll(r.rest)
                    } else {
                        (0u32, r.rest)
                    };
                    let crushes = verdict(e.etype, o.etype, roll) == EResolution::CrasheeDestroyed;
                    assert forall|j: int| 0 <= j < a.settled.len() && (#[trigger] a.settled[j]).intent is None implies input.contains(
                        a.settled[j],
                    ) by {
                        if crushes {
                            assert(a.settled == rem.push(moved_to(e, d)));
                            if j < rem.len() {
                                assert(a.settled[j] == rem[j]);
                            }
                        } else {
                            assert(a.settled == r.settled);
                        }
                    }
                },
                _ => {
                    assert forall|j: int| 0 <= j < a.settled.len() && (#[trigger] a.settled[j]).intent is None implies input.contains(
                        a.settled[j],
                    ) by {
                        if j < r.settled.len() {
                            assert(a.settled[j] == r.settled[j]);
                        }
                    }
                },
            }
        },
    }
}

proof fn lemma_pass_still(width: usize, height: usize, r: Round, left: nat, input: Seq<Entity>)
    requires
        kept_still(r.settled, r.queue, input),
    ensures
        kept_still(run_pass(width, height, r, left).settled, run_pass(width, height, r, left).queue, input),
    decreases left,
{
    if left > 0 && r.queue.len() > 0 {
        let r1 = Round { queue: r.queue.drop_first(), ..r };
        assert forall|j: int| 0 <= j < r1.queue.len() implies (#[trigger] r1.queue[j]).intent is Some by {
            assert(r1.queue[j] == r.queue[j + 1]);
        }
        assert(r.queue[0].intent is Some);
        lemma_attempt_still(width, height, r1, r.queue[0], input);
        lemma_pass_still(width, height, attempt(width, height, r1, r.queue[0]), (left - 1) as nat, input);
    }
}

proof fn lemma_settle_still(r: Round, input: Seq<Entity>)
    requires
        kept_still(r.settled, r.queue, input),
    ensures
        kept_still(settle_all(r).settled, settle_all(r).queue, input),
    decreases r.queue.len(),
{
    if r.queue.len() > 0 {
        let (k, rest) = next_roll(r.rest);
        let s1 = r.settled.push(redirect(r.queue[0], k));
        let q1 = r.queue.drop_first();
        assert forall|j: int| 0 <= j < s1.len() && (#[trigger] s1[j]).intent is None implies input.contains(
            s1[j],
        ) by {
            if j < r.settled.len() {
                assert(s1[j] == r.settled[j]);
            }
        }
        assert forall|j: int| 0 <= j < q1.len() implies (#[trigger] q1[j]).intent is Some by {
            assert(q1[j] == r.queue[j + 1]);
        }
        lemma_settle_still(Round { settled: s1, queue: q1, rest, ..r }, input);
    }
}

proof fn lemma_resolve_still(width: usize, height: usize, r: Round, passes: nat, input: Seq<Entity>)
    requires
        kept_still(r.settled, r.queue, input),
    ensures
        kept_still(resolve_from(width, height, r, passes).entities, Seq::empty(), input),
    decreases r.queue.len(),
{
    if r.queue.len() > 0 {
        let n = r.queue.len();
        let r2 = run_pass(width, height, r, n);
        lemma_pass_still(width, height, r, n, input);
        if r2.queue.len() >= n {
            lemma_settle_still(r2, input);
        } else {
            lemma_resolve_still(width, height, r2, passes + 1, input);
        }
    }
}

/// Static entities stay put: every entity a tick hands back without an intent
/// is one of the entities it was given, with the same place and kind.
pub proof fn lemma_statics_stay(entities: Seq<Entity>, width: usize, height: usize, tape: Seq<u32>)
    ensures
        forall|j: int|
            0 <= j < tick(entities, width, height, tape).entities.len() && (#[trigger] tick(
                entities,
                width,
                height,
                tape,
            ).entities[j]).intent is None ==> entities.contains(
                tick(entities, width, height, tape).entities[j],
            ),
{
    assert forall|j: int| 0 <= j < entities.len() implies entities.contains(#[trigger] entities[j]) by {}
    lemma_split_still(Seq::empty(), Seq::empty(), entities, entities);
    lemma_resolve_still(width, height, start(entities, tape), 0, entities);
}

/// What a tick's laws say of an outcome that replays the model over the rolls
/// `t`: conservation, no overlap, the pass bound, and static entities unchanged.
pub proof fn lemma_outcome_laws(
    entities: Seq<Entity>,
    width: usize,
    height: usize,
    t: Seq<u32>,
    out: TickOutcome,
)
    requires
        forall|x: Seq<u32>| #[trigger] tick(entities, width, height, t + x) == out.resolution(x),
    ensures
        out.entities@.len() + out.destroyed == entities.len(),
        distinct_cells(entities) ==> distinct_cells(out.entities@),
        out.passes <= mover_count(entities),
        forall|j: int|
            0 <= j < out.entities@.len() && (#[trigger] out.entities@[j]).intent is None
                ==> entities.contains(out.entities@[j]),
{
    let e = Seq::<u32>::empty();
    assert(t + e =~= t);
    assert(tick(entities, width, height, t + e) == out.resolution(e));
    lemma_conservation(entities, width, height, t);
    lemma_pass_bound(entities, width, height, t);
    lemma_statics_stay(entities, width, height, t);
    if distinct_cells(entities) {
        lemma_no_overlap(entities, width, height, t);
    }
}

} // verus!
