use vstd::prelude::*;

use crate::entity::{Entity, Intent};

verus! {

/// rand's standard generator, carried opaque inside a generator-backed dice.
#[verifier::external_type_specification]
#[verifier::external_body]
pub struct ExStdRng(rand::StdRng);

/// Relies on rand's `Rng::gen_range(0, bound)`: a value in `[0, bound)`; it panics when `bound` is 0.
#[verifier::external_body]
fn gen_below(rng: &mut rand::StdRng, bound: u32) -> (r: u32)
    requires
        bound > 0,
    ensures
        r < bound,
{
    rand::Rng::gen_range(rng, 0u32, bound)
}

/// Relies on rand's `SeedableRng::from_seed` for `StdRng`, which builds a generator from a slice of words.
#[verifier::external_body]
fn std_rng_from_seed(seed: usize) -> rand::StdRng {
    <rand::StdRng as rand::SeedableRng<&[usize]>>::from_seed(&[seed][..])
}

enum Source {
    Generator(rand::StdRng),
    Script(Vec<u32>),
}

/// The source of randomness handed to the resolver. It either draws from a
/// generator or replays a fixed script of values, cyclically, so that a run can
/// be reproduced exactly.
pub struct Dice {
    source: Source,
    cursor: usize,
    rolls: Ghost<Seq<u32>>,
}

impl Dice {
    /// Every value this dice has handed out, oldest first.
    pub closed spec fn history(&self) -> Seq<u32> {
        self.rolls@
    }

    /// For a scripted dice, the script value that the next roll reduces below its bound.
    pub closed spec fn scripted_next(&self) -> Option<u32> {
        match self.source {
            Source::Script(v) => if v.len() == 0 {
                Some(0)
            } else {
                Some(v@[(self.cursor % v.len()) as int])
            },
            Source::Generator(_) => None,
        }
    }

    /// A dice drawing from `rng`.
    pub fn from_rng(rng: rand::StdRng) -> (d: Dice)
        ensures
            d.history() == Seq::<u32>::empty(),
            d.scripted_next() is None,
    {
        Dice { source: Source::Generator(rng), cursor: 0, rolls: Ghost(Seq::empty()) }
    }

    /// A dice drawing from a generator seeded with `seed`: equal seeds give equal rolls.
    pub fn seeded(seed: usize) -> (d: Dice)
        ensures
            d.history() == Seq::<u32>::empty(),
            d.scripted_next() is None,
    {
        Dice::from_rng(std_rng_from_seed(seed))
    }

    /// A dice that hands out `values` in order, starting again at the front after
    /// the last; each value is reduced below the bound it is rolled with. An empty
    /// script always gives 0.
    pub fn scripted(values: Vec<u32>) -> (d: Dice)
        ensures
            d.history() == Seq::<u32>::empty(),
            d.scripted_next() == Some(
                if values@.len() == 0 {
                    0u32
                } else {
                    values@[0]
                },
            ),
    {
        Dice { source: Source::Script(values), cursor: 0, rolls: Ghost(Seq::empty()) }
    }

    /// A value in `[0, bound)`, which is also appended to the history.
    pub fn roll(&mut self, bound: u32) -> (r: u32)
        requires
            bound > 0,
        ensures
            r < bound,
            final(self).history() == old(self).history().push(r),
            old(self).scripted_next() matches Some(v) ==> r == v % bound,
            old(self).scripted_next() is None ==> final(self).scripted_next() is None,
    {
        let scripted: Option<(u32, usize)> = match &self.source {
            Source::Script(v) => {
                if v.len() == 0 {
                    Some((0, 0))
                } else {
                    let k = self.cursor % v.len();
                    Some((v[k] % bound, k + 1))
                }
            },
            Source::Generator(_) => None,
        };
        let r = match scripted {
            Some((value, next)) => {
                self.cursor = next;
                value
            },
            None => match &mut self.source {
                Source::Generator(rng) => gen_below(rng, bound),
                Source::Script(_) => 0,
            },
        };
        self.rolls = Ghost(self.rolls@.push(r));
        r
    }
}

/// The direction a roll picks: the eight neighbouring steps, in reading order,
/// chosen by the roll modulo 8.
pub open spec fn direction_of(k: u32) -> Intent {
    let i = k % 8;
    if i == 0 {
        Intent { dx: -1i8, dy: -1i8 }
    } else if i == 1 {
        Intent { dx: 0i8, dy: -1i8 }
    } else if i == 2 {
        Intent { dx: 1i8, dy: -1i8 }
    } else if i == 3 {
        Intent { dx: -1i8, dy: 0i8 }
    } else if i == 4 {
        Intent { dx: 1i8, dy: 0i8 }
    } else if i == 5 {
        Intent { dx: -1i8, dy: 1i8 }
    } else if i == 6 {
        Intent { dx: 0i8, dy: 1i8 }
    } else {
        Intent { dx: 1i8, dy: 1i8 }
    }
}

/// `e` with its intent replaced by the direction that roll `k` picks.
pub open spec fn redirect(e: Entity, k: u32) -> Entity {
    Entity { intent: Some(direction_of(k)), ..e }
}

impl Intent {
    /// The direction that roll `k` picks.
    pub fn from_roll(k: u32) -> (r: Intent)
        ensures
            r == direction_of(k),
            r.is_valid(),
    {
        let i = k % 8;
        if i == 0 {
            Intent { dx: -1, dy: -1 }
        } else if i == 1 {
            Intent { dx: 0, dy: -1 }
        } else if i == 2 {
            Intent { dx: 1, dy: -1 }
        } else if i == 3 {
            Intent { dx: -1, dy: 0 }
        } else if i == 4 {
            Intent { dx: 1, dy: 0 }
        } else if i == 5 {
            Intent { dx: -1, dy: 1 }
        } else if i == 6 {
            Intent { dx: 0, dy: 1 }
        } else {
            Intent { dx: 1, dy: 1 }
        }
    }

    /// A fresh direction: one of the eight neighbouring steps, each as likely as
    /// the others, which is what drawing both deltas from `{-1, 0, 1}` and
    /// rejecting `(0, 0)` gives. It takes one roll below 8.
    pub fn new_vel(dice: &mut Dice) -> (r: Intent)
        ensures
            final(dice).history().len() == old(dice).history().len() + 1,
            final(dice).history().drop_last() == old(dice).history(),
            final(dice).history().last() < 8,
            r == direction_of(final(dice).history().last()),
            r.is_valid(),
    {
        let k = dice.roll(8);
        proof {
            assert(dice.history().drop_last() =~= old(dice).history());
        }
        Intent::from_roll(k)
    }
}

/// `e` heading in a fresh direction, at the same place.
pub fn change_direction(e: Entity, dice: &mut Dice) -> (r: Entity)
    ensures
        final(dice).history().len() == old(dice).history().len() + 1,
        final(dice).history().drop_last() == old(dice).history(),
        r == redirect(e, final(dice).history().last()),
        r.intent matches Some(v) && v.is_valid(),
{
    let v = Intent::new_vel(dice);
    Entity { intent: Some(v), ..e }
}

/// The first roll of `tape` and the rolls after it; an exhausted tape reads 0.
pub open spec fn next_roll(tape: Seq<u32>) -> (u32, Seq<u32>) {
    if tape.len() > 0 {
        (tape[0], tape.drop_first())
    } else {
        (0u32, tape)
    }
}

/// The rolls appended to a history between `before` and `after`.
pub open spec fn drawn(before: Seq<u32>, after: Seq<u32>) -> Seq<u32> {
    after.subrange(before.len() as int, after.len() as int)
}

/// A tape that starts with `k` reads `k` and leaves the rest.
pub proof fn lemma_next_roll_front(k: u32, x: Seq<u32>)
    ensures
        next_roll(seq![k] + x) == (k, x),
{
    assert((seq![k] + x).drop_first() =~= x);
}

/// Nothing is drawn between a history and itself.
pub proof fn lemma_drawn_none(a: Seq<u32>)
    ensures
        a.is_prefix_of(a),
        drawn(a, a) =~= Seq::<u32>::empty(),
{
    assert(a.subrange(0, a.len() as int) =~= a);
}

/// One roll appended to a history is what was drawn.
pub proof fn lemma_drawn_one(a: Seq<u32>, b: Seq<u32>)
    requires
        b.len() == a.len() + 1,
        b.drop_last() == a,
    ensures
        a.is_prefix_of(b),
        drawn(a, b) =~= seq![b.last()],
{
    assert(b.subrange(0, a.len() as int) =~= b.drop_last());
}

/// What is drawn over two stretches is what each drew, in order.
pub proof fn lemma_drawn_concat(a: Seq<u32>, b: Seq<u32>, c: Seq<u32>)
    requires
        a.is_prefix_of(b),
        b.is_prefix_of(c),
    ensures
        a.is_prefix_of(c),
        drawn(a, c) =~= drawn(a, b) + drawn(b, c),
{
    assert(c.subrange(0, a.len() as int) =~= b.subrange(0, a.len() as int));
}

} // verus!
