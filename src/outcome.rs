use vstd::prelude::*;

use crate::dice::Dice;
use crate::entity::{EType, Entity};

verus! {

/// How a single collision between a mover and what it ran into ends.
#[derive(Clone, Copy, Debug, PartialEq, Eq, Structural)]
pub enum EResolution {
    /// What was hit is destroyed; the mover takes its cell.
    CrasheeDestroyed,
    /// The mover is destroyed; what was hit stays.
    MoverDestroyed,
    /// Both stay; the mover keeps its cell and turns.
    MoverChangeDirection,
}

/// A broken invariant of the movement rules, reported instead of halting.
#[derive(Clone, Copy, Debug, PartialEq, Eq, Structural)]
pub enum ResolveError {
    /// An entity of this kind tried to move, but only ships and monsters move.
    InvariantViolation { mover: EType },
}

/// Out of 100, how often a ship that runs into a mine turns away instead of sinking.
pub const MINE_EVADE_PERCENT: u32 = 70;

/// Out of 100, how often a fight between two monsters is a tie instead of a death.
pub const MONSTER_TIE_PERCENT: u32 = 80;

/// Only ships and monsters move.
pub open spec fn is_mover_kind(k: EType) -> bool {
    k == EType::Ship || k == EType::Monster
}

/// The pairs whose outcome is decided by a percent roll.
pub open spec fn needs_roll(mover: EType, obstacle: EType) -> bool {
    (mover == EType::Ship && obstacle == EType::Mine) || (mover == EType::Monster && obstacle
        == EType::Monster)
}

/// The outcome table, for a mover of a moving kind; `roll` is a percent roll,
/// read only where `needs_roll` holds.
pub open spec fn verdict(mover: EType, obstacle: EType, roll: u32) -> EResolution {
    match mover {
        EType::Ship => match obstacle {
            EType::Island | EType::Ship => EResolution::MoverChangeDirection,
            EType::Player | EType::HQ => EResolution::CrasheeDestroyed,
            EType::Mine => if roll < MINE_EVADE_PERCENT {
                EResolution::MoverChangeDirection
            } else {
                EResolution::MoverDestroyed
            },
            EType::Monster => EResolution::MoverDestroyed,
        },
        _ => match obstacle {
            EType::Island => EResolution::MoverChangeDirection,
            EType::Player | EType::HQ | EType::Ship => EResolution::CrasheeDestroyed,
            EType::Mine => EResolution::MoverDestroyed,
            EType::Monster => if roll < MONSTER_TIE_PERCENT {
                EResolution::MoverChangeDirection
            } else {
                EResolution::MoverDestroyed
            },
        },
    }
}

/// What `outcome` returns: the table's verdict for a moving kind, the invariant
/// violation for any other.
pub open spec fn outcome_of(mover: EType, obstacle: EType, roll: u32) -> Result<
    EResolution,
    ResolveError,
> {
    if is_mover_kind(mover) {
        Ok(verdict(mover, obstacle, roll))
    } else {
        Err(ResolveError::InvariantViolation { mover })
    }
}

/// The verdict for `mover` running into `obstacle`, given a percent roll.
pub fn outcome(mover: EType, obstacle: EType, roll: u32) -> (r: Result<EResolution, ResolveError>)
    ensures
        r == outcome_of(mover, obstacle, roll),
{
    match mover {
        EType::Ship => Ok(
            match obstacle {
                EType::Island | EType::Ship => EResolution::MoverChangeDirection,
                EType::Player | EType::HQ => EResolution::CrasheeDestroyed,
                EType::Mine => if roll < MINE_EVADE_PERCENT {
                    EResolution::MoverChangeDirection
                } else {
                    EResolution::MoverDestroyed
                },
                EType::Monster => EResolution::MoverDestroyed,
            },
        ),
        EType::Monster => Ok(
            match obstacle {
                EType::Island => EResolution::MoverChangeDirection,
                EType::Player | EType::HQ | EType::Ship => EResolution::CrasheeDestroyed,
                EType::Mine => EResolution::MoverDestroyed,
                EType::Monster => if roll < MONSTER_TIE_PERCENT {
                    EResolution::MoverChangeDirection
                } else {
                    EResolution::MoverDestroyed
                },
            },
        ),
        _ => Err(ResolveError::InvariantViolation { mover }),
    }
}

/// The verdict for `e` running into `crashee`. Where the table is random, one
/// roll below 100 is drawn from `dice`; otherwise nothing is drawn.
pub fn resolve_collision(e: &Entity, crashee: &Entity, dice: &mut Dice) -> (r: Result<
    EResolution,
    ResolveError,
>)
    ensures
        needs_roll(e.etype, crashee.etype) ==> {
            &&& final(dice).history().len() == old(dice).history().len() + 1
            &&& final(dice).history().drop_last() == old(dice).history()
            &&& final(dice).history().last() < 100
            &&& r == outcome_of(e.etype, crashee.etype, final(dice).history().last())
        },
        !needs_roll(e.etype, crashee.etype) ==> {
            &&& final(dice).history() == old(dice).history()
            &&& r == outcome_of(e.etype, crashee.etype, 0)
        },
{
    if (e.etype == EType::Ship && crashee.etype == EType::Mine) || (e.etype == EType::Monster
        && crashee.etype == EType::Monster) {
        let roll = dice.roll(100);
        proof {
            assert(dice.history().drop_last() =~= old(dice).history());
        }
        outcome(e.etype, crashee.etype, roll)
    } else {
        outcome(e.etype, crashee.etype, 0)
    }
}

/// Every ship or monster running into any kind of entity gets a verdict, whatever
/// the roll; any other kind of mover is the invariant violation.
pub proof fn lemma_table_total(mover: EType, obstacle: EType, roll: u32)
    ensures
        is_mover_kind(mover) ==> outcome_of(mover, obstacle, roll) is Ok,
        !is_mover_kind(mover) ==> outcome_of(mover, obstacle, roll) == Err::<
            EResolution,
            ResolveError,
        >(ResolveError::InvariantViolation { mover }),
{
}

} // verus!
