use vstd::prelude::*;

use crate::grid::{gap_sq, Position};

verus! {

/// The player's stores and crew, and the depth of the submarine.
#[derive(Clone, Copy, Debug, PartialEq, Eq, Structural)]
pub struct Supplies {
    pub depth: i32,
    pub crew: u32,
    pub power: u32,
    pub fuel: u32,
    pub torpedos: u32,
    pub missiles: u32,
    pub resupply_left: u32,
}

/// What the player can order.
#[derive(Clone, Copy, Debug, PartialEq, Eq, Structural)]
pub enum Command {
    Navigate,
    Sonar,
    Torpedo,
    Missile,
    Manuever,
    Status,
    Resupply,
    Convert,
    Surrender,
}

/// How a request to resupply ended.
#[derive(Clone, Copy, Debug, PartialEq, Eq, Structural)]
pub enum Docking {
    /// The headquarters has no supplies left to give.
    Abandoned,
    /// The headquarters is not within reach, or the submarine is too deep.
    Refused,
    /// The stores were topped up.
    Supplied,
}

/// The power a sonar sweep takes.
pub const SONAR_POWER: u32 = 50;

/// The power a torpedo launch takes.
pub const TORPEDO_POWER: u32 = 150;

/// The deepest the submarine can dive without being crushed, exclusive.
pub const CRUSH_DEPTH: i32 = 3000;

/// The deepest the submarine can be to dock at the headquarters.
pub const DOCKING_DEPTH: i32 = 50;

/// What a resupply tops the power up to.
pub const RESUPPLY_POWER: u32 = 4000;

/// What a resupply tops the torpedos up to.
pub const RESUPPLY_TORPEDOS: u32 = 8;

/// What a resupply tops the missiles up to.
pub const RESUPPLY_MISSILES: u32 = 2;

/// What a resupply tops the fuel up to.
pub const RESUPPLY_FUEL: u32 = 1500;

/// What a resupply tops the crew up to.
pub const RESUPPLY_CREW: u32 = 25;

/// `v`, raised to `floor` when below it.
pub open spec fn at_least(v: u32, floor: u32) -> u32 {
    if v < floor {
        floor
    } else {
        v
    }
}

/// The command an order number stands for.
pub open spec fn command_of(code: i32) -> Option<Command> {
    if code == 0 {
        Some(Command::Navigate)
    } else if code == 1 {
        Some(Command::Sonar)
    } else if code == 2 {
        Some(Command::Torpedo)
    } else if code == 3 {
        Some(Command::Missile)
    } else if code == 4 {
        Some(Command::Manuever)
    } else if code == 5 {
        Some(Command::Status)
    } else if code == 6 {
        Some(Command::Resupply)
    } else if code == 8 {
        Some(Command::Convert)
    } else if code == 9 {
        Some(Command::Surrender)
    } else {
        None
    }
}

/// The command an order number stands for: 0 to 6, 8 and 9.
pub fn command_from_code(code: i32) -> (r: Option<Command>)
    ensures
        r == command_of(code),
{
    if code == 0 {
        Some(Command::Navigate)
    } else if code == 1 {
        Some(Command::Sonar)
    } else if code == 2 {
        Some(Command::Torpedo)
    } else if code == 3 {
        Some(Command::Missile)
    } else if code == 4 {
        Some(Command::Manuever)
    } else if code == 5 {
        Some(Command::Status)
    } else if code == 6 {
        Some(Command::Resupply)
    } else if code == 8 {
        Some(Command::Convert)
    } else if code == 9 {
        Some(Command::Surrender)
    } else {
        None
    }
}

/// The heading a key of the numeric keypad stands for; 5 and anything else
/// stand for none. North is up, so 8 is `(0, -1)`.
pub open spec fn heading_of(key: i32) -> Option<(i8, i8)> {
    if key == 1 {
        Some((-1i8, 1i8))
    } else if key == 2 {
        Some((0i8, 1i8))
    } else if key == 3 {
        Some((1i8, 1i8))
    } else if key == 4 {
        Some((-1i8, 0i8))
    } else if key == 6 {
        Some((1i8, 0i8))
    } else if key == 7 {
        Some((-1i8, -1i8))
    } else if key == 8 {
        Some((0i8, -1i8))
    } else if key == 9 {
        Some((1i8, -1i8))
    } else {
        None
    }
}

/// The heading a keypad key stands for.
pub fn direction_from_key(key: i32) -> (r: Option<(i8, i8)>)
    ensures
        r == heading_of(key),
{
    if key == 1 {
        Some((-1, 1))
    } else if key == 2 {
        Some((0, 1))
    } else if key == 3 {
        Some((1, 1))
    } else if key == 4 {
        Some((-1, 0))
    } else if key == 6 {
        Some((1, 0))
    } else if key == 7 {
        Some((-1, -1))
    } else if key == 8 {
        Some((0, -1))
    } else if key == 9 {
        Some((1, -1))
    } else {
        None
    }
}

/// The power the player asked for, when it is less than what is available.
pub fn get_power(requested: u32, avail: u32) -> (r: Option<u32>)
    ensures
        r == (if requested < avail {
            Some(requested)
        } else {
            None::<u32>
        }),
{
    if requested < avail {
        Some(requested)
    } else {
        None
    }
}

/// A command needs more crew than this, unless it is 0.
pub open spec fn crew_needed(c: Command) -> u32 {
    match c {
        Command::Navigate => 8,
        Command::Sonar => 5,
        Command::Torpedo => 9,
        Command::Missile => 23,
        Command::Manuever => 12,
        Command::Status => 3,
        Command::Convert => 5,
        Command::Resupply | Command::Surrender => 0,
    }
}

/// Whether the crew is large enough to carry out a command.
pub fn crew_suffices(c: Command, crew: u32) -> (r: bool)
    ensures
        r == (crew > crew_needed(c) || crew_needed(c) == 0),
{
    let needed: u32 = match c {
        Command::Navigate => 8,
        Command::Sonar => 5,
        Command::Torpedo => 9,
        Command::Missile => 23,
        Command::Manuever => 12,
        Command::Status => 3,
        Command::Convert => 5,
        Command::Resupply | Command::Surrender => 0,
    };
    needed == 0 || crew > needed
}

impl Supplies {
    /// The stores at the start of a game.
    pub fn new() -> (r: Supplies)
        ensures
            r == (Supplies {
                depth: 100,
                crew: 30,
                power: 6000,
                fuel: 2500,
                torpedos: 10,
                missiles: 3,
                resupply_left: 2,
            }),
    {
        Supplies {
            depth: 100,
            crew: 30,
            power: 6000,
            fuel: 2500,
            torpedos: 10,
            missiles: 3,
            resupply_left: 2,
        }
    }

    /// Turns `power` units of power into three times as much fuel. Refused, with
    /// nothing changed, unless `power` is less than the power available and the
    /// fuel fits in a `u32`.
    pub fn convert_power_to_fuel(&mut self, power: u32) -> (ok: bool)
        ensures
            ok == (power < old(self).power && old(self).fuel + 3 * power <= u32::MAX),
            ok ==> *final(self) == (Supplies {
                power: (old(self).power - power) as u32,
                fuel: (old(self).fuel + 3 * power) as u32,
                ..*old(self)
            }),
            !ok ==> *final(self) == *old(self),
    {
        if power < self.power && power <= (u32::MAX - self.fuel) / 3 {
            self.power = self.power - power;
            self.fuel = self.fuel + power * 3;
            true
        } else {
            false
        }
    }

    /// Turns `fuel` pounds of fuel into a third as much power, rounded down.
    /// Refused, with nothing changed, unless that much fuel is available and the
    /// power fits in a `u32`.
    pub fn convert_fuel_to_power(&mut self, fuel: u32) -> (ok: bool)
        ensures
            ok == (fuel <= old(self).fuel && old(self).power + fuel / 3 <= u32::MAX),
            ok ==> *final(self) == (Supplies {
                power: (old(self).power + fuel / 3) as u32,
                fuel: (old(self).fuel - fuel) as u32,
                ..*old(self)
            }),
            !ok ==> *final(self) == *old(self),
    {
        if fuel <= self.fuel && fuel / 3 <= u32::MAX - self.power {
            self.fuel = self.fuel - fuel;
            self.power = self.power + fuel / 3;
            true
        } else {
            false
        }
    }

    /// Loads a torpedo: one torpedo fewer and `TORPEDO_POWER` less power (down to
    /// 0). Refused, with nothing changed, when no torpedo is left.
    pub fn load_torpedo(&mut self) -> (ok: bool)
        ensures
            ok == (old(self).torpedos > 0),
            ok ==> *final(self) == (Supplies {
                torpedos: (old(self).torpedos - 1) as u32,
                power: if old(self).power >= TORPEDO_POWER {
                    (old(self).power - TORPEDO_POWER) as u32
                } else {
                    0u32
                },
                ..*old(self)
            }),
            !ok ==> *final(self) == *old(self),
    {
        if self.torpedos == 0 {
            return false;
        }
        self.torpedos = self.torpedos - 1;
        self.power = if self.power >= TORPEDO_POWER {
            self.power - TORPEDO_POWER
        } else {
            0
        };
        true
    }

    /// Loads a missile with `fuel` pounds of fuel: one missile fewer and that much
    /// fuel less. Refused, with nothing changed, when no missile is left or the
    /// fuel is 0 or more than is available.
    pub fn load_missile(&mut self, fuel: u32) -> (ok: bool)
        ensures
            ok == (old(self).missiles > 0 && 0 < fuel <= old(self).fuel),
            ok ==> *final(self) == (Supplies {
                missiles: (old(self).missiles - 1) as u32,
                fuel: (old(self).fuel - fuel) as u32,
                ..*old(self)
            }),
            !ok ==> *final(self) == *old(self),
    {
        if self.missiles == 0 || fuel == 0 || fuel > self.fuel {
            return false;
        }
        self.missiles = self.missiles - 1;
        self.fuel = self.fuel - fuel;
        true
    }

    /// Runs the sonar: `SONAR_POWER` less power (down to 0).
    pub fn use_sonar(&mut self)
        ensures
            *final(self) == (Supplies {
                power: if old(self).power >= SONAR_POWER {
                    (old(self).power - SONAR_POWER) as u32
                } else {
                    0u32
                },
                ..*old(self)
            }),
    {
        self.power = if self.power >= SONAR_POWER {
            self.power - SONAR_POWER
        } else {
            0
        };
    }

    /// Dives or rises to `depth`, at a cost of one unit of power for every two
    /// metres, rounded up (down to 0 power). Outside `0..CRUSH_DEPTH` the hull is
    /// crushed: the result is false and nothing changes.
    pub fn manuever(&mut self, depth: i32) -> (survived: bool)
        ensures
            survived == (0 <= depth < CRUSH_DEPTH),
            survived ==> {
                let cost = (abs_diff(depth as int, old(self).depth as int) + 1) / 2;
                *final(self) == (Supplies {
                    depth,
                    power: if old(self).power >= cost {
                        (old(self).power - cost) as u32
                    } else {
                        0u32
                    },
                    ..*old(self)
                })
            },
            !survived ==> *final(self) == *old(self),
    {
        if 0 <= depth && depth < CRUSH_DEPTH {
            let delta: i64 = depth as i64 - self.depth as i64;
            let change: u64 = if delta < 0 {
                (0 - delta) as u64
            } else {
                delta as u64
            };
            let cost: u64 = (change + 1) / 2;
            self.power = if self.power as u64 >= cost {
                (self.power as u64 - cost) as u32
            } else {
                0
            };
            self.depth = depth;
            true
        } else {
            false
        }
    }

    /// Takes on supplies from the headquarters, which must be within two cells
    /// (by straight-line distance) of the player, with the submarine no deeper
    /// than `DOCKING_DEPTH`. Each store below its resupply level is raised to it,
    /// and the headquarters has one resupply fewer to give.
    pub fn resupply(&mut self, player: Position, hq: Option<Position>) -> (r: Docking)
        ensures
            old(self).resupply_left == 0 ==> r == Docking::Abandoned,
            r == Docking::Supplied <==> (old(self).resupply_left > 0 && in_reach(player, hq)
                && old(self).depth <= DOCKING_DEPTH),
            r == Docking::Supplied ==> *final(self) == (Supplies {
                power: at_least(old(self).power, RESUPPLY_POWER),
                torpedos: at_least(old(self).torpedos, RESUPPLY_TORPEDOS),
                missiles: at_least(old(self).missiles, RESUPPLY_MISSILES),
                fuel: at_least(old(self).fuel, RESUPPLY_FUEL),
                crew: at_least(old(self).crew, RESUPPLY_CREW),
                resupply_left: (old(self).resupply_left - 1) as u32,
                ..*old(self)
            }),
            r != Docking::Supplied ==> *final(self) == *old(self),
    {
        if self.resupply_left == 0 {
            return Docking::Abandoned;
        }
        let near = match hq {
            Some(h) => match player.distance_squared(&h) {
                Some(d) => d <= 4,
                None => false,
            },
            None => false,
        };
        if near && self.depth <= DOCKING_DEPTH {
            if self.power < RESUPPLY_POWER {
                self.power = RESUPPLY_POWER;
            }
            if self.torpedos < RESUPPLY_TORPEDOS {
                self.torpedos = RESUPPLY_TORPEDOS;
            }
            if self.missiles < RESUPPLY_MISSILES {
                self.missiles = RESUPPLY_MISSILES;
            }
            if self.fuel < RESUPPLY_FUEL {
                self.fuel = RESUPPLY_FUEL;
            }
            if self.crew < RESUPPLY_CREW {
                self.crew = RESUPPLY_CREW;
            }
            self.resupply_left = self.resupply_left - 1;
            Docking::Supplied
        } else {
            Docking::Refused
        }
    }
}

/// The headquarters exists and is within two cells of the player in straight-line distance.
pub open spec fn in_reach(player: Position, hq: Option<Position>) -> bool {
    match hq {
        Some(h) => gap_sq(player.x, h.x) + gap_sq(player.y, h.y) <= 4,
        None => false,
    }
}

/// The distance between two integers.
pub open spec fn abs_diff(a: int, b: int) -> int {
    if a >= b {
        a - b
    } else {
        b - a
    }
}

} // verus!
