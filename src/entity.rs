use vstd::prelude::*;

use crate::grid::Position;

verus! {

/// What an entity is; it decides both how it is drawn and what a collision with it does.
#[derive(Clone, Copy, Debug, PartialEq, Eq, Structural)]
pub enum EType {
    Player,
    Island,
    Ship,
    Mine,
    HQ,
    Monster,
}

/// A velocity for the current tick: one step of `dx` columns and `dy` rows.
#[derive(Clone, Copy, Debug, PartialEq, Eq, Structural)]
pub struct Intent {
    pub dx: i8,
    pub dy: i8,
}

/// Something on the sea. An entity with an intent is a mover; one without never moves.
#[derive(Clone, Copy, Debug, PartialEq, Eq)]
pub struct Entity {
    pub pos: Position,
    pub etype: EType,
    pub intent: Option<Intent>,
}

/// A working collection of entities, kept in queue order.
pub type EntityColl = std::collections::VecDeque<Entity>;

impl Intent {
    /// Each delta in `{-1, 0, 1}`, and not both zero.
    pub open spec fn is_valid(self) -> bool {
        -1 <= self.dx <= 1 && -1 <= self.dy <= 1 && !(self.dx == 0 && self.dy == 0)
    }
}

impl Entity {
    /// A static entity of kind `etype` at `(x, y)`.
    pub fn new(x: usize, y: usize, etype: EType) -> (r: Entity)
        ensures
            r == (Entity { pos: Position { x, y }, etype, intent: None }),
    {
        Entity { pos: Position { x, y }, etype, intent: None }
    }

    /// A static entity of kind `etype` on `p`.
    pub open spec fn new_spec(p: Position, etype: EType) -> Entity {
        Entity { pos: p, etype, intent: None }
    }

    /// A mover of kind `etype` at `(x, y)` heading `(dx, dy)`.
    pub fn mover(x: usize, y: usize, etype: EType, dx: i8, dy: i8) -> (r: Entity)
        ensures
            r == (Entity { pos: Position { x, y }, etype, intent: Some(Intent { dx, dy }) }),
    {
        Entity { pos: Position { x, y }, etype, intent: Some(Intent { dx, dy }) }
    }
}

/// The number of entities of kind `k` in `s`.
pub open spec fn count_kind(s: Seq<Entity>, k: EType) -> nat
    decreases s.len(),
{
    if s.len() == 0 {
        0
    } else {
        count_kind(s.drop_last(), k) + if s.last().etype == k {
            1nat
        } else {
            0nat
        }
    }
}

/// Whether some entity of `s` stands on `p`.
pub open spec fn occupied(s: Seq<Entity>, p: Position) -> bool {
    exists|i: int| 0 <= i < s.len() && s[i].pos == p
}

/// The index of the first entity of `s` that stands on `p`.
pub open spec fn first_at(s: Seq<Entity>, p: Position) -> Option<int>
    decreases s.len(),
{
    if s.len() == 0 {
        None
    } else if s[0].pos == p {
        Some(0)
    } else {
        match first_at(s.drop_first(), p) {
            Some(i) => Some(i + 1),
            None => None,
        }
    }
}

/// The index of the first entity of `s` of kind `k`.
pub open spec fn first_of(s: Seq<Entity>, k: EType) -> Option<int>
    decreases s.len(),
{
    if s.len() == 0 {
        None
    } else if s[0].etype == k {
        Some(0)
    } else {
        match first_of(s.drop_first(), k) {
            Some(i) => Some(i + 1),
            None => None,
        }
    }
}

/// `first_at` is the least index of an entity on `p`, and `None` when there is none.
pub proof fn lemma_first_at(s: Seq<Entity>, p: Position)
    ensures
        match first_at(s, p) {
            Some(i) => 0 <= i < s.len() && s[i].pos == p && forall|j: int|
                0 <= j < i ==> s[j].pos != p,
            None => forall|j: int| 0 <= j < s.len() ==> s[j].pos != p,
        },
    decreases s.len(),
{
    if s.len() > 0 && s[0].pos != p {
        lemma_first_at(s.drop_first(), p);
        assert forall|j: int| 0 < j < s.len() implies s[j] == s.drop_first()[j - 1] by {}
    }
}

/// `first_of` is the least index of an entity of kind `k`, and `None` when there is none.
pub proof fn lemma_first_of(s: Seq<Entity>, k: EType)
    ensures
        match first_of(s, k) {
            Some(i) => 0 <= i < s.len() && s[i].etype == k && forall|j: int|
                0 <= j < i ==> s[j].etype != k,
            None => forall|j: int| 0 <= j < s.len() ==> s[j].etype != k,
        },
    decreases s.len(),
{
    if s.len() > 0 && s[0].etype != k {
        lemma_first_of(s.drop_first(), k);
        assert forall|j: int| 0 < j < s.len() implies s[j] == s.drop_first()[j - 1] by {}
    }
}

pub proof fn lemma_count_bound(s: Seq<Entity>, k: EType)
    ensures
        count_kind(s, k) <= s.len(),
    decreases s.len(),
{
    if s.len() > 0 {
        lemma_count_bound(s.drop_last(), k);
    }
}

/// The number of entities of kind `etype`.
pub fn count_all_of(entities: &EntityColl, etype: EType) -> (r: u32)
    requires
        entities@.len() <= u32::MAX,
    ensures
        r == count_kind(entities@, etype),
{
    let mut n: u32 = 0;
    let mut i: usize = 0;
    while i < entities.len()
        invariant
            i <= entities@.len() <= u32::MAX,
            n == count_kind(entities@.take(i as int), etype),
        decreases entities@.len() - i,
    {
        proof {
            assert(entities@.take(i + 1).drop_last() =~= entities@.take(i as int));
            lemma_count_bound(entities@.take(i as int), etype);
        }
        if entities[i].etype == etype {
            n = n + 1;
        }
        i = i + 1;
    }
    assert(entities@.take(i as int) =~= entities@);
    n
}

/// The index of the first entity standing on `(x, y)`.
pub fn occupant_at(entities: &EntityColl, x: usize, y: usize) -> (r: Option<usize>)
    ensures
        r matches Some(i) ==> i < entities@.len() && first_at(entities@, Position { x, y }) == Some(
            i as int,
        ),
        r is None ==> first_at(entities@, Position { x, y }) is None,
{
    let pos = Position { x, y };
    proof {
        lemma_first_at(entities@, pos);
    }
    let mut i: usize = 0;
    while i < entities.len()
        invariant
            i <= entities@.len(),
            pos == (Position { x, y }),
            forall|j: int| 0 <= j < i ==> entities@[j].pos != pos,
            match first_at(entities@, pos) {
                Some(f) => 0 <= f < entities@.len() && entities@[f].pos == pos && forall|j: int|
                    0 <= j < f ==> entities@[j].pos != pos,
                None => forall|j: int| 0 <= j < entities@.len() ==> entities@[j].pos != pos,
            },
        decreases entities@.len() - i,
    {
        let e = entities[i];
        assert(e == entities@[i as int]);
        if e.pos.x == x && e.pos.y == y {
            assert(e.pos == pos);
            return Some(i);
        }
        i = i + 1;
    }
    None
}

/// Whether some entity stands on `(x, y)`.
pub fn check_collision(entities: &EntityColl, x: usize, y: usize) -> (r: bool)
    ensures
        r == occupied(entities@, Position { x, y }),
{
    proof {
        lemma_first_at(entities@, Position { x, y });
    }
    occupant_at(entities, x, y).is_some()
}

/// Takes out the first entity standing on `(x, y)`; the others keep their order.
pub fn get_collision(entities: &mut EntityColl, x: usize, y: usize) -> (r: Option<Entity>)
    ensures
        match first_at(old(entities)@, Position { x, y }) {
            Some(i) => r == Some(old(entities)@[i]) && final(entities)@ == old(
                entities,
            )@.remove(i),
            None => r is None && final(entities)@ == old(entities)@,
        },
{
    match occupant_at(entities, x, y) {
        Some(i) => entities.remove(i),
        None => None,
    }
}

/// The index of the first entity of kind `etype`.
pub(crate) fn first_index_of(entities: &EntityColl, etype: EType) -> (r: Option<usize>)
    ensures
        r matches Some(i) ==> i < entities@.len() && first_of(entities@, etype) == Some(i as int),
        r is None ==> first_of(entities@, etype) is None,
{
    proof {
        lemma_first_of(entities@, etype);
    }
    let mut i: usize = 0;
    while i < entities.len()
        invariant
            i <= entities@.len(),
            forall|j: int| 0 <= j < i ==> entities@[j].etype != etype,
            match first_of(entities@, etype) {
                Some(f) => 0 <= f < entities@.len() && entities@[f].etype == etype && forall|
                    j: int,
                | 0 <= j < f ==> entities@[j].etype != etype,
                None => forall|j: int| 0 <= j < entities@.len() ==> entities@[j].etype != etype,
            },
        decreases entities@.len() - i,
    {
        if entities[i].etype == etype {
            return Some(i);
        }
        i = i + 1;
    }
    None
}

/// Where the first entity of kind `etype` stands.
pub fn get_first_pos(entities: &EntityColl, etype: EType) -> (r: Option<Position>)
    ensures
        r == (match first_of(entities@, etype) {
            Some(i) => Some(entities@[i].pos),
            None => None,
        }),
{
    match first_index_of(entities, etype) {
        Some(i) => Some(entities[i].pos),
        None => None,
    }
}

/// Takes out the first entity of kind `etype`; the others keep their order.
pub fn get_first(entities: &mut EntityColl, etype: EType) -> (r: Option<Entity>)
    ensures
        match first_of(old(entities)@, etype) {
            Some(i) => r == Some(old(entities)@[i]) && final(entities)@ == old(
                entities,
            )@.remove(i),
            None => r is None && final(entities)@ == old(entities)@,
        },
{
    match first_index_of(entities, etype) {
        Some(i) => entities.remove(i),
        None => None,
    }
}

} // verus!
