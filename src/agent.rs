//! The entity record shared by all species, its behaviour state, and the
//! views that the reproduction, evasion and presentation layers take of it.
use vstd::prelude::*;

use crate::geometry::Point;
use crate::movement::Movement;
use crate::timer::Timer;

verus! {

/// Largest magnitude of a health or energy value, in thousandths.
pub const VALUE_LIMIT: i64 = 1_152_921_504_606_846_976;

/// The behaviour state of an animal. Entities are referred to by id only;
/// a referenced entity may be gone by the time it is looked up.
#[derive(Clone, Copy, Debug, PartialEq, Eq, Structural)]
pub enum AgentState {
    Idle,
    Hunting { prey: u64 },
    AttackCooling { prey: u64, timer: Timer },
    Eating { timer: Timer, gain: i64 },
    SearchingMate { mate: u64 },
    Mating { mate: u64, timer: Timer },
    Fleeing,
}

/// How the reproduction rules see an animal's state.
#[derive(Clone, Copy, Debug, PartialEq, Eq, Structural)]
pub enum ReproductionState {
    Idle,
    SearchingMate,
    Mating,
    /// Busy with something else, but may be proposed to.
    OtherCanMate,
    /// Busy with something else, and may not be proposed to.
    OtherCantMate,
}

/// How the evasion rules see an animal's state.
#[derive(Clone, Copy, Debug, PartialEq, Eq, Structural)]
pub enum EscapeState {
    Fleeing,
    CanFlee,
    CantFlee,
}

/// The state of a cow as a presentation layer sees it.
#[derive(Clone, Copy, Debug, PartialEq, Eq, Structural)]
pub enum CowState {
    Idle,
    Hunting,
    AttackCooling,
    Eating,
    SearchingMate,
    Mating,
    Fleeing,
}

/// The state of a tiger as a presentation layer sees it.
#[derive(Clone, Copy, Debug, PartialEq, Eq, Structural)]
pub enum TigerState {
    Idle,
    Hunting,
    AttackCooling,
    Eating,
    SearchingMate,
    Mating,
}

/// One entity: a plant or an animal. Health and energy are counted in
/// thousandths; fields that a species does not use keep the values it was
/// created with.
#[derive(Clone, Copy, Debug, PartialEq, Eq, Structural)]
pub struct Organism {
    pub id: u64,
    pub pos: Point,
    pub health: i64,
    pub energy: i64,
    pub age: Timer,
    pub state: AgentState,
    pub movement: Movement,
    /// Period of a plant's reproduction attempts.
    pub growth: Timer,
    /// Number of other plants within a plant's reproduction radius.
    pub neighbor_count: u64,
}

pub open spec fn value_ok(v: int) -> bool {
    -VALUE_LIMIT <= v <= VALUE_LIMIT
}

/// `v` held to the range of health and energy values.
pub open spec fn clamp_value(v: int) -> int {
    if v < -VALUE_LIMIT {
        -VALUE_LIMIT as int
    } else if v > VALUE_LIMIT {
        VALUE_LIMIT as int
    } else {
        v
    }
}

/// `a + b`, held to the range of health and energy values.
pub fn add_value(a: i64, b: i64) -> (r: i64)
    requires
        value_ok(a as int),
        value_ok(b as int),
    ensures
        r == clamp_value(a + b),
        value_ok(r as int),
{
    let s = a + b;
    if s < -VALUE_LIMIT {
        -VALUE_LIMIT
    } else if s > VALUE_LIMIT {
        VALUE_LIMIT
    } else {
        s
    }
}

pub open spec fn state_wf(s: AgentState) -> bool {
    match s {
        AgentState::AttackCooling { timer, .. } => timer.wf() && !timer.repeating,
        AgentState::Eating { timer, gain } => timer.wf() && !timer.repeating && value_ok(
            gain as int,
        ),
        AgentState::Mating { timer, .. } => timer.wf() && !timer.repeating,
        _ => true,
    }
}

/// The partner a state refers to, if any.
pub open spec fn mate_of(s: AgentState) -> Option<u64> {
    match s {
        AgentState::SearchingMate { mate } => Some(mate),
        AgentState::Mating { mate, .. } => Some(mate),
        _ => None,
    }
}

pub open spec fn reproduction_view(s: AgentState) -> ReproductionState {
    match s {
        AgentState::Idle => ReproductionState::Idle,
        AgentState::SearchingMate { .. } => ReproductionState::SearchingMate,
        AgentState::Mating { .. } => ReproductionState::Mating,
        AgentState::Hunting { .. } => ReproductionState::OtherCanMate,
        _ => ReproductionState::OtherCantMate,
    }
}

pub open spec fn escape_view(s: AgentState, can_flee: bool) -> EscapeState {
    if !can_flee {
        EscapeState::CantFlee
    } else {
        match s {
            AgentState::Fleeing => EscapeState::Fleeing,
            _ => EscapeState::CanFlee,
        }
    }
}

impl Organism {
    pub open spec fn wf(self) -> bool {
        &&& self.pos.valid()
        &&& self.movement.wf()
        &&& self.age.wf()
        &&& self.growth.wf()
        &&& state_wf(self.state)
        &&& value_ok(self.health as int)
        &&& value_ok(self.energy as int)
    }

    /// How the reproduction rules see this entity.
    pub fn get_state(&self) -> (r: ReproductionState)
        ensures
            r == reproduction_view(self.state),
    {
        match self.state {
            AgentState::Idle => ReproductionState::Idle,
            AgentState::SearchingMate { .. } => ReproductionState::SearchingMate,
            AgentState::Mating { .. } => ReproductionState::Mating,
            AgentState::Hunting { .. } => ReproductionState::OtherCanMate,
            _ => ReproductionState::OtherCantMate,
        }
    }

    /// How the evasion rules see this entity, for a species that can flee
    /// or not.
    pub fn escape_state(&self, can_flee: bool) -> (r: EscapeState)
        ensures
            r == escape_view(self.state, can_flee),
    {
        if !can_flee {
            EscapeState::CantFlee
        } else {
            match self.state {
                AgentState::Fleeing => EscapeState::Fleeing,
                _ => EscapeState::CanFlee,
            }
        }
    }

    /// The partner this entity refers to, if any.
    pub fn get_mate(&self) -> (r: Option<u64>)
        ensures
            r == mate_of(self.state),
    {
        match self.state {
            AgentState::SearchingMate { mate } => Some(mate),
            AgentState::Mating { mate, .. } => Some(mate),
            _ => None,
        }
    }

    /// The target this entity hunts or will hunt again after cooling down.
    pub fn get_prey(&self) -> (r: Option<u64>)
        ensures
            r == (match self.state {
                AgentState::Hunting { prey } => Some(prey),
                AgentState::AttackCooling { prey, .. } => Some(prey),
                _ => None,
            }),
    {
        match self.state {
            AgentState::Hunting { prey } => Some(prey),
            AgentState::AttackCooling { prey, .. } => Some(prey),
            _ => None,
        }
    }
}

/// A cow's state for presentation.
pub fn cow_state_display(o: &Organism) -> (r: CowState)
    ensures
        r == (match o.state {
            AgentState::Idle => CowState::Idle,
            AgentState::Hunting { .. } => CowState::Hunting,
            AgentState::AttackCooling { .. } => CowState::AttackCooling,
            AgentState::Eating { .. } => CowState::Eating,
            AgentState::SearchingMate { .. } => CowState::SearchingMate,
            AgentState::Mating { .. } => CowState::Mating,
            AgentState::Fleeing => CowState::Fleeing,
        }),
{
    match o.state {
        AgentState::Idle => CowState::Idle,
        AgentState::Hunting { .. } => CowState::Hunting,
        AgentState::AttackCooling { .. } => CowState::AttackCooling,
        AgentState::Eating { .. } => CowState::Eating,
        AgentState::SearchingMate { .. } => CowState::SearchingMate,
        AgentState::Mating { .. } => CowState::Mating,
        AgentState::Fleeing => CowState::Fleeing,
    }
}

/// A tiger's state for presentation. Tigers never flee, so a fleeing state
/// is shown as idle.
pub fn tiger_state_display(o: &Organism) -> (r: TigerState)
    ensures
        r == (match o.state {
            AgentState::Hunting { .. } => TigerState::Hunting,
            AgentState::AttackCooling { .. } => TigerState::AttackCooling,
            AgentState::Eating { .. } => TigerState::Eating,
            AgentState::SearchingMate { .. } => TigerState::SearchingMate,
            AgentState::Mating { .. } => TigerState::Mating,
            _ => TigerState::Idle,
        }),
{
    match o.state {
        AgentState::Hunting { .. } => TigerState::Hunting,
        AgentState::AttackCooling { .. } => TigerState::AttackCooling,
        AgentState::Eating { .. } => TigerState::Eating,
        AgentState::SearchingMate { .. } => TigerState::SearchingMate,
        AgentState::Mating { .. } => TigerState::Mating,
        _ => TigerState::Idle,
    }
}

/// Every record is well formed and no id occurs twice.
pub open spec fn table_wf(s: Seq<Organism>) -> bool {
    &&& forall|i: int| 0 <= i < s.len() ==> (#[trigger] s[i]).wf()
    &&& forall|i: int, j: int|
        0 <= i < s.len() && 0 <= j < s.len() && i != j ==> #[trigger] s[i].id != #[trigger] s[j].id
}

/// Index of the first record with id `id` at or after `i`; `-1` if none.
pub open spec fn find_from(s: Seq<Organism>, id: u64, i: int) -> int
    decreases s.len() - i,
{
    if i < 0 || i >= s.len() {
        -1
    } else if s[i].id == id {
        i
    } else {
        find_from(s, id, i + 1)
    }
}

/// Index of the record with id `id`; `-1` if none.
pub open spec fn index_of(s: Seq<Organism>, id: u64) -> int {
    find_from(s, id, 0)
}

pub proof fn lemma_find_from(s: Seq<Organism>, id: u64, i: int)
    requires
        0 <= i <= s.len(),
    ensures
        find_from(s, id, i) == -1 || (i <= find_from(s, id, i) < s.len() && s[find_from(
            s,
            id,
            i,
        )].id == id),
        find_from(s, id, i) == -1 <==> forall|j: int| i <= j < s.len() ==> (#[trigger] s[j]).id
            != id,
    decreases s.len() - i,
{
    if i < s.len() {
        lemma_find_from(s, id, i + 1);
    }
}

/// Under distinct ids, the record at `j` is the one found for its id.
pub proof fn lemma_index_of_at(s: Seq<Organism>, j: int)
    requires
        table_wf(s),
        0 <= j < s.len(),
    ensures
        index_of(s, s[j].id) == j,
{
    lemma_find_from(s, s[j].id, 0);
    let k = index_of(s, s[j].id);
    if k != j {
        assert(s[k].id == s[j].id);
    }
}

/// Tables with the same ids in the same order find every id at the same
/// index.
pub proof fn lemma_find_same_ids(a: Seq<Organism>, b: Seq<Organism>, e: u64, i: int)
    requires
        a.len() == b.len(),
        0 <= i <= a.len(),
        forall|j: int| 0 <= j < a.len() ==> (#[trigger] b[j]).id == a[j].id,
    ensures
        find_from(a, e, i) == find_from(b, e, i),
    decreases a.len() - i,
{
    if i < a.len() {
        lemma_find_same_ids(a, b, e, i + 1);
    }
}

/// Tables with the same ids in the same order agree on `index_of`.
pub proof fn lemma_index_same_ids(a: Seq<Organism>, b: Seq<Organism>)
    requires
        a.len() == b.len(),
        forall|j: int| 0 <= j < a.len() ==> (#[trigger] b[j]).id == a[j].id,
    ensures
        forall|e: u64| index_of(a, e) == #[trigger] index_of(b, e),
{
    assert forall|e: u64| index_of(a, e) == #[trigger] index_of(b, e) by {
        lemma_find_same_ids(a, b, e, 0);
    }
}

/// Looks up the record with id `id`.
pub fn find_index(table: &Vec<Organism>, id: u64) -> (r: Option<usize>)
    ensures
        r is None <==> index_of(table@, id) < 0,
        r matches Some(i) ==> i as int == index_of(table@, id) && i < table@.len()
            && table@[i as int].id == id,
{
    proof {
        lemma_find_from(table@, id, 0);
    }
    let mut i: usize = 0;
    while i < table.len()
        invariant
            i <= table@.len(),
            find_from(table@, id, 0) == find_from(table@, id, i as int),
        decreases table@.len() - i,
    {
        if table[i].id == id {
            return Some(i);
        }
        i = i + 1;
    }
    None
}

} // verus!
