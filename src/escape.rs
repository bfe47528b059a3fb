//! The evasion state machine: on a coarse period, animals that can flee
//! turn away from the nearest threat within their detection radius, and
//! calm down once no threat is left within it.
use vstd::prelude::*;

use crate::agent::{escape_view, table_wf, AgentState, EscapeState, Organism};
use crate::geometry::{diff, square, Point};
use crate::hunting::halted;
use crate::movement::Movement;
use crate::spatial_index::{hit_of, IndexEntry, SpatialIndex};
use crate::timer::{ticked, Timer};

verus! {

/// The evasion tunables of a species: whether it can flee at all, and the
/// radius (inclusive) within which a threat is noticed.
#[derive(Clone, Copy, Debug, PartialEq, Eq, Structural)]
pub struct EscapeConfig {
    pub can_flee: bool,
    pub flee_distance: u64,
}

/// The nearest threat to `p` when it lies within `r` of it.
pub open spec fn threat_near(threats: Seq<IndexEntry>, p: Point, r: u64) -> Option<u64> {
    match hit_of(threats, p, -1) {
        Some(h) => if h.0 as int <= (r as int) * (r as int) {
            Some(h.1)
        } else {
            None
        },
        None => None,
    }
}

/// One animal's evasion decision at a re-check.
pub open spec fn escape_one(
    o: Organism,
    threats: Seq<IndexEntry>,
    positions: Map<u64, Point>,
    cfg: EscapeConfig,
) -> Organism {
    let near = threat_near(threats, o.pos, cfg.flee_distance);
    match escape_view(o.state, cfg.can_flee) {
        EscapeState::CanFlee => match near {
            Some(t) => Organism {
                state: AgentState::Fleeing,
                movement: Movement {
                    speed: o.movement.speed,
                    direction: diff(o.pos, positions[t]),
                    stop_at_end: false,
                },
                ..o
            },
            None => o,
        },
        EscapeState::Fleeing => match near {
            Some(t) => Organism {
                movement: Movement {
                    speed: o.movement.speed,
                    direction: diff(o.pos, positions[t]),
                    stop_at_end: false,
                },
                ..o
            },
            None => Organism { state: AgentState::Idle, ..halted(o) },
        },
        EscapeState::CantFlee => o,
    }
}

/// Advances the re-check timer by `dt` milliseconds; when it fires, every
/// animal that can flee and has a threat within its radius turns directly
/// away from the nearest one, and every fleeing animal with none left goes
/// idle and stops. Returns whether the re-check ran.
pub fn escape_from(
    animals: &mut Vec<Organism>,
    threats: &SpatialIndex,
    cfg: &EscapeConfig,
    timer: &mut Timer,
    dt: u64,
) -> (ran: bool)
    requires
        table_wf(old(animals)@),
        threats.wf(),
        old(timer).wf(),
    ensures
        (*final(timer), ran) == ticked(*old(timer), dt),
        final(timer).wf(),
        final(animals)@.len() == old(animals)@.len(),
        forall|i: int|
            0 <= i < old(animals)@.len() ==> #[trigger] final(animals)@[i] == (if ran {
                escape_one(old(animals)@[i], threats.stored(), threats@, *cfg)
            } else {
                old(animals)@[i]
            }),
        table_wf(final(animals)@),
{
    if !timer.tick(dt) {
        return false;
    }
    let ghost s0 = animals@;
    proof {
        threats.lemma_positions_valid();
    }
    let r2: u128 = square(cfg.flee_distance);
    let mut i: usize = 0;
    while i < animals.len()
        invariant
            table_wf(s0),
            threats.wf(),
            forall|e: u64| #[trigger] threats@.contains_key(e) ==> threats@[e].valid(),
            r2 == (cfg.flee_distance as int) * (cfg.flee_distance as int),
            animals@.len() == s0.len(),
            i <= s0.len(),
            forall|j: int|
                0 <= j < i ==> #[trigger] animals@[j] == escape_one(s0[j], threats.stored(), threats@, *cfg),
            forall|j: int| 0 <= j < i ==> (#[trigger] animals@[j]).wf(),
            forall|j: int| i <= j < s0.len() ==> #[trigger] animals@[j] == s0[j],
        decreases s0.len() - i,
    {
        let mut o = animals[i];
        assert(o == s0[i as int]);
        let view = o.escape_state(cfg.can_flee);
        let near: Option<Point> = match threats.get_nearest(o.pos) {
            Some(h) => {
                if h.0 <= r2 {
                    threats.get_pos(h.1)
                } else {
                    None
                }
            },
            None => None,
        };
        match view {
            EscapeState::CanFlee => {
                if let Some(tp) = near {
                    o.state = AgentState::Fleeing;
                    o.movement = Movement::away(o.movement.speed, o.pos, tp);
                }
            },
            EscapeState::Fleeing => {
                match near {
                    Some(tp) => {
                        o.movement = Movement::away(o.movement.speed, o.pos, tp);
                    },
                    None => {
                        o.state = AgentState::Idle;
                        o.movement.direction = Point::zero();
                    },
                }
            },
            EscapeState::CantFlee => {},
        }
        animals.set(i, o);
        i = i + 1;
    }
    assert(table_wf(animals@)) by {
        assert(forall|j: int| 0 <= j < s0.len() ==> #[trigger] animals@[j].id == s0[j].id);
    }
    true
}

} // verus!
