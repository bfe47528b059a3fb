//! The hunting state machine, for any hunter species over any prey species:
//! idle, hunting a target, cooling down after a hit, eating after a kill.
use vstd::prelude::*;

use crate::agent::{
    clamp_value, find_index, index_of, lemma_find_from, value_ok, AgentState, Organism,
    table_wf, add_value, VALUE_LIMIT,
};
use crate::geometry::{diff, dist_sq, distance_sq, Point};
use crate::movement::Movement;
use crate::spatial_index::{hit_of, SpatialIndex};
use crate::timer::{ticked, Timer};

verus! {

/// What a hunter species does to its prey: damage per hit, the energy a
/// kill yields, the cooldown after a hit that did not kill, the time spent
/// eating, and the distance (exclusive) within which a hit lands.
#[derive(Clone, Copy, Debug, PartialEq, Eq, Structural)]
pub struct HuntConfig {
    pub damage: i64,
    pub energy_gain: i64,
    pub cooling_time: u64,
    pub eating_time: u64,
    pub attack_distance: u64,
}

impl HuntConfig {
    pub open spec fn wf(self) -> bool {
        &&& 0 <= self.damage <= VALUE_LIMIT
        &&& value_ok(self.energy_gain as int)
    }

    pub fn new(
        damage: i64,
        energy_gain: i64,
        cooling_time: u64,
        eating_time: u64,
        attack_distance: u64,
    ) -> (r: HuntConfig)
        ensures
            r == (HuntConfig { damage, energy_gain, cooling_time, eating_time, attack_distance }),
    {
        HuntConfig { damage, energy_gain, cooling_time, eating_time, attack_distance }
    }
}

pub open spec fn once_spec(duration: u64) -> Timer {
    Timer { duration, elapsed: 0, repeating: false, done: false }
}

/// The same record, no longer moving.
pub open spec fn halted(o: Organism) -> Organism {
    Organism { movement: Movement { direction: Point { x: 0, y: 0 }, ..o.movement }, ..o }
}

/// An idle hunter stops and takes the nearest prey of the index as target.
pub open spec fn find_prey_one(o: Organism, prey: Seq<crate::spatial_index::IndexEntry>) -> Organism {
    match o.state {
        AgentState::Idle => match hit_of(prey, o.pos, -1) {
            Some(h) => Organism { state: AgentState::Hunting { prey: h.1 }, ..halted(o) },
            None => halted(o),
        },
        _ => o,
    }
}

/// A hunting hunter heads for its target, or goes idle if it is gone.
pub open spec fn move_to_prey_one(o: Organism, prey: Seq<Organism>) -> Organism {
    match o.state {
        AgentState::Hunting { prey: e } => {
            let k = index_of(prey, e);
            if k < 0 {
                Organism { state: AgentState::Idle, ..o }
            } else {
                Organism {
                    movement: Movement {
                        speed: o.movement.speed,
                        direction: diff(prey[k].pos, o.pos),
                        stop_at_end: true,
                    },
                    ..o
                }
            }
        },
        _ => o,
    }
}

/// A cooling hunter stands still; when its timer fires it hunts the same
/// target again.
pub open spec fn cooling_one(o: Organism, dt: u64) -> Organism {
    match o.state {
        AgentState::AttackCooling { prey, timer } => {
            let (t, fired) = ticked(timer, dt);
            if fired {
                Organism { state: AgentState::Hunting { prey }, ..halted(o) }
            } else {
                Organism { state: AgentState::AttackCooling { prey, timer: t }, ..halted(o) }
            }
        },
        _ => o,
    }
}

/// An eating hunter stands still; when its timer fires it gains the
/// pending energy and goes idle.
pub open spec fn eating_one(o: Organism, dt: u64) -> Organism {
    match o.state {
        AgentState::Eating { timer, gain } => {
            let (t, fired) = ticked(timer, dt);
            if fired {
                Organism {
                    state: AgentState::Idle,
                    energy: clamp_value(o.energy + gain) as i64,
                    ..halted(o)
                }
            } else {
                Organism { state: AgentState::Eating { timer: t, gain }, ..halted(o) }
            }
        },
        _ => o,
    }
}

/// Resolves the attack of hunter `i`, given the hunters, the prey and the
/// prey killed so far in this pass.
pub open spec fn attack_step(
    h: Seq<Organism>,
    p: Seq<Organism>,
    killed: Seq<u64>,
    cfg: HuntConfig,
    i: int,
) -> (Seq<Organism>, Seq<Organism>, Seq<u64>) {
    let o = h[i];
    match o.state {
        AgentState::Hunting { prey: e } => {
            let k = index_of(p, e);
            if k < 0 || killed.contains(e) || dist_sq(o.pos, p[k].pos) >= (cfg.attack_distance as int)
                * (cfg.attack_distance as int) {
                (h, p, killed)
            } else {
                let hp = clamp_value(p[k].health - cfg.damage);
                let p2 = p.update(k, Organism { health: hp as i64, ..p[k] });
                if hp <= 0 {
                    (
                        h.update(
                            i,
                            Organism {
                                state: AgentState::Eating {
                                    timer: once_spec(cfg.eating_time),
                                    gain: cfg.energy_gain,
                                },
                                ..o
                            },
                        ),
                        p2,
                        killed.push(e),
                    )
                } else {
                    (
                        h.update(
                            i,
                            Organism {
                                state: AgentState::AttackCooling {
                                    prey: e,
                                    timer: once_spec(cfg.cooling_time),
                                },
                                ..o
                            },
                        ),
                        p2,
                        killed,
                    )
                }
            }
        },
        _ => (h, p, killed),
    }
}

/// The hunters, the prey and the kills after the first `n` hunters, in
/// table order, have attacked.
pub open spec fn attack_upto(h0: Seq<Organism>, p0: Seq<Organism>, cfg: HuntConfig, n: int) -> (
    Seq<Organism>,
    Seq<Organism>,
    Seq<u64>,
)
    decreases n,
{
    if n <= 0 {
        (h0, p0, Seq::empty())
    } else {
        let r = attack_upto(h0, p0, cfg, n - 1);
        attack_step(r.0, r.1, r.2, cfg, n - 1)
    }
}

pub open spec fn is_hunting(s: AgentState) -> bool {
    s is Hunting
}

pub open spec fn is_eating(s: AgentState) -> bool {
    s is Eating
}

pub open spec fn hunted(s: AgentState) -> u64 {
    match s {
        AgentState::Hunting { prey } => prey,
        _ => 0,
    }
}

fn halt(o: &mut Organism)
    ensures
        *final(o) == halted(*old(o)),
{
    o.movement.direction = Point::zero();
}

/// Idle hunters stop and take the prey nearest to them in `prey_index` as
/// their target; other hunters are left alone.
pub fn find_prey(hunters: &mut Vec<Organism>, prey_index: &SpatialIndex)
    requires
        table_wf(old(hunters)@),
        prey_index.wf(),
    ensures
        final(hunters)@.len() == old(hunters)@.len(),
        forall|i: int|
            0 <= i < old(hunters)@.len() ==> #[trigger] final(hunters)@[i] == find_prey_one(
                old(hunters)@[i],
                prey_index.stored(),
            ),
        table_wf(final(hunters)@),
{
    let ghost h0 = hunters@;
    let mut i: usize = 0;
    while i < hunters.len()
        invariant
            table_wf(h0),
            prey_index.wf(),
            hunters@.len() == h0.len(),
            i <= h0.len(),
            forall|j: int| 0 <= j < i ==> #[trigger] hunters@[j] == find_prey_one(h0[j], prey_index.stored()),
            forall|j: int| i <= j < h0.len() ==> #[trigger] hunters@[j] == h0[j],
        decreases h0.len() - i,
    {
        let mut o = hunters[i];
        assert(o == h0[i as int]);
        if let AgentState::Idle = o.state {
            halt(&mut o);
            if let Some(h) = prey_index.get_nearest(o.pos) {
                o.state = AgentState::Hunting { prey: h.1 };
            }
        }
        hunters.set(i, o);
        i = i + 1;
    }
    assert(table_wf(hunters@)) by {
        assert(forall|j: int| 0 <= j < h0.len() ==> #[trigger] hunters@[j].id == h0[j].id);
    }
}

/// Hunting hunters head for their target's position in `prey`; one whose
/// target is gone goes idle.
pub fn move_to_prey(hunters: &mut Vec<Organism>, prey: &Vec<Organism>)
    requires
        table_wf(old(hunters)@),
        table_wf(prey@),
    ensures
        final(hunters)@.len() == old(hunters)@.len(),
        forall|i: int|
            0 <= i < old(hunters)@.len() ==> #[trigger] final(hunters)@[i] == move_to_prey_one(
                old(hunters)@[i],
                prey@,
            ),
        table_wf(final(hunters)@),
{
    let ghost h0 = hunters@;
    let mut i: usize = 0;
    while i < hunters.len()
        invariant
            table_wf(h0),
            table_wf(prey@),
            hunters@.len() == h0.len(),
            i <= h0.len(),
            forall|j: int| 0 <= j < i ==> #[trigger] hunters@[j] == move_to_prey_one(h0[j], prey@),
            forall|j: int| 0 <= j < i ==> (#[trigger] hunters@[j]).wf(),
            forall|j: int| i <= j < h0.len() ==> #[trigger] hunters@[j] == h0[j],
        decreases h0.len() - i,
    {
        let mut o = hunters[i];
        assert(o == h0[i as int]);
        if let AgentState::Hunting { prey: e } = o.state {
            match find_index(prey, e) {
                Some(k) => {
                    o.movement = Movement::toward(o.movement.speed, o.pos, prey[k].pos);
                },
                None => {
                    o.state = AgentState::Idle;
                },
            }
        }
        hunters.set(i, o);
        i = i + 1;
    }
    assert(table_wf(hunters@)) by {
        assert(forall|j: int| 0 <= j < h0.len() ==> #[trigger] hunters@[j].id == h0[j].id);
    }
}

/// Cooling hunters stand still and count down; when the cooldown ends they
/// hunt the same target again, without a new search.
pub fn on_attack_cooling(hunters: &mut Vec<Organism>, dt: u64)
    requires
        table_wf(old(hunters)@),
    ensures
        final(hunters)@.len() == old(hunters)@.len(),
        forall|i: int|
            0 <= i < old(hunters)@.len() ==> #[trigger] final(hunters)@[i] == cooling_one(
                old(hunters)@[i],
                dt,
            ),
        table_wf(final(hunters)@),
{
    let ghost h0 = hunters@;
    let mut i: usize = 0;
    while i < hunters.len()
        invariant
            table_wf(h0),
            hunters@.len() == h0.len(),
            i <= h0.len(),
            forall|j: int| 0 <= j < i ==> #[trigger] hunters@[j] == cooling_one(h0[j], dt),
            forall|j: int| 0 <= j < i ==> (#[trigger] hunters@[j]).wf(),
            forall|j: int| i <= j < h0.len() ==> #[trigger] hunters@[j] == h0[j],
        decreases h0.len() - i,
    {
        let mut o = hunters[i];
        assert(o == h0[i as int]);
        if let AgentState::AttackCooling { prey, timer } = o.state {
            halt(&mut o);
            let mut t = timer;
            if t.tick(dt) {
                o.state = AgentState::Hunting { prey };
            } else {
                o.state = AgentState::AttackCooling { prey, timer: t };
            }
        }
        hunters.set(i, o);
        i = i + 1;
    }
    assert(table_wf(hunters@)) by {
        assert(forall|j: int| 0 <= j < h0.len() ==> #[trigger] hunters@[j].id == h0[j].id);
    }
}

/// Eating hunters stand still and count down; when eating ends they gain
/// the pending energy and go idle.
pub fn on_eating(hunters: &mut Vec<Organism>, dt: u64)
    requires
        table_wf(old(hunters)@),
    ensures
        final(hunters)@.len() == old(hunters)@.len(),
        forall|i: int|
            0 <= i < old(hunters)@.len() ==> #[trigger] final(hunters)@[i] == eating_one(
                old(hunters)@[i],
                dt,
            ),
        table_wf(final(hunters)@),
{
    let ghost h0 = hunters@;
    let mut i: usize = 0;
    while i < hunters.len()
        invariant
            table_wf(h0),
            hunters@.len() == h0.len(),
            i <= h0.len(),
            forall|j: int| 0 <= j < i ==> #[trigger] hunters@[j] == eating_one(h0[j], dt),
            forall|j: int| 0 <= j < i ==> (#[trigger] hunters@[j]).wf(),
            forall|j: int| i <= j < h0.len() ==> #[trigger] hunters@[j] == h0[j],
        decreases h0.len() - i,
    {
        let mut o = hunters[i];
        assert(o == h0[i as int]);
        if let AgentState::Eating { timer, gain } = o.state {
            halt(&mut o);
            let mut t = timer;
            if t.tick(dt) {
                o.energy = add_value(o.energy, gain);
                o.state = AgentState::Idle;
            } else {
                o.state = AgentState::Eating { timer: t, gain };
            }
        }
        hunters.set(i, o);
        i = i + 1;
    }
    assert(table_wf(hunters@)) by {
        assert(forall|j: int| 0 <= j < h0.len() ==> #[trigger] hunters@[j].id == h0[j].id);
    }
}

fn contains_id(v: &Vec<u64>, e: u64) -> (r: bool)
    ensures
        r == v@.contains(e),
{
    let mut i: usize = 0;
    while i < v.len()
        invariant
            i <= v@.len(),
            forall|j: int| 0 <= j < i ==> v@[j] != e,
        decreases v@.len() - i,
    {
        if v[i] == e {
            return true;
        }
        i = i + 1;
    }
    false
}

/// Hunters within reach of their target strike it, in table order. A hit
/// that brings the target's health to zero or below is a kill: the hunter
/// starts eating and the target is reported, once, for removal; later
/// hunters of the same target in this pass leave it alone, so the first
/// hunter in table order to land a lethal hit takes the whole reward. A hit
/// that does not kill starts the hunter's cooldown.
pub fn attack(hunters: &mut Vec<Organism>, prey: &mut Vec<Organism>, cfg: &HuntConfig) -> (killed:
    Vec<u64>)
    requires
        table_wf(old(hunters)@),
        table_wf(old(prey)@),
        cfg.wf(),
    ensures
        (final(hunters)@, final(prey)@, killed@) == attack_upto(
            old(hunters)@,
            old(prey)@,
            *cfg,
            old(hunters)@.len() as int,
        ),
        table_wf(final(hunters)@),
        table_wf(final(prey)@),
        final(hunters)@.len() == old(hunters)@.len(),
        final(prey)@.len() == old(prey)@.len(),
        forall|j: int|
            0 <= j < old(hunters)@.len() ==> (#[trigger] final(hunters)@[j]).id == old(hunters)@[j].id
                && final(hunters)@[j].pos == old(hunters)@[j].pos && final(hunters)@[j].health
                == old(hunters)@[j].health,
        forall|j: int|
            0 <= j < old(prey)@.len() ==> (#[trigger] final(prey)@[j]).id == old(prey)@[j].id
                && final(prey)@[j].pos == old(prey)@[j].pos,
        forall|j: int|
            0 <= j < old(prey)@.len() ==> (#[trigger] final(prey)@[j]).state == old(prey)@[j].state,
        forall|j: int|
            0 <= j < old(hunters)@.len() && (#[trigger] final(hunters)@[j]).state != old(hunters)@[j].state
                ==> is_hunting(old(hunters)@[j].state) && !(crate::agent::mate_of(final(hunters)@[j].state) is Some),
        killed@.no_duplicates(),
        forall|j: int|
            0 <= j < old(prey)@.len() && (#[trigger] final(prey)@[j]).health < old(prey)@[j].health
                && final(prey)@[j].health <= 0 ==> killed@.contains(old(prey)@[j].id),
        forall|k: int|
            #![trigger killed@[k]]
            0 <= k < killed@.len() ==> index_of(final(prey)@, killed@[k]) >= 0 && final(prey)@[index_of(final(prey)@, killed@[k])].health <= 0,
        forall|i: int|
            #![trigger final(hunters)@[i]]
            0 <= i < old(hunters)@.len() && is_eating(final(hunters)@[i].state) && !is_eating(
                old(hunters)@[i].state,
            ) ==> is_hunting(old(hunters)@[i].state) && killed@.contains(
                hunted(old(hunters)@[i].state),
            ),
        forall|i: int, j: int|
            0 <= i < old(hunters)@.len() && 0 <= j < old(hunters)@.len() && i != j && is_eating(
                #[trigger] final(hunters)@[i].state,
            ) && !is_eating(old(hunters)@[i].state) && is_eating(
                #[trigger] final(hunters)@[j].state,
            ) && !is_eating(old(hunters)@[j].state) ==> hunted(old(hunters)@[i].state) != hunted(
                old(hunters)@[j].state,
            ),
        forall|i: int|
            0 <= i < old(prey)@.len() ==> (#[trigger] final(prey)@[i]).health <= old(prey)@[i].health,
{
    let ghost h0 = hunters@;
    let ghost p0 = prey@;
    let mut killed: Vec<u64> = Vec::new();
    let mut i: usize = 0;
    while i < hunters.len()
        invariant
            cfg.wf(),
            table_wf(h0),
            table_wf(p0),
            table_wf(hunters@),
            table_wf(prey@),
            hunters@.len() == h0.len(),
            prey@.len() == p0.len(),
            i <= h0.len(),
            (hunters@, prey@, killed@) == attack_upto(h0, p0, *cfg, i as int),
            forall|j: int| i <= j < h0.len() ==> #[trigger] hunters@[j] == h0[j],
            forall|j: int| 0 <= j < p0.len() ==> (#[trigger] prey@[j]).id == p0[j].id && prey@[j].pos == p0[j].pos && prey@[j].state == p0[j].state,
            forall|j: int|
                0 <= j < h0.len() && (#[trigger] hunters@[j]).state != h0[j].state
                    ==> is_hunting(h0[j].state) && !(crate::agent::mate_of(hunters@[j].state) is Some),
            forall|j: int| 0 <= j < h0.len() ==> (#[trigger] hunters@[j]).id == h0[j].id && hunters@[j].pos == h0[j].pos && hunters@[j].health == h0[j].health,
            forall|j: int| 0 <= j < p0.len() ==> (#[trigger] prey@[j]).health <= p0[j].health,
            killed@.no_duplicates(),
            forall|j: int|
                0 <= j < p0.len() && (#[trigger] prey@[j]).health < p0[j].health && prey@[j].health
                    <= 0 ==> killed@.contains(p0[j].id),
            forall|k: int|
                #![trigger killed@[k]]
                0 <= k < killed@.len() ==> index_of(prey@, killed@[k]) >= 0 && prey@[index_of(
                    prey@,
                    killed@[k],
                )].health <= 0,
            forall|j: int|
                #![trigger hunters@[j]]
                0 <= j < i && is_eating(hunters@[j].state) && !is_eating(h0[j].state)
                    ==> is_hunting(h0[j].state) && killed@.contains(hunted(h0[j].state)),
            forall|a: int, b: int|
                0 <= a < i && 0 <= b < i && a != b && is_eating(#[trigger] hunters@[a].state)
                    && !is_eating(h0[a].state) && is_eating(#[trigger] hunters@[b].state)
                    && !is_eating(h0[b].state) ==> hunted(h0[a].state) != hunted(h0[b].state),
        decreases h0.len() - i,
    {
        let ghost hs = hunters@;
        let ghost ps = prey@;
        let ghost ks = killed@;
        let o = hunters[i];
        assert(o == h0[i as int]);
        proof {
            crate::agent::lemma_index_same_ids(p0, ps);
        }
        if let AgentState::Hunting { prey: e } = o.state {
            if let Some(k) = find_index(prey, e) {
                if !contains_id(&killed, e) {
                    let d = distance_sq(o.pos, prey[k].pos);
                    assert(cfg.attack_distance as u128 * cfg.attack_distance as u128
                        <= 0xffff_ffff_ffff_ffff * 0xffff_ffff_ffff_ffff) by (nonlinear_arith)
                        requires
                            cfg.attack_distance <= 0xffff_ffff_ffff_ffffu64,
                    ;
                    let reach: u128 = cfg.attack_distance as u128 * cfg.attack_distance as u128;
                    if d < reach {
                        let mut target = prey[k];
                        target.health = sub_value(target.health, cfg.damage);
                        prey.set(k, target);
                        let mut h = o;
                        if target.health <= 0 {
                            h.state = AgentState::Eating {
                                timer: Timer::once(cfg.eating_time),
                                gain: cfg.energy_gain,
                            };
                            killed.push(e);
                        } else {
                            h.state = AgentState::AttackCooling {
                                prey: e,
                                timer: Timer::once(cfg.cooling_time),
                            };
                        }
                        hunters.set(i, h);
                        proof {
                            crate::agent::lemma_index_same_ids(ps, prey@);
                            assert(table_wf(prey@)) by {
                                assert(forall|j: int| 0 <= j < p0.len() ==> #[trigger] prey@[j].id == ps[j].id);
                            }
                            assert(table_wf(hunters@)) by {
                                assert(forall|j: int| 0 <= j < h0.len() ==> #[trigger] hunters@[j].id == hs[j].id);
                            }
                            assert forall|j: int|
                                0 <= j < p0.len() && (#[trigger] prey@[j]).health < p0[j].health
                                    && prey@[j].health <= 0 implies killed@.contains(p0[j].id) by {
                                if j == k {
                                    assert(killed@[killed@.len() - 1] == e);
                                } else {
                                    assert(prey@[j] == ps[j]);
                                    if ks.contains(p0[j].id) {
                                        let w = choose|w: int| 0 <= w < ks.len() && ks[w] == p0[j].id;
                                        assert(killed@[w] == ks[w]);
                                    }
                                }
                            }
                            assert forall|kk: int|
                                #![trigger killed@[kk]]
                                0 <= kk < killed@.len() implies index_of(prey@, killed@[kk]) >= 0
                                && prey@[index_of(prey@, killed@[kk])].health <= 0 by {
                                if kk < ks.len() {
                                    assert(killed@[kk] == ks[kk]);
                                    let m = index_of(ps, ks[kk]);
                                    lemma_find_from(ps, ks[kk], 0);
                                    if m == k as int {
                                        assert(ks.contains(e));
                                    }
                                }
                            }
                            assert forall|a: int|
                                #![trigger hunters@[a]]
                                0 <= a < i + 1 && is_eating(hunters@[a].state) && !is_eating(h0[a].state)
                                    implies is_hunting(h0[a].state) && killed@.contains(hunted(h0[a].state)) by {
                                if a < i {
                                    assert(hs[a] == hunters@[a]);
                                    let w = choose|w: int| 0 <= w < ks.len() && ks[w] == hunted(h0[a].state);
                                    assert(killed@[w] == ks[w]);
                                } else {
                                    assert(killed@[killed@.len() - 1] == e);
                                }
                            }
                            assert forall|a: int, b: int|
                                0 <= a < i + 1 && 0 <= b < i + 1 && a != b && is_eating(#[trigger] hunters@[a].state)
                                    && !is_eating(h0[a].state) && is_eating(#[trigger] hunters@[b].state)
                                    && !is_eating(h0[b].state) implies hunted(h0[a].state) != hunted(h0[b].state) by {
                                if a < i && b < i {
                                    assert(hs[a] == hunters@[a] && hs[b] == hunters@[b]);
                                } else if a < i {
                                    assert(hs[a] == hunters@[a]);
                                    assert(ks.contains(hunted(h0[a].state)));
                                } else {
                                    assert(hs[b] == hunters@[b]);
                                    assert(ks.contains(hunted(h0[b].state)));
                                }
                            }
                        }
                    }
                }
            }
        }
        i = i + 1;
    }
    killed
}

/// `a - b`, held to the range of health and energy values.
pub fn sub_value(a: i64, b: i64) -> (r: i64)
    requires
        value_ok(a as int),
        value_ok(b as int),
    ensures
        r == clamp_value(a - b),
        value_ok(r as int),
{
    let s = a - b;
    if s < -VALUE_LIMIT {
        -VALUE_LIMIT
    } else if s > VALUE_LIMIT {
        VALUE_LIMIT
    } else {
        s
    }
}

} // verus!
