//! The whole ecosystem: plants, cows and tigers with one spatial index per
//! species, configuration, and the fixed-step tick that runs every
//! behaviour in a fixed order and applies births and deaths at barriers.
use vstd::prelude::*;

use crate::agent::{index_of, lemma_find_from, table_wf, value_ok, AgentState, Organism, VALUE_LIMIT};
use crate::escape::{escape_from, escape_one, EscapeConfig};
use crate::geometry::{Point, COORD_LIMIT};
use crate::grass::{on_grass_birth, on_grass_death};
use crate::hunting::{
    attack, attack_upto, cooling_one, eating_one, find_prey, find_prey_one, move_to_prey,
    move_to_prey_one, on_attack_cooling, on_eating, HuntConfig,
};
use crate::life::{
    aging_one, aging_system, depleted_upto, energy_one, energy_system, expired_upto,
    grass_reproduction_system, seeds_spec, GrassConfig,
};
use crate::movement::Movement;
use crate::reproduction::{
    find_mate_when_energy_enough_and_idle, holders_kept, lemma_find_mate_symmetric,
    lemma_strict_after_mating, lemma_symmetry_holders_kept, lemma_symmetry_push,
    lemma_symmetry_remove, mate_pairs, mates_symmetric, mating_conditions, mating_one,
    paired_one, reproduction_state_running, running_one, searching_mate_conditions,
    searching_one, births_upto, ReproductionConfig,
};
use crate::spatial_index::SpatialIndex;
use crate::sync::{
    add_entity, consistent, index_update, lemma_same_places, movement_one, movement_update,
    remove_entity, table_map,
};
use crate::timer::{ticked, Timer};

verus! {

/// The tunables of an animal species. Health and energy are in thousandths,
/// the lifetime in milliseconds, the speed in whole units per second.
#[derive(Clone, Copy, Debug, PartialEq, Eq, Structural)]
pub struct SpeciesConfig {
    pub health: i64,
    pub lifetime: u64,
    pub energy: i64,
    pub speed: u64,
    pub hunt: HuntConfig,
    pub reproduction: ReproductionConfig,
    pub escape: EscapeConfig,
}

impl SpeciesConfig {
    pub open spec fn wf(self) -> bool {
        &&& value_ok(self.health as int)
        &&& value_ok(self.energy as int)
        &&& self.hunt.wf()
        &&& self.reproduction.wf()
    }
}

/// The configuration of a run, immutable once the world is built. Lengths
/// are in thousandths of a unit, durations in milliseconds.
#[derive(Clone, Copy, Debug, PartialEq, Eq, Structural)]
pub struct Config {
    pub width: u64,
    pub height: u64,
    pub initial_grass_count: u64,
    pub initial_cow_count: u64,
    pub initial_tiger_count: u64,
    pub grass_health: i64,
    pub grass_lifetime: u64,
    pub grass_growth_period: u64,
    pub grass: GrassConfig,
    pub cow: SpeciesConfig,
    pub tiger: SpeciesConfig,
    pub escape_recheck: u64,
}

impl Config {
    pub open spec fn wf(self) -> bool {
        &&& value_ok(self.grass_health as int)
        &&& self.grass_growth_period > 0
        &&& self.escape_recheck > 0
        &&& self.cow.wf()
        &&& self.tiger.wf()
    }

    /// The standard tunables for a world of the given size (in whole units)
    /// and initial populations.
    pub fn from(
        width: u64,
        height: u64,
        initial_grass_count: u64,
        initial_cow_count: u64,
        initial_tiger_count: u64,
    ) -> (r: Config)
        requires
            width <= 1_000_000_000,
            height <= 1_000_000_000,
        ensures
            r.wf(),
            r.width == width * 1000,
            r.height == height * 1000,
            r == (Config {
                width: (width * 1000) as u64,
                height: (height * 1000) as u64,
                initial_grass_count,
                initial_cow_count,
                initial_tiger_count,
                grass_health: 10_000,
                grass_lifetime: 30_000,
                grass_growth_period: 8_000,
                grass: GrassConfig {
                    reproduction_radius: 50_000,
                    rate_sparse: 3_006_477_107,
                    rate_crowded: 858_993_459,
                },
                cow: SpeciesConfig {
                    health: 50_000,
                    lifetime: 100_000,
                    energy: 50_000,
                    speed: 20,
                    hunt: HuntConfig {
                        damage: 10_000,
                        energy_gain: 15_000,
                        cooling_time: 1_000,
                        eating_time: 2_000,
                        attack_distance: 10_000,
                    },
                    reproduction: ReproductionConfig {
                        energy_threshold: 100_000,
                        energy_cost: 40_000,
                        search_radius: 500_000,
                        reproduction_radius: 40_000,
                        mating_time: 5_000,
                    },
                    escape: EscapeConfig { can_flee: true, flee_distance: 100_000 },
                },
                tiger: SpeciesConfig {
                    health: 100_000,
                    lifetime: 200_000,
                    energy: 100_000,
                    speed: 25,
                    hunt: HuntConfig {
                        damage: 25_000,
                        energy_gain: 50_000,
                        cooling_time: 1_500,
                        eating_time: 3_000,
                        attack_distance: 10_000,
                    },
                    reproduction: ReproductionConfig {
                        energy_threshold: 150_000,
                        energy_cost: 60_000,
                        search_radius: 800_000,
                        reproduction_radius: 40_000,
                        mating_time: 8_000,
                    },
                    escape: EscapeConfig { can_flee: false, flee_distance: 0 },
                },
                escape_recheck: 500,
            }),
    {
        Config {
            width: width * 1000,
            height: height * 1000,
            initial_grass_count,
            initial_cow_count,
            initial_tiger_count,
            grass_health: 10_000,
            grass_lifetime: 30_000,
            grass_growth_period: 8_000,
            grass: GrassConfig {
                reproduction_radius: 50_000,
                rate_sparse: 3_006_477_107,
                rate_crowded: 858_993_459,
            },
            cow: SpeciesConfig {
                health: 50_000,
                lifetime: 100_000,
                energy: 50_000,
                speed: 20,
                hunt: HuntConfig {
                    damage: 10_000,
                    energy_gain: 15_000,
                    cooling_time: 1_000,
                    eating_time: 2_000,
                    attack_distance: 10_000,
                },
                reproduction: ReproductionConfig {
                    energy_threshold: 100_000,
                    energy_cost: 40_000,
                    search_radius: 500_000,
                    reproduction_radius: 40_000,
                    mating_time: 5_000,
                },
                escape: EscapeConfig { can_flee: true, flee_distance: 100_000 },
            },
            tiger: SpeciesConfig {
                health: 100_000,
                lifetime: 200_000,
                energy: 100_000,
                speed: 25,
                hunt: HuntConfig {
                    damage: 25_000,
                    energy_gain: 50_000,
                    cooling_time: 1_500,
                    eating_time: 3_000,
                    attack_distance: 10_000,
                },
                reproduction: ReproductionConfig {
                    energy_threshold: 150_000,
                    energy_cost: 60_000,
                    search_radius: 800_000,
                    reproduction_radius: 40_000,
                    mating_time: 8_000,
                },
                escape: EscapeConfig { can_flee: false, flee_distance: 0 },
            },
            escape_recheck: 500,
        }
    }
}

/// A plant as seeded or grown, from the configuration.
pub open spec fn grass_spec(config: Config, id: u64, pos: Point) -> Organism {
    Organism {
        id,
        pos,
        health: config.grass_health,
        energy: 0,
        age: Timer { duration: config.grass_lifetime, elapsed: 0, repeating: false, done: false },
        state: AgentState::Idle,
        movement: Movement { speed: 0, direction: Point { x: 0, y: 0 }, stop_at_end: false },
        growth: Timer {
            duration: config.grass_growth_period,
            elapsed: 0,
            repeating: true,
            done: false,
        },
        neighbor_count: 0,
    }
}

/// An animal as seeded or born, from its species' configuration.
pub open spec fn animal_spec(species: SpeciesConfig, id: u64, pos: Point) -> Organism {
    Organism {
        id,
        pos,
        health: species.health,
        energy: species.energy,
        age: Timer { duration: species.lifetime, elapsed: 0, repeating: false, done: false },
        state: AgentState::Idle,
        movement: Movement {
            speed: species.speed,
            direction: Point { x: 0, y: 0 },
            stop_at_end: false,
        },
        growth: Timer { duration: 0, elapsed: 0, repeating: false, done: false },
        neighbor_count: 0,
    }
}

/// A plant from the configuration.
pub fn grass_from_config(config: &Config, id: u64, pos: Point) -> (r: Organism)
    requires
        config.wf(),
        pos.valid(),
    ensures
        r == grass_spec(*config, id, pos),
        r.wf(),
{
    Organism {
        id,
        pos,
        health: config.grass_health,
        energy: 0,
        age: Timer::once(config.grass_lifetime),
        state: AgentState::Idle,
        movement: Movement::still(0),
        growth: Timer::repeating(config.grass_growth_period),
        neighbor_count: 0,
    }
}

/// An animal from its species' configuration.
pub fn animal_from_config(species: &SpeciesConfig, id: u64, pos: Point) -> (r: Organism)
    requires
        species.wf(),
        pos.valid(),
    ensures
        r == animal_spec(*species, id, pos),
        r.wf(),
{
    Organism {
        id,
        pos,
        health: species.health,
        energy: species.energy,
        age: Timer::once(species.lifetime),
        state: AgentState::Idle,
        movement: Movement::still(species.speed),
        growth: Timer::once(0),
        neighbor_count: 0,
    }
}

/// Every id of the table is below `n`.
pub open spec fn ids_below(t: Seq<Organism>, n: u64) -> bool {
    forall|j: int| 0 <= j < t.len() ==> (#[trigger] t[j]).id < n
}

/// A coordinate for the draw `roll` over a span of `extent` centred on
/// zero, held to the stored range.
pub open spec fn seed_coord(extent: u64, roll: u64) -> int {
    crate::geometry::clamp_coord((roll as int) % (extent + 1) - extent / 2)
}

/// Where an initial entity lands for the draws `rx` and `ry`: a point of
/// the world's rectangle, which is centred on the origin.
pub open spec fn seed_spec(width: u64, height: u64, rx: u64, ry: u64) -> Point {
    Point { x: seed_coord(width, rx) as i64, y: seed_coord(height, ry) as i64 }
}

fn seed_one(extent: u64, roll: u64) -> (r: i64)
    ensures
        r == seed_coord(extent, roll),
{
    let m: u128 = (roll as u128) % (extent as u128 + 1);
    let v: i128 = m as i128 - (extent / 2) as i128;
    if v < -(COORD_LIMIT as i128) {
        -COORD_LIMIT
    } else if v > COORD_LIMIT as i128 {
        COORD_LIMIT
    } else {
        v as i64
    }
}

/// Where an initial entity lands for the draws `rx` and `ry`.
pub fn seed_position(width: u64, height: u64, rx: u64, ry: u64) -> (p: Point)
    ensures
        p == seed_spec(width, height, rx, ry),
        p.valid(),
{
    Point { x: seed_one(width, rx), y: seed_one(height, ry) }
}

/// Same length, and the same id at the same position at every index.
pub open spec fn same_places(a: Seq<Organism>, b: Seq<Organism>) -> bool {
    &&& a.len() == b.len()
    &&& forall|j: int| 0 <= j < a.len() ==> (#[trigger] b[j]).id == a[j].id && b[j].pos == a[j].pos
}

/// Same length, and the same id at every index.
pub open spec fn same_ids(a: Seq<Organism>, b: Seq<Organism>) -> bool {
    &&& a.len() == b.len()
    &&& forall|j: int| 0 <= j < a.len() ==> (#[trigger] b[j]).id == a[j].id
}

proof fn lemma_keep_places(a: Seq<Organism>, b: Seq<Organism>, index: &SpatialIndex, n: u64)
    requires
        same_places(a, b),
        consistent(a, index),
        ids_below(a, n),
    ensures
        consistent(b, index),
        ids_below(b, n),
{
    lemma_same_places(a, b);
}

proof fn lemma_same_ids_dom(a: Seq<Organism>, b: Seq<Organism>)
    requires
        same_ids(a, b),
    ensures
        table_map(a).dom() =~= table_map(b).dom(),
{
    assert forall|e: u64| index_of(a, e) == #[trigger] index_of(b, e) by {
        crate::agent::lemma_find_same_ids(a, b, e, 0);
    }
}

proof fn lemma_remove_below(a: Seq<Organism>, k: int, n: u64)
    requires
        0 <= k < a.len(),
        ids_below(a, n),
    ensures
        ids_below(a.remove(k), n),
{
    let b = a.remove(k);
    assert forall|j: int| 0 <= j < b.len() implies (#[trigger] b[j]).id < n by {
        if j < k {
            assert(b[j] == a[j]);
        } else {
            assert(b[j] == a[j + 1]);
        }
    }
}

/// `b` holds exactly the records of `m` whose ids are not in `dead`,
/// unchanged.
pub open spec fn kept_exactly(m: Seq<Organism>, b: Seq<Organism>, dead: Seq<u64>) -> bool {
    &&& forall|j: int|
        0 <= j < b.len() ==> index_of(m, (#[trigger] b[j]).id) >= 0 && !dead.contains(b[j].id)
            && b[j] == m[index_of(m, b[j].id)]
    &&& forall|k: int|
        0 <= k < m.len() && !dead.contains((#[trigger] m[k]).id) ==> index_of(b, m[k].id) >= 0
}

proof fn lemma_remove_other(before: Seq<Organism>, kk: int, x: u64)
    requires
        0 <= kk < before.len(),
        index_of(before, x) >= 0,
        before[kk].id != x,
    ensures
        index_of(before.remove(kk), x) >= 0,
{
    lemma_find_from(before, x, 0);
    let j0 = index_of(before, x);
    let after = before.remove(kk);
    let j1 = if j0 < kk { j0 } else { j0 - 1 };
    assert(j0 != kk);
    assert(after[j1] == before[j0]);
    lemma_find_from(after, x, 0);
}

/// Removes every listed animal from the table and its index.
fn despawn_all(table: &mut Vec<Organism>, index: &mut SpatialIndex, ids: &Vec<u64>, bound: u64)
    requires
        table_wf(old(table)@),
        consistent(old(table)@, old(index)),
        ids_below(old(table)@, bound),
        mates_symmetric(old(table)@),
    ensures
        mates_symmetric(final(table)@),
        forall|e: u64| index_of(old(table)@, e) < 0 ==> #[trigger] index_of(final(table)@, e) < 0,
        table_wf(final(table)@),
        consistent(final(table)@, final(index)),
        ids_below(final(table)@, bound),
        forall|k: int| 0 <= k < ids@.len() ==> index_of(final(table)@, #[trigger] ids@[k]) < 0,
        kept_exactly(old(table)@, final(table)@, ids@),
{
    let ghost t0 = table@;
    proof {
        assert forall|j: int| 0 <= j < t0.len() implies index_of(t0, (#[trigger] t0[j]).id) >= 0
            && !ids@.subrange(0, 0).contains(t0[j].id) && t0[j] == t0[index_of(t0, t0[j].id)] by {
            crate::agent::lemma_index_of_at(t0, j);
        }
    }
    let mut i: usize = 0;
    while i < ids.len()
        invariant
            table_wf(table@),
            table_wf(t0),
            t0 == old(table)@,
            consistent(table@, index),
            i <= ids@.len(),
            ids_below(table@, bound),
            mates_symmetric(table@),
            kept_exactly(t0, table@, ids@.subrange(0, i as int)),
            forall|e: u64| index_of(old(table)@, e) < 0 ==> #[trigger] index_of(table@, e) < 0,
            forall|k: int| 0 <= k < i ==> index_of(table@, #[trigger] ids@[k]) < 0,
        decreases ids@.len() - i,
    {
        let ghost before = table@;
        remove_entity(table, index, ids[i]);
        proof {
            let e = ids@[i as int];
            lemma_find_from(before, e, 0);
            if index_of(before, e) >= 0 {
                lemma_remove_below(before, index_of(before, e), bound);
                lemma_symmetry_remove(before, index_of(before, e));
            }
            assert forall|x: u64| index_of(old(table)@, x) < 0 implies #[trigger] index_of(table@, x) < 0 by {
                assert(index_of(before, x) < 0);
                lemma_find_from(before, x, 0);
                lemma_find_from(table@, x, 0);
                if index_of(table@, x) >= 0 {
                    let j = index_of(table@, x);
                    if index_of(before, e) >= 0 {
                        let kk = index_of(before, e);
                        let m = if j < kk { j } else { j + 1 };
                        assert(before.remove(kk)[j] == before[m]);
                    } else {
                        assert(table@[j] == before[j]);
                    }
                }
            }
            assert forall|k: int| 0 <= k < i + 1 implies index_of(table@, #[trigger] ids@[k]) < 0 by {
                if k < i {
                    lemma_find_from(before, ids@[k], 0);
                    lemma_find_from(table@, ids@[k], 0);
                    if index_of(table@, ids@[k]) >= 0 {
                        let j = index_of(table@, ids@[k]);
                        if index_of(before, e) >= 0 {
                            let kk = index_of(before, e);
                            let m = if j < kk { j } else { j + 1 };
                            assert(before.remove(kk)[j] == before[m]);
                        } else {
                            assert(table@[j] == before[j]);
                        }
                    }
                }
            }
            let d0 = ids@.subrange(0, i as int);
            let d1 = ids@.subrange(0, i + 1);
            assert(d1 =~= d0.push(e));
            assert(forall|x: u64| d1.contains(x) <==> (d0.contains(x) || x == e)) by {
                assert forall|x: u64| d1.contains(x) <==> (d0.contains(x) || x == e) by {
                    if d1.contains(x) {
                        let w = choose|w: int| 0 <= w < d1.len() && d1[w] == x;
                        if w < d0.len() {
                            assert(d0[w] == x);
                        }
                    }
                    if d0.contains(x) {
                        let w = choose|w: int| 0 <= w < d0.len() && d0[w] == x;
                        assert(d1[w] == x);
                    }
                    if x == e {
                        assert(d1[i as int] == x);
                    }
                }
            }
            lemma_find_from(table@, e, 0);
            assert forall|j: int| 0 <= j < table@.len() implies index_of(t0, (#[trigger] table@[j]).id)
                >= 0 && !d1.contains(table@[j].id) && table@[j] == t0[index_of(t0, table@[j].id)] by {
                let m = if index_of(before, e) >= 0 {
                    let kk = index_of(before, e);
                    if j < kk { j } else { j + 1 }
                } else {
                    j
                };
                if index_of(before, e) >= 0 {
                    assert(before.remove(index_of(before, e))[j] == before[m]);
                }
                assert(table@[j] == before[m]);
                assert(table@[j].id != e);
            }
            assert forall|k: int| 0 <= k < t0.len() && !d1.contains((#[trigger] t0[k]).id) implies index_of(
                table@,
                t0[k].id,
            ) >= 0 by {
                assert(index_of(before, t0[k].id) >= 0);
                if index_of(before, e) >= 0 {
                    let kk = index_of(before, e);
                    assert(before[kk].id == e);
                    lemma_remove_other(before, kk, t0[k].id);
                }
            }
        }
        i = i + 1;
    }
    assert(ids@.subrange(0, ids@.len() as int) =~= ids@);
}

/// Removes every listed plant, keeping the neighbour counts of the rest.
fn despawn_all_grass(
    grass: &mut Vec<Organism>,
    index: &mut SpatialIndex,
    ids: &Vec<u64>,
    radius: u64,
    bound: u64,
)
    requires
        table_wf(old(grass)@),
        consistent(old(grass)@, old(index)),
        ids_below(old(grass)@, bound),
    ensures
        forall|e: u64| index_of(old(grass)@, e) < 0 ==> #[trigger] index_of(final(grass)@, e) < 0,
        table_wf(final(grass)@),
        consistent(final(grass)@, final(index)),
        ids_below(final(grass)@, bound),
        forall|k: int| 0 <= k < ids@.len() ==> index_of(final(grass)@, #[trigger] ids@[k]) < 0,
{
    let mut i: usize = 0;
    while i < ids.len()
        invariant
            table_wf(grass@),
            consistent(grass@, index),
            i <= ids@.len(),
            ids_below(grass@, bound),
            forall|e: u64| index_of(old(grass)@, e) < 0 ==> #[trigger] index_of(grass@, e) < 0,
            forall|k: int| 0 <= k < i ==> index_of(grass@, #[trigger] ids@[k]) < 0,
        decreases ids@.len() - i,
    {
        let ghost before = grass@;
        on_grass_death(grass, index, ids[i], radius);
        proof {
            let e = ids@[i as int];
            lemma_find_from(before, e, 0);
            if index_of(before, e) >= 0 {
                let kk = index_of(before, e);
                lemma_remove_below(before, kk, bound);
                let rest = before.remove(kk);
                assert forall|j: int| 0 <= j < grass@.len() implies (#[trigger] grass@[j]).id < bound by {
                    assert(grass@[j].id == rest[j].id);
                }
            }
            assert forall|x: u64| index_of(old(grass)@, x) < 0 implies #[trigger] index_of(grass@, x) < 0 by {
                assert(index_of(before, x) < 0);
                lemma_find_from(before, x, 0);
                lemma_find_from(grass@, x, 0);
                if index_of(grass@, x) >= 0 {
                    let j = index_of(grass@, x);
                    if index_of(before, e) >= 0 {
                        let kk = index_of(before, e);
                        let m = if j < kk { j } else { j + 1 };
                        assert(before.remove(kk)[j] == before[m]);
                        assert(grass@[j].id == before.remove(kk)[j].id);
                    } else {
                        assert(grass@[j] == before[j]);
                    }
                }
            }
            assert forall|k: int| 0 <= k < i + 1 implies index_of(grass@, #[trigger] ids@[k]) < 0 by {
                if k < i {
                    lemma_find_from(before, ids@[k], 0);
                    lemma_find_from(grass@, ids@[k], 0);
                    if index_of(grass@, ids@[k]) >= 0 {
                        let j = index_of(grass@, ids@[k]);
                        if index_of(before, e) >= 0 {
                            let kk = index_of(before, e);
                            let m = if j < kk { j } else { j + 1 };
                            assert(before.remove(kk)[j] == before[m]);
                            assert(grass@[j].id == before.remove(kk)[j].id);
                        } else {
                            assert(grass@[j] == before[j]);
                        }
                    }
                }
            }
        }
        i = i + 1;
    }
}

/// Every entity of `t` was already in `s`, or has an id of at least `n`.
pub open spec fn kept_or_new(s: Seq<Organism>, t: Seq<Organism>, n: u64) -> bool {
    forall|j: int| 0 <= j < t.len() ==> index_of(s, (#[trigger] t[j]).id) >= 0 || t[j].id >= n
}

/// None of `ids` is in `t`.
pub open spec fn gone(t: Seq<Organism>, ids: Seq<u64>) -> bool {
    forall|k: int| 0 <= k < ids.len() ==> index_of(t, #[trigger] ids[k]) < 0
}

proof fn lemma_gone_same_ids(a: Seq<Organism>, b: Seq<Organism>, ids: Seq<u64>)
    requires
        same_ids(a, b),
        gone(a, ids),
    ensures
        gone(b, ids),
{
    assert forall|k: int| 0 <= k < ids.len() implies index_of(b, #[trigger] ids[k]) < 0 by {
        crate::agent::lemma_find_same_ids(a, b, ids[k], 0);
    }
}

proof fn lemma_keep_gone(a: Seq<Organism>, b: Seq<Organism>, x: Seq<u64>, y: Seq<u64>)
    requires
        same_places(a, b),
        gone(a, x),
        gone(a, y),
    ensures
        gone(b, x),
        gone(b, y),
{
    assert(same_ids(a, b));
    lemma_gone_same_ids(a, b, x);
    lemma_gone_same_ids(a, b, y);
}

proof fn lemma_gone_after_spawn(pre: Seq<Organism>, fin: Seq<Organism>, ids: Seq<u64>, n: u64)
    requires
        gone(pre, ids),
        kept_or_new(pre, fin, n),
        forall|k: int| 0 <= k < ids.len() ==> #[trigger] ids[k] < n,
    ensures
        gone(fin, ids),
{
    assert forall|k: int| 0 <= k < ids.len() implies index_of(fin, #[trigger] ids[k]) < 0 by {
        lemma_find_from(fin, ids[k], 0);
        if index_of(fin, ids[k]) >= 0 {
            let j = index_of(fin, ids[k]);
            assert(fin[j].id == ids[k]);
        }
    }
}

proof fn lemma_expired_below(s: Seq<Organism>, dt: u64, n: int, b: u64)
    requires
        0 <= n <= s.len(),
        ids_below(s, b),
    ensures
        forall|k: int|
            0 <= k < expired_upto(s, dt, n).len() ==> #[trigger] expired_upto(s, dt, n)[k] < b,
    decreases n,
{
    if n > 0 {
        lemma_expired_below(s, dt, n - 1, b);
        let prev = expired_upto(s, dt, n - 1);
        let cur = expired_upto(s, dt, n);
        assert forall|k: int| 0 <= k < cur.len() implies #[trigger] cur[k] < b by {
            if k < prev.len() {
                assert(cur[k] == prev[k]);
            } else {
                assert(cur[k] == s[n - 1].id);
            }
        }
    }
}

proof fn lemma_depleted_below(s: Seq<Organism>, dt: u64, n: int, b: u64)
    requires
        0 <= n <= s.len(),
        ids_below(s, b),
    ensures
        forall|k: int|
            0 <= k < depleted_upto(s, dt, n).len() ==> #[trigger] depleted_upto(s, dt, n)[k] < b,
    decreases n,
{
    if n > 0 {
        lemma_depleted_below(s, dt, n - 1, b);
        let prev = depleted_upto(s, dt, n - 1);
        let cur = depleted_upto(s, dt, n);
        assert forall|k: int| 0 <= k < cur.len() implies #[trigger] cur[k] < b by {
            if k < prev.len() {
                assert(cur[k] == prev[k]);
            } else {
                assert(cur[k] == s[n - 1].id);
            }
        }
    }
}

proof fn lemma_depleted_same(a: Seq<Organism>, c: Seq<Organism>, dt: u64, n: int)
    requires
        0 <= n <= a.len(),
        a.len() == c.len(),
        forall|j: int| 0 <= j < a.len() ==> (#[trigger] c[j]).id == a[j].id && c[j].energy == a[j].energy,
    ensures
        depleted_upto(c, dt, n) == depleted_upto(a, dt, n),
    decreases n,
{
    if n > 0 {
        lemma_depleted_same(a, c, dt, n - 1);
    }
}

proof fn lemma_kept_same(s: Seq<Organism>, n: u64)
    requires
        table_wf(s),
    ensures
        kept_or_new(s, s, n),
{
    assert forall|j: int| 0 <= j < s.len() implies index_of(s, (#[trigger] s[j]).id) >= 0 || s[j].id >= n by {
        crate::agent::lemma_index_of_at(s, j);
    }
}

proof fn lemma_kept_chain(s: Seq<Organism>, t: Seq<Organism>, u: Seq<Organism>, n: u64, m: u64)
    requires
        kept_or_new(s, t, n),
        kept_or_new(t, u, m),
        n <= m,
    ensures
        kept_or_new(s, u, n),
{
    assert forall|j: int| 0 <= j < u.len() implies index_of(s, (#[trigger] u[j]).id) >= 0 || u[j].id >= n by {
        if index_of(t, u[j].id) >= 0 {
            lemma_find_from(t, u[j].id, 0);
            let k = index_of(t, u[j].id);
            assert(t[k].id == u[j].id);
        }
    }
}

/// No behaviour step changes an entity's health: the only step that does
/// is an attack, which never raises it (see `attack`). There is no healing.
pub proof fn lemma_health_only_falls(
    o: Organism,
    s: Seq<Organism>,
    entries: Seq<crate::spatial_index::IndexEntry>,
    positions: Map<u64, Point>,
    dt: u64,
    rc: ReproductionConfig,
    ec: EscapeConfig,
    pairs: Seq<(u64, u64)>,
)
    ensures
        crate::life::aging_one(o, dt).health == o.health,
        crate::life::energy_one(o, dt).health == o.health,
        crate::life::growth_one(o, dt).health == o.health,
        crate::escape::escape_one(o, entries, positions, ec).health == o.health,
        crate::reproduction::searching_one(o, s, rc).health == o.health,
        crate::reproduction::mating_one(o, s, dt, rc).health == o.health,
        crate::reproduction::paired_one(o, pairs).health == o.health,
        crate::reproduction::running_one(o, positions).health == o.health,
        crate::hunting::find_prey_one(o, entries).health == o.health,
        crate::hunting::move_to_prey_one(o, s).health == o.health,
        crate::hunting::cooling_one(o, dt).health == o.health,
        crate::hunting::eating_one(o, dt).health == o.health,
        crate::sync::movement_one(o, dt).health == o.health,
        crate::grass::recount(o, true).health == o.health,
        crate::grass::recount(o, false).health == o.health,
{
}

/// Every id absent from `a` is absent from `b`.
pub open spec fn no_return(a: Seq<Organism>, b: Seq<Organism>) -> bool {
    forall|e: u64| index_of(a, e) < 0 ==> #[trigger] index_of(b, e) < 0
}

proof fn lemma_no_return_same_ids(a: Seq<Organism>, b: Seq<Organism>)
    requires
        a.len() == b.len(),
        forall|j: int| 0 <= j < a.len() ==> (#[trigger] b[j]).id == a[j].id,
    ensures
        no_return(a, b),
{
    crate::agent::lemma_index_same_ids(a, b);
}

proof fn lemma_no_return_chain(a: Seq<Organism>, b: Seq<Organism>, c: Seq<Organism>)
    requires
        no_return(a, b),
        no_return(b, c),
    ensures
        no_return(a, c),
{
    assert forall|e: u64| index_of(a, e) < 0 implies #[trigger] index_of(c, e) < 0 by {
        assert(index_of(b, e) < 0);
    }
}

proof fn lemma_gone_kept(a: Seq<Organism>, b: Seq<Organism>, c: Seq<Organism>, ids: Seq<u64>)
    requires
        gone(a, ids),
        no_return(a, b),
        no_return(b, c),
    ensures
        gone(c, ids),
{
    assert forall|k: int| 0 <= k < ids.len() implies index_of(c, #[trigger] ids[k]) < 0 by {
        assert(index_of(a, ids[k]) < 0);
        assert(index_of(b, ids[k]) < 0);
    }
}

pub open spec fn map_aging(s: Seq<Organism>, dt: u64) -> Seq<Organism> {
    Seq::new(s.len(), |i: int| aging_one(s[i], dt))
}

pub open spec fn map_energy(s: Seq<Organism>, dt: u64) -> Seq<Organism> {
    Seq::new(s.len(), |i: int| energy_one(s[i], dt))
}

pub open spec fn map_escape(
    s: Seq<Organism>,
    threats: Seq<crate::spatial_index::IndexEntry>,
    positions: Map<u64, Point>,
    cfg: EscapeConfig,
) -> Seq<Organism> {
    Seq::new(s.len(), |i: int| escape_one(s[i], threats, positions, cfg))
}

pub open spec fn searched(s: Seq<Organism>, cfg: ReproductionConfig) -> Seq<Organism> {
    Seq::new(s.len(), |i: int| searching_one(s[i], s, cfg))
}

pub open spec fn mated(s: Seq<Organism>, dt: u64, cfg: ReproductionConfig) -> Seq<Organism> {
    Seq::new(s.len(), |i: int| mating_one(s[i], s, dt, cfg))
}

pub open spec fn paired(s: Seq<Organism>, cfg: ReproductionConfig) -> Seq<Organism> {
    Seq::new(s.len(), |i: int| paired_one(s[i], mate_pairs(s, cfg)))
}

pub open spec fn map_find_prey(s: Seq<Organism>, prey: Seq<crate::spatial_index::IndexEntry>) -> Seq<
    Organism,
> {
    Seq::new(s.len(), |i: int| find_prey_one(s[i], prey))
}

pub open spec fn map_move_to_prey(s: Seq<Organism>, prey: Seq<Organism>) -> Seq<Organism> {
    Seq::new(s.len(), |i: int| move_to_prey_one(s[i], prey))
}

pub open spec fn map_cooling(s: Seq<Organism>, dt: u64) -> Seq<Organism> {
    Seq::new(s.len(), |i: int| cooling_one(s[i], dt))
}

pub open spec fn map_eating(s: Seq<Organism>, dt: u64) -> Seq<Organism> {
    Seq::new(s.len(), |i: int| eating_one(s[i], dt))
}

pub open spec fn map_running(s: Seq<Organism>, positions: Map<u64, Point>) -> Seq<Organism> {
    Seq::new(s.len(), |i: int| running_one(s[i], positions))
}

pub open spec fn map_movement(s: Seq<Organism>, dt: u64) -> Seq<Organism> {
    Seq::new(s.len(), |i: int| movement_one(s[i], dt))
}

/// The same record but for the neighbour count.
pub open spec fn same_but_count(x: Organism, y: Organism) -> bool {
    Organism { neighbor_count: 0, ..x } == Organism { neighbor_count: 0, ..y }
}

/// Every position is in range.
pub open spec fn all_valid(ps: Seq<Point>) -> bool {
    forall|k: int| 0 <= k < ps.len() ==> (#[trigger] ps[k]).valid()
}

/// `t` followed by one animal per position, ids counted up from `first`.
pub open spec fn with_animals(t: Seq<Organism>, species: SpeciesConfig, first: int, ps: Seq<Point>) -> Seq<
    Organism,
> {
    t + Seq::new(ps.len(), |k: int| animal_spec(species, (first + k) as u64, ps[k]))
}

/// `b` is `a` followed by one plant per position, ids counted up from
/// `first`, up to neighbour counts.
pub open spec fn with_plants(a: Seq<Organism>, b: Seq<Organism>, config: Config, first: int, ps: Seq<Point>) -> bool {
    &&& b.len() == a.len() + ps.len()
    &&& forall|j: int| 0 <= j < a.len() ==> same_but_count(#[trigger] b[j], a[j])
    &&& forall|k: int|
        0 <= k < ps.len() ==> same_but_count(
            #[trigger] b[a.len() + k],
            grass_spec(config, (first + k) as u64, ps[k]),
        )
}

/// `b` is `a` (up to neighbour counts) followed by plants as the
/// configuration makes them, each at a point of the world's rectangle.
pub open spec fn seeded_plants(a: Seq<Organism>, b: Seq<Organism>, config: Config) -> bool {
    &&& b.len() >= a.len()
    &&& forall|j: int| 0 <= j < a.len() ==> same_but_count(#[trigger] b[j], a[j])
    &&& forall|k: int|
        a.len() <= k < b.len() ==> exists|rx: u64, ry: u64|
            same_but_count(
                #[trigger] b[k],
                grass_spec(config, b[k].id, seed_spec(config.width, config.height, rx, ry)),
            )
}

/// `b` is `a` followed by animals as `species` makes them, each at a point
/// of the `width` by `height` rectangle.
pub open spec fn seeded_animals(
    a: Seq<Organism>,
    b: Seq<Organism>,
    species: SpeciesConfig,
    width: u64,
    height: u64,
) -> bool {
    &&& b.len() >= a.len()
    &&& forall|j: int| 0 <= j < a.len() ==> #[trigger] b[j] == a[j]
    &&& forall|k: int|
        a.len() <= k < b.len() ==> exists|rx: u64, ry: u64|
            #[trigger] b[k] == animal_spec(species, b[k].id, seed_spec(width, height, rx, ry))
}

/// Which species an entity is spawned as.
#[derive(Clone, Copy, Debug, PartialEq, Eq, Structural)]
pub enum Species {
    Grass,
    Cow,
    Tiger,
}

/// The ecosystem.
pub struct World {
    config: Config,
    grass: Vec<Organism>,
    cows: Vec<Organism>,
    tigers: Vec<Organism>,
    grass_index: SpatialIndex,
    cow_index: SpatialIndex,
    tiger_index: SpatialIndex,
    escape_timer: Timer,
    next_id: u64,
}

impl World {
    /// Tables are well formed, each index holds exactly its table's
    /// entities at their positions, and every id is below the next one to
    /// be handed out.
    pub closed spec fn wf(&self) -> bool {
        &&& self.config.wf()
        &&& table_wf(self.grass@)
        &&& table_wf(self.cows@)
        &&& table_wf(self.tigers@)
        &&& consistent(self.grass@, &self.grass_index)
        &&& consistent(self.cows@, &self.cow_index)
        &&& consistent(self.tigers@, &self.tiger_index)
        &&& self.escape_timer.wf()
        &&& ids_below(self.grass@, self.next_id)
        &&& ids_below(self.cows@, self.next_id)
        &&& ids_below(self.tigers@, self.next_id)
        &&& mates_symmetric(self.cows@)
        &&& mates_symmetric(self.tigers@)
    }

    /// Mates refer to each other in both animal tables.
    pub proof fn lemma_mates_symmetric(&self)
        requires
            self.wf(),
        ensures
            mates_symmetric(self.cows_view()),
            mates_symmetric(self.tigers_view()),
    {
    }

    pub closed spec fn config_spec(&self) -> Config {
        self.config
    }

    /// The id the next spawned entity receives.
    pub closed spec fn next_id_view(&self) -> u64 {
        self.next_id
    }

    pub closed spec fn grass_view(&self) -> Seq<Organism> {
        self.grass@
    }

    pub closed spec fn cows_view(&self) -> Seq<Organism> {
        self.cows@
    }

    pub closed spec fn tigers_view(&self) -> Seq<Organism> {
        self.tigers@
    }

    /// An empty world with the given configuration.
    pub fn new(config: Config) -> (r: World)
        requires
            config.wf(),
        ensures
            r.wf(),
            r.config_spec() == config,
            r.grass_view().len() == 0,
            r.cows_view().len() == 0,
            r.tigers_view().len() == 0,
    {
        let r = World {
            config,
            grass: Vec::new(),
            cows: Vec::new(),
            tigers: Vec::new(),
            grass_index: SpatialIndex::new(),
            cow_index: SpatialIndex::new(),
            tiger_index: SpatialIndex::new(),
            escape_timer: Timer::repeating(config.escape_recheck),
            next_id: 0,
        };
        assert(table_map(r.grass@) =~= Map::<u64, Point>::empty());
        assert(table_map(r.cows@) =~= Map::<u64, Point>::empty());
        assert(table_map(r.tigers@) =~= Map::<u64, Point>::empty());
        r
    }

    pub fn config(&self) -> (r: &Config)
        ensures
            *r == self.config_spec(),
    {
        &self.config
    }

    pub fn grass(&self) -> (r: &Vec<Organism>)
        ensures
            r@ == self.grass_view(),
    {
        &self.grass
    }

    pub fn cows(&self) -> (r: &Vec<Organism>)
        ensures
            r@ == self.cows_view(),
    {
        &self.cows
    }

    pub fn tigers(&self) -> (r: &Vec<Organism>)
        ensures
            r@ == self.tigers_view(),
    {
        &self.tigers
    }

    /// The index of this species, in step with its table between ticks.
    pub fn grass_index(&self) -> (r: &SpatialIndex)
        requires
            self.wf(),
        ensures
            r.wf(),
            r@ == table_map(self.grass_view()),
    {
        &self.grass_index
    }

    /// The index of this species, in step with its table between ticks.
    pub fn cow_index(&self) -> (r: &SpatialIndex)
        requires
            self.wf(),
        ensures
            r.wf(),
            r@ == table_map(self.cows_view()),
    {
        &self.cow_index
    }

    /// The index of this species, in step with its table between ticks.
    pub fn tiger_index(&self) -> (r: &SpatialIndex)
        requires
            self.wf(),
        ensures
            r.wf(),
            r@ == table_map(self.tigers_view()),
    {
        &self.tiger_index
    }

    /// Spawns one entity of `species` at `pos`, fully formed from the
    /// configuration, and registers it with its species' index (a plant
    /// also with its neighbours' counts). Returns its id, or `None` when
    /// ids are exhausted or `pos` is out of range.
    pub fn spawn(&mut self, species: Species, pos: Point) -> (r: Option<u64>)
        requires
            old(self).wf(),
        ensures
            final(self).wf(),
            final(self).config_spec() == old(self).config_spec(),
            r is None <==> !(pos.valid() && old(self).next_id_view() < u64::MAX),
            r matches Some(id) ==> id == old(self).next_id_view() && final(self).next_id_view() == id + 1,
            kept_or_new(old(self).grass_view(), final(self).grass_view(), old(self).next_id_view()),
            kept_or_new(old(self).cows_view(), final(self).cows_view(), old(self).next_id_view()),
            kept_or_new(old(self).tigers_view(), final(self).tigers_view(), old(self).next_id_view()),
            r is None ==> final(self).next_id_view() == old(self).next_id_view(),
            r matches Some(id) ==> match species {
                Species::Grass => final(self).grass_view().len() == old(self).grass_view().len() + 1
                    && final(self).grass_view().last().id == id && final(self).grass_view().last().pos == pos
                    && with_plants(
                    old(self).grass_view(),
                    final(self).grass_view(),
                    old(self).config_spec(),
                    id as int,
                    seq![pos],
                ) && final(self).cows_view() == old(self).cows_view()
                    && final(self).tigers_view() == old(self).tigers_view(),
                Species::Cow => final(self).cows_view() == old(self).cows_view().push(
                    animal_spec(old(self).config_spec().cow, id, pos),
                ) && final(self).grass_view() == old(self).grass_view()
                    && final(self).tigers_view() == old(self).tigers_view(),
                Species::Tiger => final(self).tigers_view() == old(self).tigers_view().push(
                    animal_spec(old(self).config_spec().tiger, id, pos),
                ) && final(self).grass_view() == old(self).grass_view()
                    && final(self).cows_view() == old(self).cows_view(),
            },
            r is None ==> final(self).grass_view() == old(self).grass_view() && final(self).cows_view() == old(self).cows_view() && final(self).tigers_view() == old(self).tigers_view(),
    {
        proof {
            lemma_kept_same(self.grass@, self.next_id);
            lemma_kept_same(self.cows@, self.next_id);
            lemma_kept_same(self.tigers@, self.next_id);
        }
        if !(pos.x >= -COORD_LIMIT && pos.x <= COORD_LIMIT && pos.y >= -COORD_LIMIT && pos.y
            <= COORD_LIMIT) || self.next_id == u64::MAX {
            return None;
        }
        let id = self.next_id;
        proof {
            lemma_find_from(self.grass@, id, 0);
            lemma_find_from(self.cows@, id, 0);
            lemma_find_from(self.tigers@, id, 0);
        }
        let ghost g0 = self.grass@;
        let ghost c0 = self.cows@;
        let ghost t0 = self.tigers@;
        match species {
            Species::Grass => {
                let o = grass_from_config(&self.config, id, pos);
                on_grass_birth(
                    &mut self.grass,
                    &mut self.grass_index,
                    o,
                    self.config.grass.reproduction_radius,
                );
                assert(with_plants(g0, self.grass@, self.config, id as int, seq![pos])) by {
                    assert(self.grass@[g0.len() as int + 0] == self.grass@.last());
                }
                assert(kept_or_new(g0, self.grass@, id)) by {
                    assert forall|j: int| 0 <= j < self.grass@.len() implies index_of(g0, (#[trigger] self.grass@[j]).id) >= 0
                        || self.grass@[j].id >= id by {
                        if j < g0.len() {
                            assert(self.grass@[j].id == g0[j].id);
                            crate::agent::lemma_index_of_at(g0, j);
                        }
                    }
                }
                assert(ids_below(self.grass@, (id + 1) as u64)) by {
                    assert forall|j: int| 0 <= j < self.grass@.len() implies (#[trigger] self.grass@[j]).id
                        < id + 1 by {
                        if j < g0.len() {
                            assert(self.grass@[j].id == g0[j].id);
                        }
                    }
                }
            },
            Species::Cow => {
                let o = animal_from_config(&self.config.cow, id, pos);
                add_entity(&mut self.cows, &mut self.cow_index, o);
                proof {
                    lemma_symmetry_push(c0, o);
                    assert forall|j: int| 0 <= j < self.cows@.len() implies index_of(c0, (#[trigger] self.cows@[j]).id) >= 0
                        || self.cows@[j].id >= id by {
                        if j < c0.len() {
                            assert(self.cows@[j] == c0[j]);
                            crate::agent::lemma_index_of_at(c0, j);
                        }
                    }
                }
                assert(ids_below(self.cows@, (id + 1) as u64)) by {
                    assert forall|j: int| 0 <= j < self.cows@.len() implies (#[trigger] self.cows@[j]).id
                        < id + 1 by {
                        if j < c0.len() {
                            assert(self.cows@[j] == c0[j]);
                        }
                    }
                }
            },
            Species::Tiger => {
                let o = animal_from_config(&self.config.tiger, id, pos);
                add_entity(&mut self.tigers, &mut self.tiger_index, o);
                proof {
                    lemma_symmetry_push(t0, o);
                    assert forall|j: int| 0 <= j < self.tigers@.len() implies index_of(t0, (#[trigger] self.tigers@[j]).id) >= 0
                        || self.tigers@[j].id >= id by {
                        if j < t0.len() {
                            assert(self.tigers@[j] == t0[j]);
                            crate::agent::lemma_index_of_at(t0, j);
                        }
                    }
                }
                assert(ids_below(self.tigers@, (id + 1) as u64)) by {
                    assert forall|j: int| 0 <= j < self.tigers@.len() implies (#[trigger] self.tigers@[j]).id
                        < id + 1 by {
                        if j < t0.len() {
                            assert(self.tigers@[j] == t0[j]);
                        }
                    }
                }
            },
        }
        self.next_id = id + 1;
        Some(id)
    }

    /// One aging phase from `a` to `b`: ages, growth and energy advance,
    /// the animals whose lifetime or energy ran out leave (the remaining
    /// records unchanged otherwise), expired plants leave, and `sd` are the
    /// seeds the plants drop for some draws.
    pub closed spec fn age_rel(a: World, b: World, dt: u64, sd: Seq<Point>) -> bool {
        let ca = map_aging(a.cows@, dt);
        let ta = map_aging(a.tigers@, dt);
        &&& exists|x: Seq<Organism>|
            kept_exactly(map_energy(ca, dt), x, expired_upto(a.cows@, dt, a.cows@.len() as int))
                && kept_exactly(x, b.cows@, depleted_upto(ca, dt, ca.len() as int))
        &&& exists|x: Seq<Organism>|
            kept_exactly(map_energy(ta, dt), x, expired_upto(a.tigers@, dt, a.tigers@.len() as int))
                && kept_exactly(x, b.tigers@, depleted_upto(ta, dt, ta.len() as int))
        &&& gone(b.grass@, expired_upto(a.grass@, dt, a.grass@.len() as int))
        &&& exists|rolls: Seq<(u32, u32, u32)>|
            rolls.len() == a.grass@.len() && sd == seeds_spec(
                map_aging(a.grass@, dt),
                dt,
                rolls,
                a.config.grass,
            )
        &&& b.escape_timer == a.escape_timer
    }

    /// One mind phase from `a` to `b`: the evasion re-check (when its timer
    /// fires) against the tiger index, then for cows and for tigers the
    /// mating checks, mating completion (the births `cb` and `tb`) and
    /// pairing; plants and indices stay as they are.
    pub closed spec fn mind_rel(a: World, b: World, dt: u64, cb: Seq<Point>, tb: Seq<Point>) -> bool {
        let rc = a.config.cow.reproduction;
        let rt = a.config.tiger.reproduction;
        let c1 = if ticked(a.escape_timer, dt).1 {
            map_escape(a.cows@, a.tiger_index.stored(), a.tiger_index@, a.config.cow.escape)
        } else {
            a.cows@
        };
        &&& b.escape_timer == ticked(a.escape_timer, dt).0
        &&& b.cows@ == paired(mated(searched(c1, rc), dt, rc), rc)
        &&& b.tigers@ == paired(mated(searched(a.tigers@, rt), dt, rt), rt)
        &&& cb == births_upto(searched(c1, rc), dt, c1.len() as int)
        &&& tb == births_upto(searched(a.tigers@, rt), dt, a.tigers@.len() as int)
        &&& b.grass@ == a.grass@
        &&& b.grass_index == a.grass_index
        &&& b.cow_index == a.cow_index
        &&& b.tiger_index == a.tiger_index
    }

    /// One hunting phase from `a` to `b`: idle cows take the nearest plant
    /// and strike (in table order), idle tigers take the nearest cow and
    /// strike; the eaten plants and killed cows leave; then the hunters
    /// head for their targets, cool down and eat.
    pub closed spec fn hunt_rel(a: World, b: World, dt: u64) -> bool {
        let c1 = map_find_prey(a.cows@, a.grass_index.stored());
        let cows_hunt = attack_upto(c1, a.grass@, a.config.cow.hunt, c1.len() as int);
        let t1 = map_find_prey(a.tigers@, a.cow_index.stored());
        let tigers_hunt = attack_upto(t1, cows_hunt.0, a.config.tiger.hunt, t1.len() as int);
        &&& b.escape_timer == a.escape_timer
        &&& gone(b.grass@, cows_hunt.2)
        &&& exists|x: Seq<Organism>|
            kept_exactly(tigers_hunt.1, x, tigers_hunt.2) && b.cows@ == map_eating(
                map_cooling(map_move_to_prey(x, b.grass@), dt),
                dt,
            )
        &&& b.tigers@ == map_eating(
            map_cooling(map_move_to_prey(tigers_hunt.0, b.cows@), dt),
            dt,
        )
    }

    /// One movement phase from `a` to `b`: mates steer toward each other's
    /// indexed positions, every animal moves, plants stay as they are.
    pub closed spec fn move_rel(a: World, b: World, dt: u64) -> bool {
        &&& b.cows@ == map_movement(map_running(a.cows@, a.cow_index@), dt)
        &&& b.tigers@ == map_movement(map_running(a.tigers@, a.tiger_index@), dt)
        &&& b.grass@ == a.grass@
    }

    /// The birth barrier from `a` to `b`: every entity is one of `a` or
    /// new; and when the seeds `sd` and the births `cb` and `tb` are in
    /// range and ids suffice, one plant per seed, then one cow and one tiger
    /// per birth, each as the configuration makes it, with ids counted up.
    pub closed spec fn birth_rel(a: World, b: World, sd: Seq<Point>, cb: Seq<Point>, tb: Seq<Point>) -> bool {
        &&& kept_or_new(a.grass@, b.grass@, a.next_id)
        &&& kept_or_new(a.cows@, b.cows@, a.next_id)
        &&& kept_or_new(a.tigers@, b.tigers@, a.next_id)
        &&& b.next_id >= a.next_id
        &&& all_valid(sd) && all_valid(cb) && all_valid(tb) && a.next_id + sd.len() + cb.len()
            + tb.len() < u64::MAX ==> {
            &&& with_plants(a.grass@, b.grass@, a.config, a.next_id as int, sd)
            &&& b.cows@ == with_animals(a.cows@, a.config.cow, a.next_id + sd.len(), cb)
            &&& b.tigers@ == with_animals(
                a.tigers@,
                a.config.tiger,
                a.next_id + sd.len() + cb.len(),
                tb,
            )
        }
    }

    /// Runs one fixed step of `dt` milliseconds, in this order:
    /// aging, plant growth and energy decay, then removal of the expired
    /// and depleted; the evasion re-check for cows; for cows and then
    /// tigers, the mating checks, the mating completion and the eligibility
    /// scan; cows hunting plants and tigers hunting cows (attacks resolved
    /// in table order, the killed removed right after); heading toward
    /// targets, cooldowns and eating; steering toward mates; movement and
    /// the resynchronisation of every index; and last the births of the
    /// step. A hunter that closes in on its target this step therefore
    /// strikes on the next one.
    pub fn tick(&mut self, dt: u64)
        requires
            old(self).wf(),
        ensures
            exists|
                b: World,
                c: World,
                h: World,
                d: World,
                sd: Seq<Point>,
                cb: Seq<Point>,
                tb: Seq<Point>,
            |
                World::age_rel(*old(self), b, dt, sd) && World::mind_rel(b, c, dt, cb, tb)
                    && World::hunt_rel(c, h, dt) && World::move_rel(h, d, dt) && World::birth_rel(
                    d,
                    *final(self),
                    sd,
                    cb,
                    tb,
                ),
            final(self).wf(),
            final(self).config_spec() == old(self).config_spec(),
            final(self).next_id_view() >= old(self).next_id_view(),
            gone(
                final(self).grass_view(),
                expired_upto(old(self).grass_view(), dt, old(self).grass_view().len() as int),
            ),
            gone(
                final(self).cows_view(),
                expired_upto(old(self).cows_view(), dt, old(self).cows_view().len() as int),
            ),
            gone(
                final(self).cows_view(),
                depleted_upto(old(self).cows_view(), dt, old(self).cows_view().len() as int),
            ),
            gone(
                final(self).tigers_view(),
                expired_upto(old(self).tigers_view(), dt, old(self).tigers_view().len() as int),
            ),
            gone(
                final(self).tigers_view(),
                depleted_upto(old(self).tigers_view(), dt, old(self).tigers_view().len() as int),
            ),
    {
        let ghost w0 = *self;
        let bound = self.next_id;
        let seeds = self.age_phase(dt);
        let ghost w1 = *self;
        let (cow_births, tiger_births) = self.mind_phase(dt);
        let ghost wm = *self;
        self.hunt_phase(dt);
        let ghost w2 = *self;
        self.move_phase(dt);
        let ghost w3 = *self;
        let ghost exg = expired_upto(w0.grass@, dt, w0.grass@.len() as int);
        let ghost exc = expired_upto(w0.cows@, dt, w0.cows@.len() as int);
        let ghost dpc = depleted_upto(w0.cows@, dt, w0.cows@.len() as int);
        let ghost ext = expired_upto(w0.tigers@, dt, w0.tigers@.len() as int);
        let ghost dpt = depleted_upto(w0.tigers@, dt, w0.tigers@.len() as int);
        proof {
            lemma_expired_below(w0.grass@, dt, w0.grass@.len() as int, bound);
            lemma_expired_below(w0.cows@, dt, w0.cows@.len() as int, bound);
            lemma_depleted_below(w0.cows@, dt, w0.cows@.len() as int, bound);
            lemma_expired_below(w0.tigers@, dt, w0.tigers@.len() as int, bound);
            lemma_depleted_below(w0.tigers@, dt, w0.tigers@.len() as int, bound);
            lemma_no_return_chain(w1.grass@, wm.grass@, w2.grass@);
            lemma_no_return_chain(w1.cows@, wm.cows@, w2.cows@);
            lemma_no_return_chain(w1.tigers@, wm.tigers@, w2.tigers@);
            lemma_gone_kept(w1.grass@, w2.grass@, self.grass@, exg);
            lemma_gone_kept(w1.cows@, w2.cows@, self.cows@, exc);
            lemma_gone_kept(w1.cows@, w2.cows@, self.cows@, dpc);
            lemma_gone_kept(w1.tigers@, w2.tigers@, self.tigers@, ext);
            lemma_gone_kept(w1.tigers@, w2.tigers@, self.tigers@, dpt);
        }
        // Barrier: births.
        let ghost gb = self.grass@;
        let ghost cb = self.cows@;
        let ghost tb = self.tigers@;
        assert(self.next_id == bound);
        self.spawn_all(Species::Grass, &seeds);
        let ghost g_a = self.grass@;
        let ghost c_a = self.cows@;
        let ghost t_a = self.tigers@;
        let ghost n_a = self.next_id;
        self.spawn_all(Species::Cow, &cow_births);
        let ghost g_b = self.grass@;
        let ghost c_b = self.cows@;
        let ghost t_b = self.tigers@;
        let ghost n_b = self.next_id;
        self.spawn_all(Species::Tiger, &tiger_births);
        proof {
            lemma_kept_chain(gb, g_a, g_b, bound, n_a);
            lemma_kept_chain(gb, g_b, self.grass@, bound, n_b);
            lemma_kept_chain(cb, c_a, c_b, bound, n_a);
            lemma_kept_chain(cb, c_b, self.cows@, bound, n_b);
            lemma_kept_chain(tb, t_a, t_b, bound, n_a);
            lemma_kept_chain(tb, t_b, self.tigers@, bound, n_b);
            lemma_gone_after_spawn(gb, self.grass@, exg, bound);
            lemma_gone_after_spawn(cb, self.cows@, exc, bound);
            lemma_gone_after_spawn(cb, self.cows@, dpc, bound);
            lemma_gone_after_spawn(tb, self.tigers@, ext, bound);
            lemma_gone_after_spawn(tb, self.tigers@, dpt, bound);
        }
        proof {
            assert(World::birth_rel(w3, *self, seeds@, cow_births@, tiger_births@));
            assert(World::age_rel(w0, w1, dt, seeds@));
            assert(World::mind_rel(w1, wm, dt, cow_births@, tiger_births@));
            assert(World::hunt_rel(wm, w2, dt));
            assert(World::move_rel(w2, w3, dt));
        }
    }

    /// The aging phase: age, growth and energy advance, the expired and the
    /// depleted leave, and the seeds of the step are drawn.
    fn age_phase(&mut self, dt: u64) -> (seeds: Vec<Point>)
        requires
            old(self).wf(),
        ensures
            final(self).wf(),
            final(self).config == old(self).config,
            final(self).next_id == old(self).next_id,
            World::age_rel(*old(self), *final(self), dt, seeds@),
            gone(final(self).grass@, expired_upto(old(self).grass@, dt, old(self).grass@.len() as int)),
            gone(final(self).cows@, expired_upto(old(self).cows@, dt, old(self).cows@.len() as int)),
            gone(final(self).cows@, depleted_upto(old(self).cows@, dt, old(self).cows@.len() as int)),
            gone(final(self).tigers@, expired_upto(old(self).tigers@, dt, old(self).tigers@.len() as int)),
            gone(final(self).tigers@, depleted_upto(old(self).tigers@, dt, old(self).tigers@.len() as int)),
    {
        let ghost w = *self;
        let bound = self.next_id;
        let radius = self.config.grass.reproduction_radius;
        // Aging, growth and energy.
        let ghost g0 = self.grass@;
        let expired_grass = aging_system(&mut self.grass, dt);
        let ghost g1 = self.grass@;
        let seeds = grass_reproduction_system(&mut self.grass, dt, &self.config.grass);
        proof {
            assert(same_places(g0, g1));
            assert(same_places(g1, self.grass@));
            lemma_keep_places(g0, g1, &self.grass_index, bound);
            lemma_keep_places(g1, self.grass@, &self.grass_index, bound);
        }
        let ghost c0 = self.cows@;
        let expired_cows = aging_system(&mut self.cows, dt);
        let ghost c1 = self.cows@;
        let depleted_cows = energy_system(&mut self.cows, dt);
        proof {
            assert(same_places(c0, c1));
            assert(same_places(c1, self.cows@));
            assert(holders_kept(c0, c1));
            lemma_symmetry_holders_kept(c0, c1);
            assert(holders_kept(c1, self.cows@));
            lemma_symmetry_holders_kept(c1, self.cows@);
            lemma_keep_places(c0, c1, &self.cow_index, bound);
            lemma_keep_places(c1, self.cows@, &self.cow_index, bound);
        }
        let ghost t0 = self.tigers@;
        let expired_tigers = aging_system(&mut self.tigers, dt);
        let ghost t1 = self.tigers@;
        let depleted_tigers = energy_system(&mut self.tigers, dt);
        proof {
            assert(same_places(t0, t1));
            assert(same_places(t1, self.tigers@));
            assert(holders_kept(t0, t1));
            lemma_symmetry_holders_kept(t0, t1);
            assert(holders_kept(t1, self.tigers@));
            lemma_symmetry_holders_kept(t1, self.tigers@);
            lemma_keep_places(t0, t1, &self.tiger_index, bound);
            lemma_keep_places(t1, self.tigers@, &self.tiger_index, bound);
        }
        // Barrier: the expired and the depleted leave.
        despawn_all_grass(&mut self.grass, &mut self.grass_index, &expired_grass, radius, bound);
        let ghost cx0 = self.cows@;
        despawn_all(&mut self.cows, &mut self.cow_index, &expired_cows, bound);
        let ghost cx1 = self.cows@;
        despawn_all(&mut self.cows, &mut self.cow_index, &depleted_cows, bound);
        let ghost tx0 = self.tigers@;
        despawn_all(&mut self.tigers, &mut self.tiger_index, &expired_tigers, bound);
        let ghost tx1 = self.tigers@;
        despawn_all(&mut self.tigers, &mut self.tiger_index, &depleted_tigers, bound);
        let ghost exg = expired_grass@;
        let ghost exc = expired_cows@;
        let ghost dpc = depleted_cows@;
        let ghost ext = expired_tigers@;
        let ghost dpt = depleted_tigers@;
        proof {
            lemma_depleted_same(c0, c1, dt, c0.len() as int);
            lemma_depleted_same(t0, t1, dt, t0.len() as int);
            lemma_expired_below(g0, dt, g0.len() as int, bound);
            lemma_expired_below(c0, dt, c0.len() as int, bound);
            lemma_depleted_below(c0, dt, c0.len() as int, bound);
            lemma_expired_below(t0, dt, t0.len() as int, bound);
            lemma_depleted_below(t0, dt, t0.len() as int, bound);
            assert(gone(self.grass@, exg));
            assert(gone(self.cows@, exc));
            assert(gone(self.cows@, dpc));
            assert(gone(self.tigers@, ext));
            assert(gone(self.tigers@, dpt));
        }
        proof {
            assert(g1 =~= map_aging(w.grass@, dt));
            assert(c1 =~= map_aging(w.cows@, dt));
            assert(cx0 =~= map_energy(c1, dt));
            assert(t1 =~= map_aging(w.tigers@, dt));
            assert(tx0 =~= map_energy(t1, dt));
            let rolls = choose|rolls: Seq<(u32, u32, u32)>|
                rolls.len() == g1.len() && seeds@ == #[trigger] seeds_spec(g1, dt, rolls, w.config.grass);
            assert(rolls.len() == w.grass@.len() && seeds@ == seeds_spec(
                map_aging(w.grass@, dt),
                dt,
                rolls,
                w.config.grass,
            ));
            assert(kept_exactly(map_energy(c1, dt), cx1, exc) && kept_exactly(cx1, self.cows@, dpc));
            assert(kept_exactly(map_energy(t1, dt), tx1, ext) && kept_exactly(tx1, self.tigers@, dpt));
            assert(World::age_rel(w, *self, dt, seeds@));
        }
        seeds
    }

    /// The mind phase: the evasion re-check, then mating checks, mating
    /// completion and pairing for cows and tigers; returns the positions of
    /// the cows and tigers born this step.
    fn mind_phase(&mut self, dt: u64) -> (births: (Vec<Point>, Vec<Point>))
        requires
            old(self).wf(),
        ensures
            final(self).wf(),
            final(self).config == old(self).config,
            final(self).next_id == old(self).next_id,
            World::mind_rel(*old(self), *final(self), dt, births.0@, births.1@),
            no_return(old(self).grass@, final(self).grass@),
            no_return(old(self).cows@, final(self).cows@),
            no_return(old(self).tigers@, final(self).tigers@),
    {
        let ghost w = *self;
        let bound = self.next_id;
        // Evasion.
        let ghost c2 = self.cows@;
        let ran = escape_from(
            &mut self.cows,
            &self.tiger_index,
            &self.config.cow.escape,
            &mut self.escape_timer,
            dt,
        );
        proof {
            assert(same_places(c2, self.cows@));
            lemma_keep_places(c2, self.cows@, &self.cow_index, bound);
            assert(holders_kept(c2, self.cows@));
            lemma_symmetry_holders_kept(c2, self.cows@);
        }
        // Reproduction.
        let ghost cr = self.cows@;
        let cow_births = self.reproduce_cows(dt);
        proof {
        }
        let ghost tr = self.tigers@;
        let tiger_births = self.reproduce_tigers(dt);
        proof {
        }
        proof {
            let rc = w.config.cow.reproduction;
            let c1 = if ran {
                map_escape(w.cows@, w.tiger_index.stored(), w.tiger_index@, w.config.cow.escape)
            } else {
                w.cows@
            };
            assert(cr =~= c1);
            lemma_no_return_same_ids(w.cows@, self.cows@);
            lemma_no_return_same_ids(w.tigers@, self.tigers@);
            lemma_no_return_same_ids(w.grass@, self.grass@);
            assert(World::mind_rel(w, *self, dt, cow_births@, tiger_births@));
        }
        (cow_births, tiger_births)
    }

    /// The hunting phase: cows choose and strike plants, tigers choose and
    /// strike cows, the eaten and the killed leave, and the hunters head for
    /// their targets, cool down and eat.
    fn hunt_phase(&mut self, dt: u64)
        requires
            old(self).wf(),
        ensures
            final(self).wf(),
            final(self).config == old(self).config,
            final(self).next_id == old(self).next_id,
            World::hunt_rel(*old(self), *final(self), dt),
            no_return(old(self).grass@, final(self).grass@),
            no_return(old(self).cows@, final(self).cows@),
            no_return(old(self).tigers@, final(self).tigers@),
    {
        let ghost w = *self;
        let bound = self.next_id;
        let radius = self.config.grass.reproduction_radius;
        // Hunting.
        let ghost c3 = self.cows@;
        find_prey(&mut self.cows, &self.grass_index);
        proof {
            assert(same_places(c3, self.cows@));
            lemma_keep_places(c3, self.cows@, &self.cow_index, bound);
            assert(holders_kept(c3, self.cows@));
            lemma_symmetry_holders_kept(c3, self.cows@);
        }
        let ghost c4 = self.cows@;
        let ghost g2 = self.grass@;
        let eaten = attack(&mut self.cows, &mut self.grass, &self.config.cow.hunt);
        proof {
            assert(same_places(c4, self.cows@));
            lemma_keep_places(c4, self.cows@, &self.cow_index, bound);
            assert(holders_kept(c4, self.cows@));
            lemma_symmetry_holders_kept(c4, self.cows@);
            assert(same_places(g2, self.grass@));
            lemma_keep_places(g2, self.grass@, &self.grass_index, bound);
        }
        let ghost t2 = self.tigers@;
        find_prey(&mut self.tigers, &self.cow_index);
        proof {
            assert(same_places(t2, self.tigers@));
            lemma_keep_places(t2, self.tigers@, &self.tiger_index, bound);
            assert(holders_kept(t2, self.tigers@));
            lemma_symmetry_holders_kept(t2, self.tigers@);
        }
        let ghost t3 = self.tigers@;
        let ghost c5 = self.cows@;
        let killed = attack(&mut self.tigers, &mut self.cows, &self.config.tiger.hunt);
        proof {
            assert(same_places(t3, self.tigers@));
            lemma_keep_places(t3, self.tigers@, &self.tiger_index, bound);
            assert(same_places(c5, self.cows@));
            lemma_keep_places(c5, self.cows@, &self.cow_index, bound);
            assert(holders_kept(t3, self.tigers@));
            lemma_symmetry_holders_kept(t3, self.tigers@);
            assert(holders_kept(c5, self.cows@));
            lemma_symmetry_holders_kept(c5, self.cows@);
        }
        // Barrier: the killed leave.
        let ghost gk = self.grass@;
        despawn_all_grass(&mut self.grass, &mut self.grass_index, &eaten, radius, bound);
        let ghost ck = self.cows@;
        despawn_all(&mut self.cows, &mut self.cow_index, &killed, bound);
        let ghost ch = self.cows@;
        let ghost th = self.tigers@;
        self.hunt_follow_up(dt);
        proof {
        }
        proof {
            assert(c4 =~= map_find_prey(w.cows@, w.grass_index.stored()));
            assert(t3 =~= map_find_prey(w.tigers@, w.cow_index.stored()));
            lemma_no_return_same_ids(w.grass@, gk);
            lemma_no_return_chain(w.grass@, gk, self.grass@);
            lemma_no_return_same_ids(w.cows@, ck);
            lemma_no_return_chain(w.cows@, ck, ch);
            lemma_no_return_same_ids(ch, self.cows@);
            lemma_no_return_chain(w.cows@, ch, self.cows@);
            lemma_no_return_same_ids(w.tigers@, self.tigers@);
            assert(kept_exactly(ck, ch, killed@));
            let c1s = map_find_prey(w.cows@, w.grass_index.stored());
            let cows_hunt = attack_upto(c1s, w.grass@, w.config.cow.hunt, c1s.len() as int);
            let t1s = map_find_prey(w.tigers@, w.cow_index.stored());
            let tigers_hunt = attack_upto(t1s, cows_hunt.0, w.config.tiger.hunt, t1s.len() as int);
            assert(g2 == w.grass@);
            assert((c5, gk, eaten@) == cows_hunt);
            assert(self.escape_timer == w.escape_timer);
            assert(gone(self.grass@, cows_hunt.2));
            assert((self.tigers@.len() == t3.len()));
            assert(ck == tigers_hunt.1);
            assert(killed@ == tigers_hunt.2);
            assert(self.cows@ == map_eating(map_cooling(map_move_to_prey(ch, self.grass@), dt), dt));
            assert(self.tigers@ == map_eating(
                map_cooling(map_move_to_prey(tigers_hunt.0, self.cows@), dt),
                dt,
            ));
            assert(World::hunt_rel(w, *self, dt));
        }
    }

    /// The movement phase: mates steer toward each other, every animal
    /// moves, and the animal indices are brought back in step.
    fn move_phase(&mut self, dt: u64)
        requires
            old(self).wf(),
        ensures
            final(self).wf(),
            final(self).config == old(self).config,
            final(self).next_id == old(self).next_id,
            World::move_rel(*old(self), *final(self), dt),
            no_return(old(self).grass@, final(self).grass@),
            no_return(old(self).cows@, final(self).cows@),
            no_return(old(self).tigers@, final(self).tigers@),
    {
        let ghost w = *self;
        let bound = self.next_id;
        // Steering toward mates.
        let ghost c6 = self.cows@;
        reproduction_state_running(&mut self.cows, &self.cow_index);
        proof {
            assert(same_places(c6, self.cows@));
            lemma_keep_places(c6, self.cows@, &self.cow_index, bound);
            assert(holders_kept(c6, self.cows@));
            lemma_symmetry_holders_kept(c6, self.cows@);
        }
        let ghost t4 = self.tigers@;
        reproduction_state_running(&mut self.tigers, &self.tiger_index);
        proof {
            assert(same_places(t4, self.tigers@));
            lemma_keep_places(t4, self.tigers@, &self.tiger_index, bound);
            assert(holders_kept(t4, self.tigers@));
            lemma_symmetry_holders_kept(t4, self.tigers@);
        }
        // Movement and resynchronisation.
        let ghost c7 = self.cows@;
        movement_update(&mut self.cows, dt);
        proof {
            assert(same_ids(c7, self.cows@));
            lemma_same_ids_dom(c7, self.cows@);
            assert(holders_kept(c7, self.cows@));
            lemma_symmetry_holders_kept(c7, self.cows@);
            assert(ids_below(self.cows@, bound));
        }
        index_update(&self.cows, &mut self.cow_index);
        let ghost t5 = self.tigers@;
        movement_update(&mut self.tigers, dt);
        proof {
            assert(same_ids(t5, self.tigers@));
            lemma_same_ids_dom(t5, self.tigers@);
            assert(holders_kept(t5, self.tigers@));
            lemma_symmetry_holders_kept(t5, self.tigers@);
            assert(ids_below(self.tigers@, bound));
        }
        index_update(&self.tigers, &mut self.tiger_index);
        proof {
            assert(c7 =~= map_running(w.cows@, w.cow_index@));
            assert(t5 =~= map_running(w.tigers@, w.tiger_index@));
            assert(self.cows@ =~= map_movement(c7, dt));
            assert(self.tigers@ =~= map_movement(t5, dt));
            lemma_no_return_same_ids(w.cows@, self.cows@);
            lemma_no_return_same_ids(w.tigers@, self.tigers@);
            lemma_no_return_same_ids(w.grass@, self.grass@);
            assert(World::move_rel(w, *self, dt));
        }
    }

    fn reproduce_cows(&mut self, dt: u64) -> (births: Vec<Point>)
        requires
            old(self).config.wf(),
            table_wf(old(self).cows@),
            consistent(old(self).cows@, &old(self).cow_index),
            ids_below(old(self).cows@, old(self).next_id),
            mates_symmetric(old(self).cows@),
        ensures
            final(self).cows@ == paired(
                mated(searched(old(self).cows@, old(self).config.cow.reproduction), dt, old(self).config.cow.reproduction),
                old(self).config.cow.reproduction,
            ),
            births@ == births_upto(
                searched(old(self).cows@, old(self).config.cow.reproduction),
                dt,
                old(self).cows@.len() as int,
            ),
            mates_symmetric(final(self).cows@),
            same_places(old(self).cows@, final(self).cows@),
            final(self).config == old(self).config,
            final(self).next_id == old(self).next_id,
            final(self).cow_index == old(self).cow_index,
            final(self).grass == old(self).grass,
            final(self).tigers == old(self).tigers,
            final(self).grass_index == old(self).grass_index,
            final(self).tiger_index == old(self).tiger_index,
            final(self).escape_timer == old(self).escape_timer,
            table_wf(final(self).cows@),
            consistent(final(self).cows@, &final(self).cow_index),
            ids_below(final(self).cows@, final(self).next_id),
    {
        let bound = self.next_id;
        let ghost a = self.cows@;
        searching_mate_conditions(&mut self.cows, &self.config.cow.reproduction);
        let ghost b = self.cows@;
        let births = mating_conditions(&mut self.cows, dt, &self.config.cow.reproduction);
        let ghost c = self.cows@;
        find_mate_when_energy_enough_and_idle(&mut self.cows, &self.config.cow.reproduction);
        proof {
            assert(same_places(a, b));
            lemma_keep_places(a, b, &self.cow_index, bound);
            assert(same_places(b, c));
            lemma_keep_places(b, c, &self.cow_index, bound);
            assert(same_places(c, self.cows@));
            lemma_keep_places(c, self.cows@, &self.cow_index, bound);
            lemma_strict_after_mating(a, b, c, dt, self.config.cow.reproduction);
            lemma_find_mate_symmetric(c, self.cows@, self.config.cow.reproduction);
            assert(b =~= searched(a, self.config.cow.reproduction));
            assert(c =~= mated(b, dt, self.config.cow.reproduction));
            assert(self.cows@ =~= paired(c, self.config.cow.reproduction));
        }
        births
    }

    fn reproduce_tigers(&mut self, dt: u64) -> (births: Vec<Point>)
        requires
            old(self).config.wf(),
            table_wf(old(self).tigers@),
            consistent(old(self).tigers@, &old(self).tiger_index),
            ids_below(old(self).tigers@, old(self).next_id),
            mates_symmetric(old(self).tigers@),
        ensures
            final(self).tigers@ == paired(
                mated(searched(old(self).tigers@, old(self).config.tiger.reproduction), dt, old(self).config.tiger.reproduction),
                old(self).config.tiger.reproduction,
            ),
            births@ == births_upto(
                searched(old(self).tigers@, old(self).config.tiger.reproduction),
                dt,
                old(self).tigers@.len() as int,
            ),
            mates_symmetric(final(self).tigers@),
            same_places(old(self).tigers@, final(self).tigers@),
            final(self).config == old(self).config,
            final(self).next_id == old(self).next_id,
            final(self).tiger_index == old(self).tiger_index,
            final(self).grass == old(self).grass,
            final(self).cows == old(self).cows,
            final(self).grass_index == old(self).grass_index,
            final(self).cow_index == old(self).cow_index,
            final(self).escape_timer == old(self).escape_timer,
            table_wf(final(self).tigers@),
            consistent(final(self).tigers@, &final(self).tiger_index),
            ids_below(final(self).tigers@, final(self).next_id),
    {
        let bound = self.next_id;
        let ghost a = self.tigers@;
        searching_mate_conditions(&mut self.tigers, &self.config.tiger.reproduction);
        let ghost b = self.tigers@;
        let births = mating_conditions(&mut self.tigers, dt, &self.config.tiger.reproduction);
        let ghost c = self.tigers@;
        find_mate_when_energy_enough_and_idle(&mut self.tigers, &self.config.tiger.reproduction);
        proof {
            assert(same_places(a, b));
            lemma_keep_places(a, b, &self.tiger_index, bound);
            assert(same_places(b, c));
            lemma_keep_places(b, c, &self.tiger_index, bound);
            assert(same_places(c, self.tigers@));
            lemma_keep_places(c, self.tigers@, &self.tiger_index, bound);
            lemma_strict_after_mating(a, b, c, dt, self.config.tiger.reproduction);
            lemma_find_mate_symmetric(c, self.tigers@, self.config.tiger.reproduction);
            assert(b =~= searched(a, self.config.tiger.reproduction));
            assert(c =~= mated(b, dt, self.config.tiger.reproduction));
            assert(self.tigers@ =~= paired(c, self.config.tiger.reproduction));
        }
        births
    }

    fn hunt_follow_up(&mut self, dt: u64)
        requires
            table_wf(old(self).cows@),
            table_wf(old(self).tigers@),
            table_wf(old(self).grass@),
            consistent(old(self).cows@, &old(self).cow_index),
            consistent(old(self).tigers@, &old(self).tiger_index),
            ids_below(old(self).cows@, old(self).next_id),
            ids_below(old(self).tigers@, old(self).next_id),
            mates_symmetric(old(self).cows@),
            mates_symmetric(old(self).tigers@),
        ensures
            final(self).cows@ == map_eating(
                map_cooling(map_move_to_prey(old(self).cows@, old(self).grass@), dt),
                dt,
            ),
            final(self).tigers@ == map_eating(
                map_cooling(map_move_to_prey(old(self).tigers@, final(self).cows@), dt),
                dt,
            ),
            mates_symmetric(final(self).cows@),
            mates_symmetric(final(self).tigers@),
            same_places(old(self).cows@, final(self).cows@),
            same_places(old(self).tigers@, final(self).tigers@),
            final(self).config == old(self).config,
            final(self).next_id == old(self).next_id,
            final(self).grass == old(self).grass,
            final(self).grass_index == old(self).grass_index,
            final(self).cow_index == old(self).cow_index,
            final(self).tiger_index == old(self).tiger_index,
            final(self).escape_timer == old(self).escape_timer,
            table_wf(final(self).cows@),
            table_wf(final(self).tigers@),
            consistent(final(self).cows@, &final(self).cow_index),
            consistent(final(self).tigers@, &final(self).tiger_index),
            ids_below(final(self).cows@, final(self).next_id),
            ids_below(final(self).tigers@, final(self).next_id),
    {
        let bound = self.next_id;
        let ghost a = self.cows@;
        move_to_prey(&mut self.cows, &self.grass);
        let ghost b = self.cows@;
        on_attack_cooling(&mut self.cows, dt);
        let ghost c = self.cows@;
        on_eating(&mut self.cows, dt);
        proof {
            assert(same_places(a, b));
            lemma_keep_places(a, b, &self.cow_index, bound);
            assert(same_places(b, c));
            lemma_keep_places(b, c, &self.cow_index, bound);
            assert(same_places(c, self.cows@));
            lemma_keep_places(c, self.cows@, &self.cow_index, bound);
            assert(holders_kept(a, b));
            lemma_symmetry_holders_kept(a, b);
            assert(holders_kept(b, c));
            lemma_symmetry_holders_kept(b, c);
            assert(holders_kept(c, self.cows@));
            lemma_symmetry_holders_kept(c, self.cows@);
        }
        let ghost d = self.tigers@;
        move_to_prey(&mut self.tigers, &self.cows);
        let ghost e = self.tigers@;
        on_attack_cooling(&mut self.tigers, dt);
        let ghost f = self.tigers@;
        on_eating(&mut self.tigers, dt);
        proof {
            assert(same_places(d, e));
            lemma_keep_places(d, e, &self.tiger_index, bound);
            assert(same_places(e, f));
            lemma_keep_places(e, f, &self.tiger_index, bound);
            assert(same_places(f, self.tigers@));
            lemma_keep_places(f, self.tigers@, &self.tiger_index, bound);
            assert(holders_kept(d, e));
            lemma_symmetry_holders_kept(d, e);
            assert(holders_kept(e, f));
            lemma_symmetry_holders_kept(e, f);
            assert(holders_kept(f, self.tigers@));
            lemma_symmetry_holders_kept(f, self.tigers@);
            assert(b =~= map_move_to_prey(a, self.grass@));
            assert(c =~= map_cooling(b, dt));
            assert(self.cows@ =~= map_eating(c, dt));
            assert(e =~= map_move_to_prey(d, self.cows@));
            assert(f =~= map_cooling(e, dt));
            assert(self.tigers@ =~= map_eating(f, dt));
        }
    }

    /// Seeds the initial populations of the configuration, each entity at
    /// a random point of the world's rectangle. When ids suffice, each
    /// table grows by its configured count.
    pub fn populate(&mut self)
        requires
            old(self).wf(),
        ensures
            final(self).wf(),
            final(self).config_spec() == old(self).config_spec(),
            seeded_plants(old(self).grass_view(), final(self).grass_view(), old(self).config_spec()),
            seeded_animals(
                old(self).cows_view(),
                final(self).cows_view(),
                old(self).config_spec().cow,
                old(self).config_spec().width,
                old(self).config_spec().height,
            ),
            seeded_animals(
                old(self).tigers_view(),
                final(self).tigers_view(),
                old(self).config_spec().tiger,
                old(self).config_spec().width,
                old(self).config_spec().height,
            ),
            old(self).next_id_view() + old(self).config_spec().initial_grass_count
                + old(self).config_spec().initial_cow_count
                + old(self).config_spec().initial_tiger_count < u64::MAX ==> {
                &&& final(self).grass_view().len() == old(self).grass_view().len()
                    + old(self).config_spec().initial_grass_count
                &&& final(self).cows_view().len() == old(self).cows_view().len()
                    + old(self).config_spec().initial_cow_count
                &&& final(self).tigers_view().len() == old(self).tigers_view().len()
                    + old(self).config_spec().initial_tiger_count
            },
    {
        let g = self.config.initial_grass_count;
        let c = self.config.initial_cow_count;
        let t = self.config.initial_tiger_count;
        let ghost w0 = *self;
        self.seed_species(Species::Grass, g);
        let ghost w1 = *self;
        self.seed_species(Species::Cow, c);
        let ghost w2 = *self;
        self.seed_species(Species::Tiger, t);
        proof {
            assert forall|j: int| 0 <= j < w0.grass@.len() implies same_but_count(
                #[trigger] self.grass@[j],
                w0.grass@[j],
            ) by {
                assert(self.grass@[j] == w1.grass@[j]);
            }
            assert forall|k: int| w0.grass@.len() <= k < self.grass@.len() implies exists|
                rx: u64,
                ry: u64,
            |
                same_but_count(
                    #[trigger] self.grass@[k],
                    grass_spec(self.config, self.grass@[k].id, seed_spec(self.config.width, self.config.height, rx, ry)),
                ) by {
                assert(self.grass@[k] == w1.grass@[k]);
            }
            assert(self.cows@ == w2.cows@);
        }
    }

    /// Spawns `count` entities of `species` at random points of the world's
    /// rectangle.
    fn seed_species(&mut self, species: Species, count: u64)
        requires
            old(self).wf(),
        ensures
            final(self).wf(),
            final(self).config_spec() == old(self).config_spec(),
            final(self).next_id_view() >= old(self).next_id_view(),
            final(self).next_id_view() <= old(self).next_id_view() + count,
            species == Species::Grass ==> seeded_plants(old(self).grass@, final(self).grass@, old(self).config)
                && final(self).cows@ == old(self).cows@ && final(self).tigers@ == old(self).tigers@,
            species == Species::Cow ==> seeded_animals(
                old(self).cows@,
                final(self).cows@,
                old(self).config.cow,
                old(self).config.width,
                old(self).config.height,
            ) && final(self).grass@ == old(self).grass@ && final(self).tigers@ == old(self).tigers@,
            species == Species::Tiger ==> seeded_animals(
                old(self).tigers@,
                final(self).tigers@,
                old(self).config.tiger,
                old(self).config.width,
                old(self).config.height,
            ) && final(self).grass@ == old(self).grass@ && final(self).cows@ == old(self).cows@,
            old(self).next_id_view() + count < u64::MAX ==> {
                &&& final(self).next_id_view() == old(self).next_id_view() + count
                &&& final(self).grass_view().len() == old(self).grass_view().len() + (
                if species == Species::Grass {
                    count as int
                } else {
                    0
                })
                &&& final(self).cows_view().len() == old(self).cows_view().len() + (
                if species == Species::Cow {
                    count as int
                } else {
                    0
                })
                &&& final(self).tigers_view().len() == old(self).tigers_view().len() + (
                if species == Species::Tiger {
                    count as int
                } else {
                    0
                })
            },
    {
        let width = self.config.width;
        let height = self.config.height;
        let mut n: u64 = 0;
        while n < count
            invariant
                self.wf(),
                self.config_spec() == old(self).config_spec(),
                self.config.width == width,
                self.config.height == height,
                n <= count,
                old(self).next_id_view() <= self.next_id_view() <= old(self).next_id_view() + n,
                species == Species::Grass ==> seeded_plants(old(self).grass@, self.grass@, old(self).config)
                    && self.cows@ == old(self).cows@ && self.tigers@ == old(self).tigers@,
                species == Species::Cow ==> seeded_animals(
                    old(self).cows@,
                    self.cows@,
                    old(self).config.cow,
                    width,
                    height,
                ) && self.grass@ == old(self).grass@ && self.tigers@ == old(self).tigers@,
                species == Species::Tiger ==> seeded_animals(
                    old(self).tigers@,
                    self.tigers@,
                    old(self).config.tiger,
                    width,
                    height,
                ) && self.grass@ == old(self).grass@ && self.cows@ == old(self).cows@,
                old(self).next_id_view() + count < u64::MAX ==> {
                    &&& self.next_id_view() == old(self).next_id_view() + n
                    &&& self.grass_view().len() == old(self).grass_view().len() + (
                    if species == Species::Grass {
                        n as int
                    } else {
                        0
                    })
                    &&& self.cows_view().len() == old(self).cows_view().len() + (
                    if species == Species::Cow {
                        n as int
                    } else {
                        0
                    })
                    &&& self.tigers_view().len() == old(self).tigers_view().len() + (
                    if species == Species::Tiger {
                        n as int
                    } else {
                        0
                    })
                },
            decreases count - n,
        {
            let rx: u64 = rand::random::<u64>();
            let ry: u64 = rand::random::<u64>();
            let ghost g = self.grass@;
            let ghost c = self.cows@;
            let ghost t = self.tigers@;
            let pos = seed_position(width, height, rx, ry);
            let r = self.spawn(species, pos);
            proof {
                let og = old(self).grass@;
                if species == Species::Grass && r is Some {
                    assert forall|j: int| 0 <= j < og.len() implies same_but_count(
                        #[trigger] self.grass@[j],
                        og[j],
                    ) by {
                        assert(same_but_count(self.grass@[j], g[j]));
                    }
                    assert forall|k: int| og.len() <= k < self.grass@.len() implies exists|
                        a: u64,
                        b: u64,
                    |
                        same_but_count(
                            #[trigger] self.grass@[k],
                            grass_spec(self.config, self.grass@[k].id, seed_spec(width, height, a, b)),
                        ) by {
                        if k < g.len() {
                            assert(same_but_count(self.grass@[k], g[k]));
                            let (a, b) = choose|a: u64, b: u64|
                                same_but_count(
                                    #[trigger] g[k],
                                    grass_spec(self.config, g[k].id, seed_spec(width, height, a, b)),
                                );
                            assert(same_but_count(
                                self.grass@[k],
                                grass_spec(self.config, self.grass@[k].id, seed_spec(width, height, a, b)),
                            ));
                        } else {
                            assert(k == g.len() + 0);
                            assert(same_but_count(
                                self.grass@[k],
                                grass_spec(self.config, self.grass@[k].id, seed_spec(width, height, rx, ry)),
                            ));
                        }
                    }
                }
                if species == Species::Cow && r is Some {
                    assert(self.cows@.last() == animal_spec(self.config.cow, self.cows@.last().id, seed_spec(width, height, rx, ry)));
                }
                if species == Species::Tiger && r is Some {
                    assert(self.tigers@.last() == animal_spec(self.config.tiger, self.tigers@.last().id, seed_spec(width, height, rx, ry)));
                }
            }
            n = n + 1;
        }
    }

    /// Spawns one entity of `species` at each of `positions`, in order;
    /// positions out of range and births after ids run out are dropped.
    pub fn spawn_all(&mut self, species: Species, positions: &Vec<Point>)
        requires
            old(self).wf(),
        ensures
            final(self).wf(),
            final(self).config_spec() == old(self).config_spec(),
            final(self).next_id_view() >= old(self).next_id_view(),
            kept_or_new(old(self).grass_view(), final(self).grass_view(), old(self).next_id_view()),
            kept_or_new(old(self).cows_view(), final(self).cows_view(), old(self).next_id_view()),
            kept_or_new(old(self).tigers_view(), final(self).tigers_view(), old(self).next_id_view()),
            all_valid(positions@) && old(self).next_id_view() + positions@.len() < u64::MAX ==> {
                &&& final(self).next_id_view() == old(self).next_id_view() + positions@.len()
                &&& species == Species::Cow ==> final(self).cows_view() == with_animals(
                    old(self).cows_view(),
                    old(self).config_spec().cow,
                    old(self).next_id_view() as int,
                    positions@,
                ) && final(self).grass_view() == old(self).grass_view() && final(self).tigers_view()
                    == old(self).tigers_view()
                &&& species == Species::Tiger ==> final(self).tigers_view() == with_animals(
                    old(self).tigers_view(),
                    old(self).config_spec().tiger,
                    old(self).next_id_view() as int,
                    positions@,
                ) && final(self).grass_view() == old(self).grass_view() && final(self).cows_view()
                    == old(self).cows_view()
                &&& species == Species::Grass ==> with_plants(
                    old(self).grass_view(),
                    final(self).grass_view(),
                    old(self).config_spec(),
                    old(self).next_id_view() as int,
                    positions@,
                ) && final(self).cows_view() == old(self).cows_view() && final(self).tigers_view()
                    == old(self).tigers_view()
            },
    {
        proof {
            lemma_kept_same(self.grass@, self.next_id);
            lemma_kept_same(self.cows@, self.next_id);
            lemma_kept_same(self.tigers@, self.next_id);
            assert(self.cows@ =~= with_animals(self.cows@, self.config.cow, self.next_id as int, positions@.subrange(0, 0)));
            assert(self.tigers@ =~= with_animals(self.tigers@, self.config.tiger, self.next_id as int, positions@.subrange(0, 0)));
        }
        let ghost cond = all_valid(positions@) && old(self).next_id_view() + positions@.len() < u64::MAX;
        let mut i: usize = 0;
        while i < positions.len()
            invariant
                self.wf(),
                self.config_spec() == old(self).config_spec(),
                i <= positions@.len(),
                self.next_id_view() >= old(self).next_id_view(),
                kept_or_new(old(self).grass_view(), self.grass_view(), old(self).next_id_view()),
                kept_or_new(old(self).cows_view(), self.cows_view(), old(self).next_id_view()),
                kept_or_new(old(self).tigers_view(), self.tigers_view(), old(self).next_id_view()),
                cond == (all_valid(positions@) && old(self).next_id_view() + positions@.len() < u64::MAX),
                cond ==> {
                    &&& self.next_id_view() == old(self).next_id_view() + i
                    &&& species == Species::Cow ==> self.cows_view() == with_animals(
                        old(self).cows_view(),
                        old(self).config_spec().cow,
                        old(self).next_id_view() as int,
                        positions@.subrange(0, i as int),
                    ) && self.grass_view() == old(self).grass_view() && self.tigers_view()
                        == old(self).tigers_view()
                    &&& species == Species::Tiger ==> self.tigers_view() == with_animals(
                        old(self).tigers_view(),
                        old(self).config_spec().tiger,
                        old(self).next_id_view() as int,
                        positions@.subrange(0, i as int),
                    ) && self.grass_view() == old(self).grass_view() && self.cows_view()
                        == old(self).cows_view()
                    &&& species == Species::Grass ==> with_plants(
                        old(self).grass_view(),
                        self.grass_view(),
                        old(self).config_spec(),
                        old(self).next_id_view() as int,
                        positions@.subrange(0, i as int),
                    ) && self.cows_view() == old(self).cows_view() && self.tigers_view()
                        == old(self).tigers_view()
                },
            decreases positions@.len() - i,
        {
            let ghost g = self.grass@;
            let ghost c = self.cows@;
            let ghost t = self.tigers@;
            let ghost n = self.next_id;
            let _ = self.spawn(species, positions[i]);
            proof {
                lemma_kept_chain(old(self).grass_view(), g, self.grass@, old(self).next_id_view(), n);
                lemma_kept_chain(old(self).cows_view(), c, self.cows@, old(self).next_id_view(), n);
                lemma_kept_chain(old(self).tigers_view(), t, self.tigers@, old(self).next_id_view(), n);
                if cond {
                    let ps0 = positions@.subrange(0, i as int);
                    let ps1 = positions@.subrange(0, i + 1);
                    assert(ps1 =~= ps0.push(positions@[i as int]));
                    assert(positions@[i as int].valid());
                    let first = old(self).next_id_view() as int;
                    if species == Species::Cow {
                        assert(self.cows@ =~= with_animals(old(self).cows_view(), self.config.cow, first, ps1));
                    } else if species == Species::Tiger {
                        assert(self.tigers@ =~= with_animals(old(self).tigers_view(), self.config.tiger, first, ps1));
                    } else {
                        let og = old(self).grass_view();
                        assert forall|j: int| 0 <= j < og.len() implies same_but_count(#[trigger] self.grass@[j], og[j]) by {
                            assert(same_but_count(self.grass@[j], g[j]));
                            assert(same_but_count(g[j], og[j]));
                        }
                        assert forall|k: int| 0 <= k < ps1.len() implies same_but_count(
                            #[trigger] self.grass@[og.len() + k],
                            grass_spec(self.config, (first + k) as u64, ps1[k]),
                        ) by {
                            if k < i {
                                assert(same_but_count(self.grass@[og.len() + k], g[og.len() + k]));
                                assert(ps1[k] == ps0[k]);
                            } else {
                                assert(g.len() as int + 0 == og.len() + k);
                                assert(seq![positions@[i as int]][0] == ps1[k]);
                            }
                        }
                    }
                }
            }
            i = i + 1;
        }
        proof {
            assert(positions@.subrange(0, positions@.len() as int) =~= positions@);
        }
    }

}

} // verus!
