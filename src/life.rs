//! Aging, energy decay, and the growth of plants.
use vstd::prelude::*;

use crate::agent::{clamp_value, table_wf, value_ok, Organism, VALUE_LIMIT};
use crate::geometry::{clamp_coord, Point, COORD_LIMIT};
use crate::timer::ticked;

verus! {

/// Relies on `rand::random`: a value drawn from the thread's generator.
/// Nothing is promised of the value.
pub assume_specification<T>[ rand::random::<T> ]() -> (r: T)
    where
        rand::distributions::Standard: rand::distributions::Distribution<T>,
;

/// The record after its age timer has run `dt` milliseconds.
pub open spec fn aging_one(o: Organism, dt: u64) -> Organism {
    Organism { age: ticked(o.age, dt).0, ..o }
}

/// The ids among the first `n` records whose lifetime ends within `dt`.
pub open spec fn expired_upto(s: Seq<Organism>, dt: u64, n: int) -> Seq<u64>
    decreases n,
{
    if n <= 0 {
        Seq::empty()
    } else if ticked(s[n - 1].age, dt).1 {
        expired_upto(s, dt, n - 1).push(s[n - 1].id)
    } else {
        expired_upto(s, dt, n - 1)
    }
}

/// Energy after `dt` milliseconds of decay: one thousandth per
/// millisecond, that is one unit per second.
pub open spec fn decayed(e: i64, dt: u64) -> int {
    clamp_value(e - dt)
}

pub open spec fn energy_one(o: Organism, dt: u64) -> Organism {
    Organism { energy: decayed(o.energy, dt) as i64, ..o }
}

/// The ids among the first `n` records whose energy is used up after the
/// decay of `dt` milliseconds.
pub open spec fn depleted_upto(s: Seq<Organism>, dt: u64, n: int) -> Seq<u64>
    decreases n,
{
    if n <= 0 {
        Seq::empty()
    } else if decayed(s[n - 1].energy, dt) <= 0 {
        depleted_upto(s, dt, n - 1).push(s[n - 1].id)
    } else {
        depleted_upto(s, dt, n - 1)
    }
}

/// Every record's age timer runs `dt` milliseconds; the ids whose lifetime
/// ended are returned, in table order, for removal at the next barrier.
pub fn aging_system(table: &mut Vec<Organism>, dt: u64) -> (expired: Vec<u64>)
    requires
        table_wf(old(table)@),
    ensures
        final(table)@.len() == old(table)@.len(),
        forall|i: int|
            0 <= i < old(table)@.len() ==> #[trigger] final(table)@[i] == aging_one(
                old(table)@[i],
                dt,
            ),
        expired@ == expired_upto(old(table)@, dt, old(table)@.len() as int),
        table_wf(final(table)@),
{
    let ghost s0 = table@;
    let mut expired: Vec<u64> = Vec::new();
    let mut i: usize = 0;
    while i < table.len()
        invariant
            table_wf(s0),
            table@.len() == s0.len(),
            i <= s0.len(),
            forall|j: int| 0 <= j < i ==> #[trigger] table@[j] == aging_one(s0[j], dt),
            forall|j: int| 0 <= j < i ==> (#[trigger] table@[j]).wf(),
            forall|j: int| i <= j < s0.len() ==> #[trigger] table@[j] == s0[j],
            expired@ == expired_upto(s0, dt, i as int),
        decreases s0.len() - i,
    {
        let mut o = table[i];
        assert(o == s0[i as int]);
        if o.age.tick(dt) {
            expired.push(o.id);
        }
        table.set(i, o);
        i = i + 1;
    }
    assert(table_wf(table@)) by {
        assert(forall|j: int| 0 <= j < s0.len() ==> #[trigger] table@[j].id == s0[j].id);
    }
    expired
}

fn decay(e: i64, dt: u64) -> (r: i64)
    ensures
        r == decayed(e, dt),
        value_ok(r as int),
{
    let v: i128 = e as i128 - dt as i128;
    if v < -(VALUE_LIMIT as i128) {
        -VALUE_LIMIT
    } else if v > VALUE_LIMIT as i128 {
        VALUE_LIMIT
    } else {
        v as i64
    }
}

/// Every record's energy decays for `dt` milliseconds; the ids whose energy
/// is used up are returned, in table order, for removal at the next
/// barrier.
pub fn energy_system(table: &mut Vec<Organism>, dt: u64) -> (depleted: Vec<u64>)
    requires
        table_wf(old(table)@),
    ensures
        final(table)@.len() == old(table)@.len(),
        forall|i: int|
            0 <= i < old(table)@.len() ==> #[trigger] final(table)@[i] == energy_one(
                old(table)@[i],
                dt,
            ),
        depleted@ == depleted_upto(old(table)@, dt, old(table)@.len() as int),
        table_wf(final(table)@),
{
    let ghost s0 = table@;
    let mut depleted: Vec<u64> = Vec::new();
    let mut i: usize = 0;
    while i < table.len()
        invariant
            table_wf(s0),
            table@.len() == s0.len(),
            i <= s0.len(),
            forall|j: int| 0 <= j < i ==> #[trigger] table@[j] == energy_one(s0[j], dt),
            forall|j: int| 0 <= j < i ==> (#[trigger] table@[j]).wf(),
            forall|j: int| i <= j < s0.len() ==> #[trigger] table@[j] == s0[j],
            depleted@ == depleted_upto(s0, dt, i as int),
        decreases s0.len() - i,
    {
        let mut o = table[i];
        assert(o == s0[i as int]);
        o.energy = decay(o.energy, dt);
        if o.energy <= 0 {
            depleted.push(o.id);
        }
        table.set(i, o);
        i = i + 1;
    }
    assert(table_wf(table@)) by {
        assert(forall|j: int| 0 <= j < s0.len() ==> #[trigger] table@[j].id == s0[j].id);
    }
    depleted
}

/// Energy strictly decreases over a tick of positive length in which
/// nothing is eaten.
pub proof fn lemma_energy_decreases(o: Organism, dt: u64)
    requires
        o.wf(),
        dt > 0,
        o.energy > -VALUE_LIMIT,
    ensures
        energy_one(o, dt).energy < o.energy,
{
}

/// The growth tunables of plants: the radius of crowding and of seeding,
/// and the chance of seeding per attempt, out of `2^32`, for a plant with
/// fewer than three neighbours and for one with three to six. A plant with
/// seven or more neighbours does not seed.
#[derive(Clone, Copy, Debug, PartialEq, Eq, Structural)]
pub struct GrassConfig {
    pub reproduction_radius: u64,
    pub rate_sparse: u32,
    pub rate_crowded: u32,
}

/// Whether a plant with `count` neighbours seeds on the draw `roll`.
pub open spec fn reproduces_spec(count: u64, roll: u32, cfg: GrassConfig) -> bool {
    (count < 3 && roll < cfg.rate_sparse) || (3 <= count <= 6 && roll < cfg.rate_crowded)
}

/// A coordinate `c` moved by the draw `roll` into `[c - r, c + r]`, held to
/// the stored range.
pub open spec fn spread_coord(c: i64, roll: u32, r: u64) -> int {
    clamp_coord(c + (roll as int) % (2 * r + 1) - r)
}

/// Where a seed lands for the draws `rx` and `ry`.
pub open spec fn spread_spec(pos: Point, rx: u32, ry: u32, r: u64) -> Point {
    Point { x: spread_coord(pos.x, rx, r) as i64, y: spread_coord(pos.y, ry, r) as i64 }
}

/// Whether a plant with `count` neighbours seeds on the draw `roll`.
pub fn reproduces(count: u64, roll: u32, cfg: &GrassConfig) -> (r: bool)
    ensures
        r == reproduces_spec(count, roll, *cfg),
{
    (count < 3 && roll < cfg.rate_sparse) || (3 <= count && count <= 6 && roll < cfg.rate_crowded)
}

fn spread_one(c: i64, roll: u32, r: u64) -> (v: i64)
    requires
        -COORD_LIMIT <= c <= COORD_LIMIT,
    ensures
        v == spread_coord(c, roll, r),
{
    let span: u128 = 2 * (r as u128) + 1;
    let m: u128 = (roll as u128) % span;
    let w: i128 = c as i128 + m as i128 - r as i128;
    if w < -(COORD_LIMIT as i128) {
        -COORD_LIMIT
    } else if w > COORD_LIMIT as i128 {
        COORD_LIMIT
    } else {
        w as i64
    }
}

/// Where a seed of the plant at `pos` lands for the draws `rx` and `ry`: a
/// point of the square of half-side `r` around `pos`.
pub fn spread(pos: Point, rx: u32, ry: u32, r: u64) -> (p: Point)
    requires
        pos.valid(),
    ensures
        p == spread_spec(pos, rx, ry, r),
        p.valid(),
{
    Point { x: spread_one(pos.x, rx, r), y: spread_one(pos.y, ry, r) }
}

pub open spec fn growth_one(o: Organism, dt: u64) -> Organism {
    Organism { growth: ticked(o.growth, dt).0, ..o }
}

/// The seeds that the first `n` plants of `s` drop in a tick of `dt`
/// milliseconds, given each plant's draws `(roll, rx, ry)`: in table order,
/// one for each plant whose growth timer fires and that `reproduces` on its
/// roll, landing at `spread_spec` of its position and the other two draws.
pub open spec fn seeds_upto(
    s: Seq<Organism>,
    dt: u64,
    rolls: Seq<(u32, u32, u32)>,
    cfg: GrassConfig,
    n: int,
) -> Seq<Point>
    decreases n,
{
    if n <= 0 {
        Seq::empty()
    } else {
        let r = seeds_upto(s, dt, rolls, cfg, n - 1);
        let o = s[n - 1];
        let d = rolls[n - 1];
        if ticked(o.growth, dt).1 && reproduces_spec(o.neighbor_count, d.0, cfg) {
            r.push(spread_spec(o.pos, d.1, d.2, cfg.reproduction_radius))
        } else {
            r
        }
    }
}

pub open spec fn seeds_spec(
    s: Seq<Organism>,
    dt: u64,
    rolls: Seq<(u32, u32, u32)>,
    cfg: GrassConfig,
) -> Seq<Point> {
    seeds_upto(s, dt, rolls, cfg, s.len() as int)
}

/// The seeds the plants of `grass` drop in a tick of `dt` milliseconds,
/// given one triple of draws per plant.
pub fn seeds_for(
    grass: &Vec<Organism>,
    dt: u64,
    rolls: &Vec<(u32, u32, u32)>,
    cfg: &GrassConfig,
) -> (seeds: Vec<Point>)
    requires
        table_wf(grass@),
        rolls@.len() == grass@.len(),
    ensures
        seeds@ == seeds_spec(grass@, dt, rolls@, *cfg),
{
    let mut seeds: Vec<Point> = Vec::new();
    let mut i: usize = 0;
    while i < grass.len()
        invariant
            table_wf(grass@),
            rolls@.len() == grass@.len(),
            i <= grass@.len(),
            seeds@ == seeds_upto(grass@, dt, rolls@, *cfg, i as int),
        decreases grass@.len() - i,
    {
        let o = grass[i];
        assert(o.wf());
        let (roll, rx, ry) = rolls[i];
        let mut t = o.growth;
        if t.tick(dt) && reproduces(o.neighbor_count, roll, cfg) {
            seeds.push(spread(o.pos, rx, ry, cfg.reproduction_radius));
        }
        i = i + 1;
    }
    seeds
}

/// Every plant's growth timer runs `dt` milliseconds. Each plant whose
/// timer fires draws a number, and, if `reproduces` holds for its neighbour
/// count, two more for where its seed lands; `seeds_for` turns the table
/// and the draws into the seeds, which are returned for planting at the
/// next barrier.
pub fn grass_reproduction_system(grass: &mut Vec<Organism>, dt: u64, cfg: &GrassConfig) -> (seeds: Vec<Point>)
    requires
        table_wf(old(grass)@),
    ensures
        final(grass)@.len() == old(grass)@.len(),
        forall|i: int|
            0 <= i < old(grass)@.len() ==> #[trigger] final(grass)@[i] == growth_one(
                old(grass)@[i],
                dt,
            ),
        table_wf(final(grass)@),
        exists|rolls: Seq<(u32, u32, u32)>|
            rolls.len() == old(grass)@.len() && seeds@ == #[trigger] seeds_spec(
                old(grass)@,
                dt,
                rolls,
                *cfg,
            ),
{
    let ghost s0 = grass@;
    let mut rolls: Vec<(u32, u32, u32)> = Vec::new();
    let mut k: usize = 0;
    while k < grass.len()
        invariant
            table_wf(s0),
            grass@ == s0,
            k <= s0.len(),
            rolls@.len() == k,
        decreases s0.len() - k,
    {
        let o = grass[k];
        assert(o.wf());
        let mut t = o.growth;
        if t.tick(dt) {
            let roll: u32 = rand::random::<u32>();
            if reproduces(o.neighbor_count, roll, cfg) {
                let rx: u32 = rand::random::<u32>();
                let ry: u32 = rand::random::<u32>();
                rolls.push((roll, rx, ry));
            } else {
                rolls.push((roll, 0, 0));
            }
        } else {
            rolls.push((0, 0, 0));
        }
        k = k + 1;
    }
    let seeds = seeds_for(grass, dt, &rolls, cfg);
    let mut i: usize = 0;
    while i < grass.len()
        invariant
            table_wf(s0),
            grass@.len() == s0.len(),
            i <= s0.len(),
            forall|j: int| 0 <= j < i ==> #[trigger] grass@[j] == growth_one(s0[j], dt),
            forall|j: int| 0 <= j < i ==> (#[trigger] grass@[j]).wf(),
            forall|j: int| i <= j < s0.len() ==> #[trigger] grass@[j] == s0[j],
        decreases s0.len() - i,
    {
        let mut o = grass[i];
        assert(o == s0[i as int]);
        o.growth.tick(dt);
        grass.set(i, o);
        i = i + 1;
    }
    assert(table_wf(grass@)) by {
        assert(forall|j: int| 0 <= j < s0.len() ==> #[trigger] grass@[j].id == s0[j].id);
    }
    assert(seeds@ == seeds_spec(s0, dt, rolls@, *cfg));
    seeds
}

} // verus!
