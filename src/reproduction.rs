//! The reproduction state machine, for any animal species: idle animals
//! with enough energy pair up, walk to each other, mate for a while, and
//! produce one offspring between them.
use vstd::prelude::*;

use crate::agent::{
    clamp_value, find_index, index_of, lemma_find_from, lemma_index_of_at, mate_of,
    reproduction_view, table_wf, value_ok, AgentState, Organism, ReproductionState, VALUE_LIMIT,
};
use crate::geometry::{
    dist_sq, distance_sq, lemma_dist_sq_symmetric, midpoint, midpoint_spec, Point,
};
use crate::hunting::{halted, once_spec, sub_value};
use crate::movement::Movement;
use crate::spatial_index::{
    best_upto, entries_map, entries_wf, first_above, hit_of, holds, lemma_first_above,
    lemma_insert_entry, lemma_slot, slot, sorted_insert, IndexEntry, SpatialIndex,
};
use crate::timer::{ticked, Timer};

verus! {

/// The reproduction tunables of a species: the energy needed to look for a
/// mate, the energy each parent pays, the radius within which a mate is
/// sought, the distance within which mating starts, and its duration.
#[derive(Clone, Copy, Debug, PartialEq, Eq, Structural)]
pub struct ReproductionConfig {
    pub energy_threshold: i64,
    pub energy_cost: i64,
    pub search_radius: u64,
    pub reproduction_radius: u64,
    pub mating_time: u64,
}

impl ReproductionConfig {
    pub open spec fn wf(self) -> bool {
        0 <= self.energy_cost <= VALUE_LIMIT
    }

    pub fn new(
        energy_threshold: i64,
        energy_cost: i64,
        search_radius: u64,
        reproduction_radius: u64,
        mating_time: u64,
    ) -> (r: ReproductionConfig)
        ensures
            r == (ReproductionConfig {
                energy_threshold,
                energy_cost,
                search_radius,
                reproduction_radius,
                mating_time,
            }),
    {
        ReproductionConfig {
            energy_threshold,
            energy_cost,
            search_radius,
            reproduction_radius,
            mating_time,
        }
    }
}

/// An animal that may be paired: idle, or busy with something that may be
/// interrupted, and with at least the threshold energy.
pub open spec fn is_candidate(o: Organism, cfg: ReproductionConfig) -> bool {
    (reproduction_view(o.state) == ReproductionState::Idle || reproduction_view(o.state)
        == ReproductionState::OtherCanMate) && o.energy >= cfg.energy_threshold
}

/// The candidates among the first `n` animals, as the candidate index
/// stores them: by x, and in table order among equal x.
pub open spec fn candidates_upto(s: Seq<Organism>, cfg: ReproductionConfig, n: int) -> Seq<
    IndexEntry,
>
    decreases n,
{
    if n <= 0 {
        Seq::empty()
    } else {
        let r = candidates_upto(s, cfg, n - 1);
        if is_candidate(s[n - 1], cfg) {
            sorted_insert(r, IndexEntry { entity: s[n - 1].id, pos: s[n - 1].pos })
        } else {
            r
        }
    }
}

/// Greedy pairing: the first remaining candidate is taken out and paired
/// with the remaining candidate nearest to it, if that one is within
/// squared distance `r2`; both then leave the pool.
pub open spec fn pairing(c: Seq<IndexEntry>, r2: int) -> Seq<(u64, u64)>
    decreases c.len(),
{
    if c.len() < 2 {
        Seq::empty()
    } else {
        let rest = c.remove(0);
        let h = hit_of(rest, c[0].pos, -1);
        if h is Some && h.unwrap().0 as int <= r2 && 0 <= slot(rest, h.unwrap().1) < rest.len() {
            seq![(c[0].entity, h.unwrap().1)] + pairing(rest.remove(slot(rest, h.unwrap().1)), r2)
        } else {
            pairing(rest, r2)
        }
    }
}

/// The partner of `id` among the pairs from index `i` on.
pub open spec fn partner_from(pairs: Seq<(u64, u64)>, id: u64, i: int) -> Option<u64>
    decreases pairs.len() - i,
{
    if i < 0 || i >= pairs.len() {
        None
    } else if pairs[i].0 == id {
        Some(pairs[i].1)
    } else if pairs[i].1 == id {
        Some(pairs[i].0)
    } else {
        partner_from(pairs, id, i + 1)
    }
}

pub open spec fn paired_one(o: Organism, pairs: Seq<(u64, u64)>) -> Organism {
    match partner_from(pairs, o.id, 0) {
        Some(m) => Organism { state: AgentState::SearchingMate { mate: m }, ..o },
        None => o,
    }
}

/// The pairs that one eligibility scan of `s` forms.
pub open spec fn mate_pairs(s: Seq<Organism>, cfg: ReproductionConfig) -> Seq<(u64, u64)> {
    pairing(
        candidates_upto(s, cfg, s.len() as int),
        (cfg.search_radius as int) * (cfg.search_radius as int),
    )
}

/// A searching animal whose partner searches for it in turn starts mating
/// once they are within the reproduction radius; one whose partner is gone
/// or looks elsewhere goes idle.
pub open spec fn searching_one(o: Organism, s: Seq<Organism>, cfg: ReproductionConfig) -> Organism {
    match o.state {
        AgentState::SearchingMate { mate } => {
            let k = index_of(s, mate);
            if k >= 0 && s[k].state == (AgentState::SearchingMate { mate: o.id }) {
                if dist_sq(o.pos, s[k].pos) <= (cfg.reproduction_radius as int) * (
                cfg.reproduction_radius as int) {
                    Organism {
                        state: AgentState::Mating { mate, timer: once_spec(cfg.mating_time) },
                        ..o
                    }
                } else {
                    o
                }
            } else {
                Organism { state: AgentState::Idle, ..o }
            }
        },
        _ => o,
    }
}

/// Whether `o`'s partner in `s` is mating with it.
pub open spec fn mating_partner_ok(o: Organism, s: Seq<Organism>) -> bool {
    match o.state {
        AgentState::Mating { mate, .. } => {
            let k = index_of(s, mate);
            k >= 0 && s[k].state is Mating && mate_of(s[k].state) == Some(o.id)
        },
        _ => false,
    }
}

/// A mating animal counts down; when the timer fires it pays the energy
/// cost and goes idle. One whose partner is not mating with it goes idle.
pub open spec fn mating_one(o: Organism, s: Seq<Organism>, dt: u64, cfg: ReproductionConfig) -> Organism {
    match o.state {
        AgentState::Mating { mate, timer } => {
            if mating_partner_ok(o, s) {
                let (t, fired) = ticked(timer, dt);
                if fired {
                    Organism {
                        state: AgentState::Idle,
                        energy: clamp_value(o.energy - cfg.energy_cost) as i64,
                        ..o
                    }
                } else {
                    Organism { state: AgentState::Mating { mate, timer: t }, ..o }
                }
            } else {
                Organism { state: AgentState::Idle, ..o }
            }
        },
        _ => o,
    }
}

/// The offspring position that `o` reports: of the two parents, the one
/// with the smaller id reports the midpoint when mating completes.
pub open spec fn birth_of(o: Organism, s: Seq<Organism>, dt: u64) -> Option<Point> {
    match o.state {
        AgentState::Mating { mate, timer } => {
            if mating_partner_ok(o, s) && ticked(timer, dt).1 && o.id < mate {
                Some(midpoint_spec(o.pos, s[index_of(s, mate)].pos))
            } else {
                None
            }
        },
        _ => None,
    }
}

/// The offspring positions reported by the first `n` animals.
pub open spec fn births_upto(s: Seq<Organism>, dt: u64, n: int) -> Seq<Point>
    decreases n,
{
    if n <= 0 {
        Seq::empty()
    } else {
        let r = births_upto(s, dt, n - 1);
        match birth_of(s[n - 1], s, dt) {
            Some(p) => r.push(p),
            None => r,
        }
    }
}

/// Searching or mating animals steer toward their partner's indexed
/// position (standing still if it is not indexed); mating animals stand
/// still.
pub open spec fn running_one(o: Organism, index: Map<u64, Point>) -> Organism {
    match o.state {
        AgentState::SearchingMate { mate } => {
            if index.contains_key(mate) {
                Organism {
                    movement: Movement {
                        speed: o.movement.speed,
                        direction: crate::geometry::diff(index[mate], o.pos),
                        stop_at_end: true,
                    },
                    ..o
                }
            } else {
                halted(o)
            }
        },
        AgentState::Mating { .. } => halted(o),
        _ => o,
    }
}

/// Two states that refer to each other: both searching, or both mating
/// with the same timer.
pub open spec fn partnered(a: AgentState, b: AgentState, ida: u64, idb: u64) -> bool {
    match (a, b) {
        (AgentState::SearchingMate { mate: ma }, AgentState::SearchingMate { mate: mb }) => ma
            == idb && mb == ida,
        (AgentState::Mating { mate: ma, timer: ta }, AgentState::Mating { mate: mb, timer: tb }) =>
            ma == idb && mb == ida && ta == tb,
        _ => false,
    }
}

/// No animal is its own mate; and whenever an animal refers to another as
/// its mate and the other holds a state with a mate, the two refer to each
/// other.
pub open spec fn mates_symmetric(s: Seq<Organism>) -> bool {
    &&& forall|i: int| 0 <= i < s.len() ==> mate_of(#[trigger] s[i].state) != Some(s[i].id)
    &&& forall|i: int, j: int|
        0 <= i < s.len() && 0 <= j < s.len() && i != j && mate_of(#[trigger] s[i].state) == Some(
            s[j].id,
        ) && mate_of(#[trigger] s[j].state) is Some ==> partnered(
            s[i].state,
            s[j].state,
            s[i].id,
            s[j].id,
        )
}

proof fn lemma_candidates(s: Seq<Organism>, cfg: ReproductionConfig, n: int)
    requires
        table_wf(s),
        0 <= n <= s.len(),
    ensures
        entries_wf(candidates_upto(s, cfg, n)),
        forall|k: int|
            0 <= k < candidates_upto(s, cfg, n).len() ==> exists|j: int|
                0 <= j < n && (#[trigger] candidates_upto(s, cfg, n)[k]).entity == s[j].id
                    && candidates_upto(s, cfg, n)[k].pos == s[j].pos && is_candidate(s[j], cfg),
    decreases n,
{
    if n > 0 {
        lemma_candidates(s, cfg, n - 1);
        let r = candidates_upto(s, cfg, n - 1);
        let c = candidates_upto(s, cfg, n);
        if is_candidate(s[n - 1], cfg) {
            let e = IndexEntry { entity: s[n - 1].id, pos: s[n - 1].pos };
            let k = first_above(r, e.pos.x, 0);
            lemma_first_above(r, e.pos.x, 0);
            assert(!holds(r, e.entity)) by {
                if holds(r, e.entity) {
                    let a = choose|a: int| 0 <= a < r.len() && (#[trigger] r[a]).entity == e.entity;
                    let j = choose|j: int|
                        0 <= j < n - 1 && (#[trigger] r[a]).entity == s[j].id && r[a].pos
                            == s[j].pos && is_candidate(s[j], cfg);
                    assert(s[j].id != s[n - 1].id);
                }
            }
            lemma_insert_entry(r, k, e);
            assert forall|a: int| 0 <= a < c.len() implies exists|j: int|
                0 <= j < n && (#[trigger] c[a]).entity == s[j].id && c[a].pos == s[j].pos
                    && is_candidate(s[j], cfg) by {
                if a < k {
                    assert(c[a] == r[a]);
                } else if a > k {
                    assert(c[a] == r[a - 1]);
                } else {
                    assert(c[a] == e);
                }
            }
        }
    }
}

/// Animals that are idle (or interruptible) with enough energy are paired
/// greedily with the nearest other such animal within the search radius;
/// both members of a pair start searching for each other, and no animal is
/// promised to two partners. Everyone else is left alone.
pub fn find_mate_when_energy_enough_and_idle(animals: &mut Vec<Organism>, cfg: &ReproductionConfig)
    requires
        table_wf(old(animals)@),
    ensures
        final(animals)@.len() == old(animals)@.len(),
        forall|i: int|
            0 <= i < old(animals)@.len() ==> #[trigger] final(animals)@[i] == paired_one(
                old(animals)@[i],
                mate_pairs(old(animals)@, *cfg),
            ),
        table_wf(final(animals)@),
{
    let ghost s0 = animals@;
    let mut cand = SpatialIndex::new();
    let mut i: usize = 0;
    while i < animals.len()
        invariant
            table_wf(s0),
            animals@ == s0,
            i <= s0.len(),
            cand.wf(),
            cand.stored() == candidates_upto(s0, *cfg, i as int),
        decreases s0.len() - i,
    {
        let o = animals[i];
        proof {
            lemma_candidates(s0, *cfg, i as int);
        }
        let st = o.get_state();
        let eligible = match st {
            ReproductionState::Idle => true,
            ReproductionState::OtherCanMate => true,
            _ => false,
        };
        if eligible && o.energy >= cfg.energy_threshold {
            proof {
                if cand@.contains_key(o.id) {
                    let k = choose|k: int|
                        0 <= k < cand.stored().len() && (#[trigger] cand.stored()[k]).entity
                            == o.id;
                    let j = choose|j: int|
                        0 <= j < i && (#[trigger] candidates_upto(s0, *cfg, i as int)[k]).entity
                            == s0[j].id && candidates_upto(s0, *cfg, i as int)[k].pos == s0[j].pos
                            && is_candidate(s0[j], *cfg);
                    assert(s0[j].id != s0[i as int].id);
                }
            }
            cand.insert(o.id, o.pos);
        }
        i = i + 1;
    }
    proof {
        lemma_candidates(s0, *cfg, s0.len() as int);
    }
    assert(cfg.search_radius as u128 * cfg.search_radius as u128 <= 0xffff_ffff_ffff_ffff
        * 0xffff_ffff_ffff_ffff) by (nonlinear_arith)
        requires
            cfg.search_radius <= 0xffff_ffff_ffff_ffffu64,
    ;
    let r2: u128 = cfg.search_radius as u128 * cfg.search_radius as u128;
    let ghost r2i = (cfg.search_radius as int) * (cfg.search_radius as int);
    let ghost c0 = cand.stored();
    let mut pairs: Vec<(u64, u64)> = Vec::new();
    while cand.len() >= 2
        invariant
            cand.wf(),
            r2 == r2i,
            pairs@ + pairing(cand.stored(), r2i) == pairing(c0, r2i),
            forall|k: int| 0 <= k < cand.stored().len() ==> (#[trigger] cand.stored()[k]).pos.valid(),
        decreases cand.stored().len(),
    {
        let ghost c = cand.stored();
        proof {
            cand.lemma_stored_wf();
            cand.lemma_stored_in_view(0);
            lemma_slot(c, 0);
        }
        let head = cand.entry_at(0);
        cand.remove(head.entity);
        let ghost rest = cand.stored();
        assert(rest == c.remove(0));
        proof {
            cand.lemma_stored_wf();
        }
        let near = cand.get_nearest(head.pos);
        match near {
            Some(h) => {
                if h.0 <= r2 {
                    proof {
                        let b = best_upto(rest, head.pos, rest.len() as int, -1);
                        crate::spatial_index::lemma_best_upto_pub(rest, head.pos, rest.len() as int, -1);
                        lemma_slot(rest, b);
                    }
                    pairs.push((head.entity, h.1));
                    cand.remove(h.1);
                    proof {
                        assert(pairing(c, r2i) == seq![(c[0].entity, h.1)] + pairing(cand.stored(), r2i));
                        assert(pairs@ + pairing(cand.stored(), r2i) =~= pairs@.drop_last() + (seq![(c[0].entity, h.1)] + pairing(cand.stored(), r2i)));
                    }
                } else {
                    assert(pairing(c, r2i) == pairing(rest, r2i));
                }
            },
            None => {
                assert(pairing(c, r2i) == pairing(rest, r2i));
            },
        }
    }
    assert(pairing(cand.stored(), r2i) == Seq::<(u64, u64)>::empty());
    assert(pairs@ =~= pairing(c0, r2i));
    let mut out: Vec<Organism> = Vec::new();
    let mut i: usize = 0;
    while i < animals.len()
        invariant
            table_wf(s0),
            animals@ == s0,
            i <= s0.len(),
            out@.len() == i,
            pairs@ == mate_pairs(s0, *cfg),
            forall|j: int| 0 <= j < i ==> #[trigger] out@[j] == paired_one(s0[j], pairs@),
        decreases s0.len() - i,
    {
        let mut o = animals[i];
        match partner(&pairs, o.id) {
            Some(m) => {
                o.state = AgentState::SearchingMate { mate: m };
            },
            None => {},
        }
        out.push(o);
        i = i + 1;
    }
    *animals = out;
    assert(table_wf(animals@)) by {
        assert(forall|j: int| 0 <= j < s0.len() ==> #[trigger] animals@[j].id == s0[j].id);
        assert(forall|j: int| 0 <= j < s0.len() ==> (#[trigger] animals@[j]).wf());
    }
}

fn partner(pairs: &Vec<(u64, u64)>, id: u64) -> (r: Option<u64>)
    ensures
        r == partner_from(pairs@, id, 0),
{
    let mut i: usize = 0;
    while i < pairs.len()
        invariant
            i <= pairs@.len(),
            partner_from(pairs@, id, 0) == partner_from(pairs@, id, i as int),
        decreases pairs@.len() - i,
    {
        if pairs[i].0 == id {
            return Some(pairs[i].1);
        }
        if pairs[i].1 == id {
            return Some(pairs[i].0);
        }
        i = i + 1;
    }
    None
}

/// Searching animals whose partner searches for them in turn start mating
/// together once within the reproduction radius. An animal whose partner is
/// gone, or has left the searching state, goes idle. A partner pointing
/// elsewhere is a pairing defect, ruled out by the precondition that mates
/// refer to each other.
pub fn searching_mate_conditions(animals: &mut Vec<Organism>, cfg: &ReproductionConfig)
    requires
        table_wf(old(animals)@),
        mates_symmetric(old(animals)@),
    ensures
        mates_symmetric(final(animals)@),
        final(animals)@.len() == old(animals)@.len(),
        forall|i: int|
            0 <= i < old(animals)@.len() ==> #[trigger] final(animals)@[i] == searching_one(
                old(animals)@[i],
                old(animals)@,
                *cfg,
            ),
        table_wf(final(animals)@),
{
    let ghost s0 = animals@;
    assert(cfg.reproduction_radius as u128 * cfg.reproduction_radius as u128
        <= 0xffff_ffff_ffff_ffff * 0xffff_ffff_ffff_ffff) by (nonlinear_arith)
        requires
            cfg.reproduction_radius <= 0xffff_ffff_ffff_ffffu64,
    ;
    let r2: u128 = cfg.reproduction_radius as u128 * cfg.reproduction_radius as u128;
    let mut out: Vec<Organism> = Vec::new();
    let mut i: usize = 0;
    while i < animals.len()
        invariant
            table_wf(s0),
            animals@ == s0,
            i <= s0.len(),
            r2 == (cfg.reproduction_radius as int) * (cfg.reproduction_radius as int),
            out@.len() == i,
            forall|j: int| 0 <= j < i ==> #[trigger] out@[j] == searching_one(s0[j], s0, *cfg),
        decreases s0.len() - i,
    {
        let mut o = animals[i];
        if let AgentState::SearchingMate { mate } = o.state {
            match find_index(animals, mate) {
                Some(k) => {
                    let other = animals[k];
                    if other.state == (AgentState::SearchingMate { mate: o.id }) {
                        if distance_sq(o.pos, other.pos) <= r2 {
                            o.state = AgentState::Mating { mate, timer: Timer::once(cfg.mating_time) };
                        }
                    } else {
                        o.state = AgentState::Idle;
                    }
                },
                None => {
                    o.state = AgentState::Idle;
                },
            }
        }
        out.push(o);
        i = i + 1;
    }
    *animals = out;
    assert(table_wf(animals@)) by {
        assert(forall|j: int| 0 <= j < s0.len() ==> #[trigger] animals@[j].id == s0[j].id);
        assert(forall|j: int| 0 <= j < s0.len() ==> (#[trigger] animals@[j]).wf());
    }
    proof {
        lemma_searching_keeps_symmetry(s0, animals@, *cfg);
    }
}

/// Mating animals whose partner mates with them count down together, on a
/// timer they share; when it fires both pay the energy cost and go idle, and
/// the returned list holds one offspring position, the midpoint of the
/// parents, for that pair. An animal whose partner is gone or has left the
/// mating state goes idle. Partners that point elsewhere or hold different
/// timers are ruled out by the precondition that mates refer to each other.
pub fn mating_conditions(animals: &mut Vec<Organism>, dt: u64, cfg: &ReproductionConfig) -> (births: Vec<Point>)
    requires
        table_wf(old(animals)@),
        mates_symmetric(old(animals)@),
        cfg.wf(),
    ensures
        mates_symmetric(final(animals)@),
        final(animals)@.len() == old(animals)@.len(),
        forall|i: int|
            0 <= i < old(animals)@.len() ==> #[trigger] final(animals)@[i] == mating_one(
                old(animals)@[i],
                old(animals)@,
                dt,
                *cfg,
            ),
        births@ == births_upto(old(animals)@, dt, old(animals)@.len() as int),
        table_wf(final(animals)@),
{
    let ghost s0 = animals@;
    let mut out: Vec<Organism> = Vec::new();
    let mut births: Vec<Point> = Vec::new();
    let mut i: usize = 0;
    while i < animals.len()
        invariant
            table_wf(s0),
            cfg.wf(),
            animals@ == s0,
            i <= s0.len(),
            out@.len() == i,
            forall|j: int| 0 <= j < i ==> #[trigger] out@[j] == mating_one(s0[j], s0, dt, *cfg),
            forall|j: int| 0 <= j < i ==> (#[trigger] out@[j]).wf(),
            births@ == births_upto(s0, dt, i as int),
        decreases s0.len() - i,
    {
        let mut o = animals[i];
        assert(o.wf());
        if let AgentState::Mating { mate, timer } = o.state {
            let mut ok = false;
            let mut other_pos = o.pos;
            match find_index(animals, mate) {
                Some(k) => {
                    let other = animals[k];
                    if let AgentState::Mating { mate: back, .. } = other.state {
                        if back == o.id {
                            ok = true;
                            other_pos = other.pos;
                        }
                    }
                },
                None => {},
            }
            if ok {
                let mut t = timer;
                if t.tick(dt) {
                    o.energy = sub_value(o.energy, cfg.energy_cost);
                    o.state = AgentState::Idle;
                    if o.id < mate {
                        births.push(midpoint(o.pos, other_pos));
                    }
                } else {
                    o.state = AgentState::Mating { mate, timer: t };
                }
            } else {
                o.state = AgentState::Idle;
            }
        }
        out.push(o);
        i = i + 1;
    }
    *animals = out;
    assert(table_wf(animals@)) by {
        assert(forall|j: int| 0 <= j < s0.len() ==> #[trigger] animals@[j].id == s0[j].id);
    }
    proof {
        lemma_mating_keeps_symmetry(s0, animals@, dt, *cfg);
    }
    births
}

/// Searching animals steer toward their partner's indexed position, or
/// stand still when it is not indexed; mating animals stand still.
pub fn reproduction_state_running(animals: &mut Vec<Organism>, index: &SpatialIndex)
    requires
        table_wf(old(animals)@),
        index.wf(),
    ensures
        final(animals)@.len() == old(animals)@.len(),
        forall|i: int|
            0 <= i < old(animals)@.len() ==> #[trigger] final(animals)@[i] == running_one(
                old(animals)@[i],
                index@,
            ),
        table_wf(final(animals)@),
{
    let ghost s0 = animals@;
    proof {
        index.lemma_positions_valid();
    }
    let mut i: usize = 0;
    while i < animals.len()
        invariant
            table_wf(s0),
            index.wf(),
            forall|e: u64| #[trigger] index@.contains_key(e) ==> index@[e].valid(),
            animals@.len() == s0.len(),
            i <= s0.len(),
            forall|j: int| 0 <= j < i ==> #[trigger] animals@[j] == running_one(s0[j], index@),
            forall|j: int| 0 <= j < i ==> (#[trigger] animals@[j]).wf(),
            forall|j: int| i <= j < s0.len() ==> #[trigger] animals@[j] == s0[j],
        decreases s0.len() - i,
    {
        let mut o = animals[i];
        assert(o == s0[i as int]);
        match o.state {
            AgentState::SearchingMate { mate } => {
                match index.get_pos(mate) {
                    Some(p) => {
                        o.movement = Movement::toward(o.movement.speed, o.pos, p);
                    },
                    None => {
                        o.movement.direction = Point::zero();
                    },
                }
            },
            AgentState::Mating { .. } => {
                o.movement.direction = Point::zero();
            },
            _ => {},
        }
        animals.set(i, o);
        i = i + 1;
    }
    assert(table_wf(animals@)) by {
        assert(forall|j: int| 0 <= j < s0.len() ==> #[trigger] animals@[j].id == s0[j].id);
    }
}

/// A pairing step keeps mates symmetric: if every animal that refers to a
/// mate holding a mate state is referred to in turn, the same holds after
/// the searching animals have been advanced.
pub proof fn lemma_searching_keeps_symmetry(s: Seq<Organism>, t: Seq<Organism>, cfg: ReproductionConfig)
    requires
        table_wf(s),
        mates_symmetric(s),
        t.len() == s.len(),
        forall|i: int| 0 <= i < s.len() ==> #[trigger] t[i] == searching_one(s[i], s, cfg),
    ensures
        mates_symmetric(t),
{
    assert forall|i: int, j: int|
        0 <= i < t.len() && 0 <= j < t.len() && i != j && mate_of(#[trigger] t[i].state) == Some(
            t[j].id,
        ) && mate_of(#[trigger] t[j].state) is Some implies partnered(
        t[i].state,
        t[j].state,
        t[i].id,
        t[j].id,
    ) by {
        lemma_index_of_at(s, i);
        lemma_index_of_at(s, j);
        lemma_dist_sq_symmetric(s[i].pos, s[j].pos);
        assert(t[i].id == s[i].id && t[j].id == s[j].id);
        assert(mate_of(s[i].state) == Some(s[j].id));
        assert(mate_of(s[j].state) is Some);
        assert(s[i].id != s[j].id);
        assert(mate_of(s[i].state) == Some(s[j].id) && mate_of(s[j].state) is Some ==> partnered(
            s[i].state,
            s[j].state,
            s[i].id,
            s[j].id,
        ));
    }
}

/// The mating step keeps mates symmetric.
pub proof fn lemma_mating_keeps_symmetry(
    s: Seq<Organism>,
    t: Seq<Organism>,
    dt: u64,
    cfg: ReproductionConfig,
)
    requires
        table_wf(s),
        mates_symmetric(s),
        t.len() == s.len(),
        forall|i: int| 0 <= i < s.len() ==> #[trigger] t[i] == mating_one(s[i], s, dt, cfg),
    ensures
        mates_symmetric(t),
{
    assert forall|i: int, j: int|
        0 <= i < t.len() && 0 <= j < t.len() && i != j && mate_of(#[trigger] t[i].state) == Some(
            t[j].id,
        ) && mate_of(#[trigger] t[j].state) is Some implies partnered(
        t[i].state,
        t[j].state,
        t[i].id,
        t[j].id,
    ) by {
        lemma_index_of_at(s, i);
        lemma_index_of_at(s, j);
        assert(t[i].id == s[i].id && t[j].id == s[j].id);
        assert(mate_of(s[i].state) == Some(s[j].id));
        assert(mate_of(s[j].state) is Some);
        assert(s[i].id != s[j].id);
        assert(mate_of(s[i].state) == Some(s[j].id) && mate_of(s[j].state) is Some ==> partnered(
            s[i].state,
            s[j].state,
            s[i].id,
            s[j].id,
        ));
    }
}

/// When a symmetric mating pair's shared timer fires, both parents pay the
/// configured cost and go idle, and exactly one of the two reports an
/// offspring, at the midpoint of their positions.
pub proof fn lemma_mating_completion(
    s: Seq<Organism>,
    dt: u64,
    cfg: ReproductionConfig,
    i: int,
    j: int,
)
    requires
        table_wf(s),
        0 <= i < s.len(),
        0 <= j < s.len(),
        i != j,
        partnered(s[i].state, s[j].state, s[i].id, s[j].id),
        s[i].state is Mating,
        ticked(s[i].state->Mating_timer, dt).1,
    ensures
        mating_one(s[i], s, dt, cfg).energy == clamp_value(s[i].energy - cfg.energy_cost),
        mating_one(s[j], s, dt, cfg).energy == clamp_value(s[j].energy - cfg.energy_cost),
        mating_one(s[i], s, dt, cfg).state == AgentState::Idle,
        mating_one(s[j], s, dt, cfg).state == AgentState::Idle,
        birth_of(s[i], s, dt) is Some != birth_of(s[j], s, dt) is Some,
        birth_of(s[i], s, dt) is Some ==> birth_of(s[i], s, dt) == Some(
            midpoint_spec(s[i].pos, s[j].pos),
        ),
        birth_of(s[j], s, dt) is Some ==> birth_of(s[j], s, dt) == Some(
            midpoint_spec(s[i].pos, s[j].pos),
        ),
{
    lemma_index_of_at(s, i);
    lemma_index_of_at(s, j);
    assert(s[i].id != s[j].id);
    assert(midpoint_spec(s[j].pos, s[i].pos) == midpoint_spec(s[i].pos, s[j].pos));
}

/// While a symmetric mating pair's shared timer has not fired, both stay
/// mating with each other, their timers still equal, and neither reports an
/// offspring.
pub proof fn lemma_mating_in_progress(
    s: Seq<Organism>,
    dt: u64,
    cfg: ReproductionConfig,
    i: int,
    j: int,
)
    requires
        table_wf(s),
        0 <= i < s.len(),
        0 <= j < s.len(),
        i != j,
        partnered(s[i].state, s[j].state, s[i].id, s[j].id),
        s[i].state is Mating,
        !ticked(s[i].state->Mating_timer, dt).1,
    ensures
        partnered(
            mating_one(s[i], s, dt, cfg).state,
            mating_one(s[j], s, dt, cfg).state,
            s[i].id,
            s[j].id,
        ),
        birth_of(s[i], s, dt) is None,
        birth_of(s[j], s, dt) is None,
{
    lemma_index_of_at(s, i);
    lemma_index_of_at(s, j);
}

/// No entity occurs in two pairs, and no pair joins an entity to itself.
pub open spec fn pairs_disjoint(pairs: Seq<(u64, u64)>) -> bool {
    &&& forall|k: int| 0 <= k < pairs.len() ==> (#[trigger] pairs[k]).0 != pairs[k].1
    &&& forall|k1: int, k2: int|
        0 <= k1 < pairs.len() && 0 <= k2 < pairs.len() && k1 != k2 ==> {
            &&& (#[trigger] pairs[k1]).0 != (#[trigger] pairs[k2]).0
            &&& pairs[k1].0 != pairs[k2].1
            &&& pairs[k1].1 != pairs[k2].0
            &&& pairs[k1].1 != pairs[k2].1
        }
}

/// Both members of `p` are entries of `c` within squared distance `r2`.
pub open spec fn pair_in(c: Seq<IndexEntry>, p: (u64, u64), r2: int) -> bool {
    exists|a: int, b: int|
        0 <= a < c.len() && 0 <= b < c.len() && (#[trigger] c[a]).entity == p.0 && (
        #[trigger] c[b]).entity == p.1 && dist_sq(c[a].pos, c[b].pos) <= r2
}

proof fn lemma_remove_entry(s: Seq<IndexEntry>, i: int)
    requires
        entries_wf(s),
        0 <= i < s.len(),
    ensures
        entries_wf(s.remove(i)),
        forall|k: int|
            0 <= k < s.remove(i).len() ==> #[trigger] s.remove(i)[k] == s[if k < i {
                k
            } else {
                k + 1
            }],
{
    let r = s.remove(i);
    assert forall|k: int| 0 <= k < r.len() implies #[trigger] r[k] == s[if k < i {
        k
    } else {
        k + 1
    }] by {}
    assert forall|a: int, b: int|
        0 <= a < r.len() && 0 <= b < r.len() && a != b implies #[trigger] r[a].entity
        != #[trigger] r[b].entity by {
        let a0 = if a < i { a } else { a + 1 };
        let b0 = if b < i { b } else { b + 1 };
        assert(r[a] == s[a0] && r[b] == s[b0]);
    }
    assert forall|a: int| 0 <= a < r.len() implies (#[trigger] r[a]).pos.valid() by {
        let a0 = if a < i { a } else { a + 1 };
        assert(r[a] == s[a0]);
    }
}

/// The greedy pairing pairs distinct entries of the pool, each pair within
/// squared distance `r2`, and never uses an entry twice.
pub proof fn lemma_pairing(c: Seq<IndexEntry>, r2: int)
    requires
        entries_wf(c),
    ensures
        pairs_disjoint(pairing(c, r2)),
        forall|k: int|
            0 <= k < pairing(c, r2).len() ==> pair_in(c, #[trigger] pairing(c, r2)[k], r2),
    decreases c.len(),
{
    if c.len() >= 2 {
        let rest = c.remove(0);
        lemma_remove_entry(c, 0);
        let h = hit_of(rest, c[0].pos, -1);
        if h is Some && h.unwrap().0 as int <= r2 && 0 <= slot(rest, h.unwrap().1) < rest.len() {
            let m = h.unwrap().1;
            let best = best_upto(rest, c[0].pos, rest.len() as int, -1);
            crate::spatial_index::lemma_best_upto_pub(rest, c[0].pos, rest.len() as int, -1);
            lemma_slot(rest, best);
            let b = slot(rest, m);
            assert(b == best);
            let rest2 = rest.remove(b);
            lemma_remove_entry(rest, b);
            lemma_pairing(rest2, r2);
            let tail = pairing(rest2, r2);
            let all = pairing(c, r2);
            assert(all == seq![(c[0].entity, m)] + tail);
            lemma_dist_sq_symmetric(rest[b].pos, c[0].pos);
            // entries of rest2 are entries of c other than c[0] and c[b + 1]
            assert forall|k: int| 0 <= k < rest2.len() implies #[trigger] rest2[k].entity
                != c[0].entity && rest2[k].entity != m by {
                let k1 = if k < b { k } else { k + 1 };
                assert(rest2[k] == rest[k1]);
                assert(rest[k1] == c[k1 + 1]);
                assert(rest[b] == c[b + 1]);
            }
            assert forall|k: int| 0 <= k < all.len() implies pair_in(c, #[trigger] all[k], r2) by {
                if k == 0 {
                    assert(c[b + 1] == rest[b]);
                    crate::geometry::lemma_dist_sq_bounds(rest[b].pos, c[0].pos);
                    assert(h.unwrap().0 as int == dist_sq(rest[b].pos, c[0].pos));
                    assert(c[0].entity == all[k].0 && c[b + 1].entity == all[k].1);
                    assert(dist_sq(c[0].pos, c[b + 1].pos) <= r2);
                } else {
                    assert(all[k] == tail[k - 1]);
                    assert(pair_in(rest2, tail[k - 1], r2));
                    let (a, bb) = choose|a: int, bb: int|
                        0 <= a < rest2.len() && 0 <= bb < rest2.len() && (#[trigger] rest2[a]).entity
                            == tail[k - 1].0 && (#[trigger] rest2[bb]).entity == tail[k - 1].1
                            && dist_sq(rest2[a].pos, rest2[bb].pos) <= r2;
                    let a1 = if a < b { a } else { a + 1 };
                    let b1 = if bb < b { bb } else { bb + 1 };
                    assert(rest2[a] == c[a1 + 1]);
                    assert(rest2[bb] == c[b1 + 1]);
                }
            }
            assert forall|k: int| 0 <= k < all.len() implies (#[trigger] all[k]).0 != all[k].1 by {
                if k > 0 {
                    assert(all[k] == tail[k - 1]);
                } else {
                    assert(c[b + 1] == rest[b]);
                }
            }
            assert forall|k1: int, k2: int|
                0 <= k1 < all.len() && 0 <= k2 < all.len() && k1 != k2 implies {
                &&& (#[trigger] all[k1]).0 != (#[trigger] all[k2]).0
                &&& all[k1].0 != all[k2].1
                &&& all[k1].1 != all[k2].0
                &&& all[k1].1 != all[k2].1
            } by {
                if k1 > 0 && k2 > 0 {
                    assert(all[k1] == tail[k1 - 1] && all[k2] == tail[k2 - 1]);
                } else {
                    let k = if k1 == 0 { k2 } else { k1 };
                    assert(all[k] == tail[k - 1]);
                    let (a, bb) = choose|a: int, bb: int|
                        0 <= a < rest2.len() && 0 <= bb < rest2.len() && (#[trigger] rest2[a]).entity
                            == tail[k - 1].0 && (#[trigger] rest2[bb]).entity == tail[k - 1].1
                            && dist_sq(rest2[a].pos, rest2[bb].pos) <= r2;
                    assert(rest2[a].entity != c[0].entity && rest2[a].entity != m);
                    assert(rest2[bb].entity != c[0].entity && rest2[bb].entity != m);
                }
            }
        } else {
            lemma_pairing(rest, r2);
            let all = pairing(c, r2);
            assert(all == pairing(rest, r2));
            assert forall|k: int| 0 <= k < all.len() implies pair_in(c, #[trigger] all[k], r2) by {
                assert(pair_in(rest, all[k], r2));
                let (a, bb) = choose|a: int, bb: int|
                    0 <= a < rest.len() && 0 <= bb < rest.len() && (#[trigger] rest[a]).entity
                        == all[k].0 && (#[trigger] rest[bb]).entity == all[k].1 && dist_sq(
                        rest[a].pos,
                        rest[bb].pos,
                    ) <= r2;
                assert(rest[a] == c[a + 1] && rest[bb] == c[bb + 1]);
            }
        }
    }
}

proof fn lemma_partner_at(pairs: Seq<(u64, u64)>, k: int, i: int)
    requires
        pairs_disjoint(pairs),
        0 <= i <= k < pairs.len(),
    ensures
        partner_from(pairs, pairs[k].0, i) == Some(pairs[k].1),
        partner_from(pairs, pairs[k].1, i) == Some(pairs[k].0),
    decreases k - i,
{
    if i < k {
        lemma_partner_at(pairs, k, i + 1);
    }
}

proof fn lemma_partner_some(pairs: Seq<(u64, u64)>, id: u64, i: int)
    requires
        0 <= i,
        partner_from(pairs, id, i) is Some,
    ensures
        exists|k: int|
            i <= k < pairs.len() && ((#[trigger] pairs[k]).0 == id && pairs[k].1 == partner_from(
                pairs,
                id,
                i,
            ).unwrap() || pairs[k].1 == id && pairs[k].0 == partner_from(pairs, id, i).unwrap()),
    decreases pairs.len() - i,
{
    if i < pairs.len() && pairs[i].0 != id && pairs[i].1 != id {
        lemma_partner_some(pairs, id, i + 1);
    }
}

/// After an eligibility scan every paired animal was a candidate and now
/// searches for another candidate within the search radius, which searches
/// for it in turn.
pub proof fn lemma_mate_pairs_mutual(
    s: Seq<Organism>,
    t: Seq<Organism>,
    cfg: ReproductionConfig,
    i: int,
)
    requires
        table_wf(s),
        t.len() == s.len(),
        forall|k: int| 0 <= k < s.len() ==> #[trigger] t[k] == paired_one(s[k], mate_pairs(s, cfg)),
        0 <= i < s.len(),
        partner_from(mate_pairs(s, cfg), s[i].id, 0) is Some,
    ensures
        is_candidate(s[i], cfg),
        exists|j: int|
            0 <= j < s.len() && j != i && #[trigger] t[j].state == (AgentState::SearchingMate {
                mate: s[i].id,
            }) && t[i].state == (AgentState::SearchingMate { mate: s[j].id }) && is_candidate(
                s[j],
                cfg,
            ) && dist_sq(s[i].pos, s[j].pos) <= (cfg.search_radius as int) * (
            cfg.search_radius as int),
{
    let r2 = (cfg.search_radius as int) * (cfg.search_radius as int);
    let c = candidates_upto(s, cfg, s.len() as int);
    let pairs = mate_pairs(s, cfg);
    lemma_candidates(s, cfg, s.len() as int);
    lemma_pairing(c, r2);
    let id = s[i].id;
    let m = partner_from(pairs, id, 0).unwrap();
    lemma_partner_some(pairs, id, 0);
    let k = choose|k: int|
        0 <= k < pairs.len() && ((#[trigger] pairs[k]).0 == id && pairs[k].1 == m || pairs[k].1
            == id && pairs[k].0 == m);
    lemma_partner_at(pairs, k, 0);
    assert(pair_in(c, pairs[k], r2));
    let (a, b) = choose|a: int, b: int|
        0 <= a < c.len() && 0 <= b < c.len() && (#[trigger] c[a]).entity == pairs[k].0 && (
        #[trigger] c[b]).entity == pairs[k].1 && dist_sq(c[a].pos, c[b].pos) <= r2;
    let ja = choose|j: int|
        0 <= j < s.len() && (#[trigger] c[a]).entity == s[j].id && c[a].pos == s[j].pos
            && is_candidate(s[j], cfg);
    let jb = choose|j: int|
        0 <= j < s.len() && (#[trigger] c[b]).entity == s[j].id && c[b].pos == s[j].pos
            && is_candidate(s[j], cfg);
    lemma_dist_sq_symmetric(c[a].pos, c[b].pos);
    if pairs[k].0 == id {
        assert(ja == i);
        assert(t[jb].state == (AgentState::SearchingMate { mate: s[i].id }));
    } else {
        assert(jb == i);
        assert(t[ja].state == (AgentState::SearchingMate { mate: s[i].id }));
    }
}

/// Every animal that refers to a mate has that mate in the table, and the
/// two are partnered.
pub open spec fn mates_strict(s: Seq<Organism>) -> bool {
    forall|i: int|
        #![trigger s[i].state]
        0 <= i < s.len() && mate_of(s[i].state) is Some ==> exists|j: int|
            0 <= j < s.len() && j != i && s[j].id == mate_of(s[i].state).unwrap() && partnered(
                s[i].state,
                #[trigger] s[j].state,
                s[i].id,
                s[j].id,
            )
}

/// The same ids in the same order, and every animal that holds a mate in
/// `t` held the same state in `s`.
pub open spec fn holders_kept(s: Seq<Organism>, t: Seq<Organism>) -> bool {
    &&& s.len() == t.len()
    &&& forall|i: int|
        0 <= i < s.len() ==> (#[trigger] t[i]).id == s[i].id && (mate_of(t[i].state) is Some
            ==> t[i].state == s[i].state)
}

/// A step that only changes animals that end up holding no mate keeps mates
/// symmetric.
pub proof fn lemma_symmetry_holders_kept(s: Seq<Organism>, t: Seq<Organism>)
    requires
        mates_symmetric(s),
        holders_kept(s, t),
    ensures
        mates_symmetric(t),
{
    assert forall|i: int, j: int|
        0 <= i < t.len() && 0 <= j < t.len() && i != j && mate_of(#[trigger] t[i].state) == Some(
            t[j].id,
        ) && mate_of(#[trigger] t[j].state) is Some implies partnered(
        t[i].state,
        t[j].state,
        t[i].id,
        t[j].id,
    ) by {
        assert(t[i].state == s[i].state && t[j].state == s[j].state);
        assert(mate_of(s[i].state) == Some(s[j].id) && mate_of(s[j].state) is Some);
    }
}

/// Removing an animal keeps mates symmetric.
pub proof fn lemma_symmetry_remove(s: Seq<Organism>, k: int)
    requires
        mates_symmetric(s),
        0 <= k < s.len(),
    ensures
        mates_symmetric(s.remove(k)),
{
    let t = s.remove(k);
    assert forall|i: int, j: int|
        0 <= i < t.len() && 0 <= j < t.len() && i != j && mate_of(#[trigger] t[i].state) == Some(
            t[j].id,
        ) && mate_of(#[trigger] t[j].state) is Some implies partnered(
        t[i].state,
        t[j].state,
        t[i].id,
        t[j].id,
    ) by {
        let i0 = if i < k { i } else { i + 1 };
        let j0 = if j < k { j } else { j + 1 };
        assert(t[i] == s[i0] && t[j] == s[j0]);
        assert(mate_of(s[i0].state) == Some(s[j0].id) && mate_of(s[j0].state) is Some);
    }
}

/// Adding an animal that holds no mate keeps mates symmetric.
pub proof fn lemma_symmetry_push(s: Seq<Organism>, o: Organism)
    requires
        mates_symmetric(s),
        mate_of(o.state) is None,
    ensures
        mates_symmetric(s.push(o)),
{
    let t = s.push(o);
    assert forall|i: int, j: int|
        0 <= i < t.len() && 0 <= j < t.len() && i != j && mate_of(#[trigger] t[i].state) == Some(
            t[j].id,
        ) && mate_of(#[trigger] t[j].state) is Some implies partnered(
        t[i].state,
        t[j].state,
        t[i].id,
        t[j].id,
    ) by {
        assert(i < s.len() && j < s.len());
        assert(t[i] == s[i] && t[j] == s[j]);
        assert(mate_of(s[i].state) == Some(s[j].id) && mate_of(s[j].state) is Some);
    }
}

/// After the searching and then the mating step, every animal that refers
/// to a mate is partnered with it.
pub proof fn lemma_strict_after_mating(
    a: Seq<Organism>,
    b: Seq<Organism>,
    c: Seq<Organism>,
    dt: u64,
    cfg: ReproductionConfig,
)
    requires
        table_wf(a),
        mates_symmetric(a),
        b.len() == a.len(),
        forall|i: int| 0 <= i < a.len() ==> #[trigger] b[i] == searching_one(a[i], a, cfg),
        c.len() == b.len(),
        forall|i: int| 0 <= i < b.len() ==> #[trigger] c[i] == mating_one(b[i], b, dt, cfg),
    ensures
        mates_strict(c),
{
    lemma_searching_keeps_symmetry(a, b, cfg);
    assert(table_wf(b)) by {
        assert(forall|j: int| 0 <= j < a.len() ==> #[trigger] b[j].id == a[j].id);
        assert forall|j: int| 0 <= j < b.len() implies (#[trigger] b[j]).wf() by {
            assert(b[j] == searching_one(a[j], a, cfg));
            assert(a[j].wf());
        }
        assert forall|x: int, y: int|
            0 <= x < b.len() && 0 <= y < b.len() && x != y implies #[trigger] b[x].id
            != #[trigger] b[y].id by {
            assert(b[x].id == a[x].id && b[y].id == a[y].id);
        }
    }
    assert forall|i: int|
        #![trigger c[i].state]
        0 <= i < c.len() && mate_of(c[i].state) is Some implies exists|j: int|
            0 <= j < c.len() && j != i && c[j].id == mate_of(c[i].state).unwrap() && partnered(
                c[i].state,
                #[trigger] c[j].state,
                c[i].id,
                c[j].id,
            ) by {
        assert(c[i] == mating_one(b[i], b, dt, cfg));
        assert(b[i] == searching_one(a[i], a, cfg));
        if b[i].state is Mating {
            let m = b[i].state->Mating_mate;
            let k = index_of(b, m);
            assert(mating_partner_ok(b[i], b));
            lemma_index_of_at(b, i);
            lemma_find_from(b, m, 0);
            assert(b[k].id == m);
            assert(k != i);
            assert(mate_of(b[i].state) == Some(b[k].id) && mate_of(b[k].state) is Some);
            assert(partnered(b[i].state, b[k].state, b[i].id, b[k].id));
            assert(c[k] == mating_one(b[k], b, dt, cfg));
            assert(index_of(b, b[i].id) == i);
            assert(mating_partner_ok(b[k], b));
            assert(c[k].id == m);
            assert(partnered(c[i].state, c[k].state, c[i].id, c[k].id));
            assert(c[k].id == mate_of(c[i].state).unwrap());
        } else {
            assert(c[i] == b[i]);
            let m = b[i].state->SearchingMate_mate;
            assert(a[i].state == b[i].state);
            let k = index_of(a, m);
            lemma_index_of_at(a, i);
            lemma_find_from(a, m, 0);
            assert(a[k].state == (AgentState::SearchingMate { mate: a[i].id }));
            lemma_dist_sq_symmetric(a[i].pos, a[k].pos);
            lemma_index_of_at(a, k);
            assert(b[k] == searching_one(a[k], a, cfg));
            assert(b[k].state == (AgentState::SearchingMate { mate: a[i].id }));
            assert(c[k] == mating_one(b[k], b, dt, cfg));
            assert(c[k].id == m);
            assert(k != i);
            assert(partnered(c[i].state, c[k].state, c[i].id, c[k].id));
            assert(c[k].id == mate_of(c[i].state).unwrap());
        }
    }
}

/// The eligibility scan turns strictly partnered mates into symmetric ones:
/// it pairs only animals that hold no mate, which no one refers to.
pub proof fn lemma_find_mate_symmetric(s: Seq<Organism>, t: Seq<Organism>, cfg: ReproductionConfig)
    requires
        table_wf(s),
        mates_strict(s),
        t.len() == s.len(),
        forall|k: int| 0 <= k < s.len() ==> #[trigger] t[k] == paired_one(s[k], mate_pairs(s, cfg)),
    ensures
        mates_symmetric(t),
{
    let pairs = mate_pairs(s, cfg);
    assert forall|i: int| 0 <= i < t.len() implies mate_of(#[trigger] t[i].state) != Some(
        t[i].id,
    ) by {
        assert(t[i] == paired_one(s[i], pairs));
        if partner_from(pairs, s[i].id, 0) is Some {
            lemma_mate_pairs_mutual(s, t, cfg, i);
            let j2 = choose|j2: int|
                0 <= j2 < s.len() && j2 != i && #[trigger] t[j2].state == (AgentState::SearchingMate {
                    mate: s[i].id,
                }) && t[i].state == (AgentState::SearchingMate { mate: s[j2].id }) && is_candidate(
                    s[j2],
                    cfg,
                ) && dist_sq(s[i].pos, s[j2].pos) <= (cfg.search_radius as int) * (
                cfg.search_radius as int);
            assert(s[j2].id != s[i].id);
        } else if mate_of(s[i].state) is Some {
            let j3 = choose|j3: int|
                0 <= j3 < s.len() && j3 != i && s[j3].id == mate_of(s[i].state).unwrap()
                    && partnered(s[i].state, #[trigger] s[j3].state, s[i].id, s[j3].id);
            assert(s[j3].id != s[i].id);
        }
    }
    assert forall|i: int, j: int|
        0 <= i < t.len() && 0 <= j < t.len() && i != j && mate_of(#[trigger] t[i].state) == Some(
            t[j].id,
        ) && mate_of(#[trigger] t[j].state) is Some implies partnered(
        t[i].state,
        t[j].state,
        t[i].id,
        t[j].id,
    ) by {
        assert(t[i] == paired_one(s[i], pairs));
        assert(t[j] == paired_one(s[j], pairs));
        if partner_from(pairs, s[i].id, 0) is Some {
            lemma_mate_pairs_mutual(s, t, cfg, i);
            let j2 = choose|j2: int|
                0 <= j2 < s.len() && j2 != i && #[trigger] t[j2].state == (AgentState::SearchingMate {
                    mate: s[i].id,
                }) && t[i].state == (AgentState::SearchingMate { mate: s[j2].id }) && is_candidate(
                    s[j2],
                    cfg,
                ) && dist_sq(s[i].pos, s[j2].pos) <= (cfg.search_radius as int) * (
                cfg.search_radius as int);
            assert(s[j2].id == s[j].id);
            assert(j2 == j);
        } else {
            assert(t[i] == s[i]);
            assert(mate_of(s[i].state) is Some);
            let j3 = choose|j3: int|
                0 <= j3 < s.len() && j3 != i && s[j3].id == mate_of(s[i].state).unwrap()
                    && partnered(s[i].state, #[trigger] s[j3].state, s[i].id, s[j3].id);
            assert(s[j3].id == s[j].id);
            assert(j3 == j);
            if partner_from(pairs, s[j].id, 0) is Some {
                lemma_mate_pairs_mutual(s, t, cfg, j);
                assert(is_candidate(s[j], cfg));
            }
            assert(t[j] == s[j]);
        }
    }
}

} // verus!
