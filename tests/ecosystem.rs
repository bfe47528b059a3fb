use ecosim::agent::{AgentState, Organism};
use ecosim::geometry::{isqrt, midpoint, Point};
use ecosim::hunting::{attack, find_prey, move_to_prey, on_attack_cooling, on_eating, HuntConfig};
use ecosim::life::{energy_system, seeds_for, spread, GrassConfig};
use ecosim::movement::{advance, Movement};
use ecosim::reproduction::{
    find_mate_when_energy_enough_and_idle, mating_conditions, searching_mate_conditions,
    ReproductionConfig,
};
use ecosim::spatial_index::SpatialIndex;
use ecosim::timer::Timer;
use ecosim::world::{animal_from_config, grass_from_config, seed_position, Config, Species, World};

fn cow(id: u64, x: i64, y: i64) -> Organism {
    let config = Config::from(100, 100, 0, 0, 0);
    animal_from_config(&config.cow, id, Point::new(x, y))
}

fn plant(id: u64, x: i64, y: i64) -> Organism {
    let config = Config::from(100, 100, 0, 0, 0);
    grass_from_config(&config, id, Point::new(x, y))
}

fn dist_sq(a: Point, b: Point) -> u128 {
    let dx = (a.x - b.x) as i128;
    let dy = (a.y - b.y) as i128;
    (dx * dx + dy * dy) as u128
}

#[test]
fn index_matches_linear_scan() {
    let mut index = SpatialIndex::new();
    let mut pairs: Vec<(u64, Point)> = Vec::new();
    let points = [(1, 0, 0), (2, 10, 0), (3, -4, 3), (4, 7, 7), (5, 100, -100)];
    for (id, x, y) in points {
        index.insert(id, Point::new(x, y));
        pairs.push((id, Point::new(x, y)));
    }
    index.update(2, Point::new(2, 1));
    pairs[1].1 = Point::new(2, 1);
    index.remove(4);
    pairs.remove(3);
    let queries = [Point::new(0, 0), Point::new(3, 3), Point::new(90, -90), Point::new(-5, 5)];
    for q in queries {
        let best = pairs.iter().map(|(_, p)| dist_sq(*p, q)).min().unwrap();
        let (d, e) = index.get_nearest(q).unwrap();
        assert_eq!(d, best);
        let stored = pairs.iter().find(|(id, _)| *id == e).unwrap().1;
        assert_eq!(dist_sq(stored, q), best);
        for r in [0u64, 3, 5, 150] {
            let mut expect: Vec<u64> = pairs
                .iter()
                .filter(|(_, p)| dist_sq(*p, q) <= (r as u128) * (r as u128))
                .map(|(id, _)| *id)
                .collect();
            let mut got: Vec<u64> = index.get_in_radius(q, r).iter().map(|h| h.1).collect();
            expect.sort();
            got.sort();
            assert_eq!(got, expect);
        }
    }
    assert_eq!(index.get_pos(4), None);
    assert_eq!(index.get_pos(2), Some(Point::new(2, 1)));
}

#[test]
fn empty_index_answers_nothing() {
    let index = SpatialIndex::new();
    assert!(index.is_empty());
    assert_eq!(index.get_nearest(Point::new(1, 2)), None);
    assert_eq!(index.get_second_nearest(Point::new(1, 2)), None);
    assert!(index.get_in_radius(Point::new(1, 2), 1000).is_empty());
}

#[test]
fn nearest_ties_go_to_the_first_stored() {
    let mut index = SpatialIndex::new();
    index.insert(9, Point::new(5, 0));
    index.insert(3, Point::new(-5, 0));
    index.insert(4, Point::new(0, 5));
    assert_eq!(index.get_nearest(Point::new(0, 0)), Some((25, 3)));
    assert_eq!(index.get_nearest(Point::new(0, 0)), Some((25, 3)));
    assert_eq!(index.get_second_nearest(Point::new(0, 0)), Some((25, 4)));
}

#[test]
fn nearest_is_found_across_a_wide_band() {
    let mut index = SpatialIndex::new();
    for i in 0..50u64 {
        index.insert(i, Point::new(i as i64 * 10 - 250, (i as i64 % 7) * 40));
    }
    index.insert(100, Point::new(1000, 1));
    let q = Point::new(995, 0);
    assert_eq!(index.get_nearest(q), Some((26, 100)));
    let q = Point::new(-1000, 0);
    assert_eq!(index.get_nearest(q), Some((750 * 750, 0)));
    let hits = index.get_in_radius(Point::new(0, 0), 40);
    let mut ids: Vec<u64> = hits.iter().map(|h| h.1).collect();
    ids.sort();
    assert_eq!(ids, vec![21, 28]);
}

#[test]
fn second_nearest_skips_the_querier() {
    let mut index = SpatialIndex::new();
    index.insert(1, Point::new(0, 0));
    index.insert(2, Point::new(30, 40));
    index.insert(3, Point::new(100, 0));
    assert_eq!(index.get_second_nearest(Point::new(0, 0)), Some((2500, 2)));
}

#[test]
fn radius_boundary_is_included() {
    let mut index = SpatialIndex::new();
    index.insert(1, Point::new(3, 4));
    assert_eq!(index.get_in_radius(Point::new(0, 0), 5), vec![(25, 1)]);
    assert!(index.get_in_radius(Point::new(0, 0), 4).is_empty());
}

#[test]
fn integer_square_root() {
    assert_eq!(isqrt(0), 0);
    assert_eq!(isqrt(24), 4);
    assert_eq!(isqrt(25), 5);
    assert_eq!(isqrt(u128::MAX), u64::MAX as u128);
}

#[test]
fn midpoint_rounds_down() {
    assert_eq!(midpoint(Point::new(0, 0), Point::new(5, -5)), Point::new(2, -3));
}

#[test]
fn timers_fire_once_or_repeat() {
    let mut t = Timer::once(1000);
    assert!(!t.tick(600));
    assert!(t.tick(600));
    assert!(!t.tick(600));
    let mut r = Timer::repeating(500);
    assert!(r.tick(700));
    assert_eq!(r.elapsed, 200);
    assert!(!r.tick(100));
    assert!(r.tick(200));
}

#[test]
fn movement_stops_at_goal_and_scales_headings() {
    let toward = Movement::toward(10, Point::new(0, 0), Point::new(5000, 0));
    assert_eq!(advance(Point::new(0, 0), toward, 1000), Point::new(5000, 0));
    let far = Movement::toward(1, Point::new(0, 0), Point::new(3000, 4000));
    assert_eq!(advance(Point::new(0, 0), far, 1000), Point::new(600, 800));
    let away = Movement::away(2, Point::new(0, 0), Point::new(3, 4));
    assert_eq!(advance(Point::new(0, 0), away, 1000), Point::new(-1200, -1600));
}

#[test]
fn hunter_closes_in_then_strikes_next_tick() {
    let mut config = Config::from(100, 100, 0, 0, 0);
    config.cow.speed = 10;
    config.cow.hunt.attack_distance = 1000;
    let mut world = World::new(config);
    let cow_id = world.spawn(Species::Cow, Point::new(0, 0)).unwrap();
    let grass_id = world.spawn(Species::Grass, Point::new(5000, 0)).unwrap();
    world.tick(1000);
    let c = world.cows()[0];
    assert_eq!(c.id, cow_id);
    assert_eq!(c.state, AgentState::Hunting { prey: grass_id });
    assert_eq!(c.pos, Point::new(5000, 0));
    assert_eq!(world.grass().len(), 1);
    world.tick(1000);
    assert_eq!(world.grass().len(), 0);
    assert!(matches!(world.cows()[0].state, AgentState::Eating { .. }));
    assert_eq!(world.grass_index().get_pos(grass_id), None);
}

#[test]
fn lethal_hit_leads_to_eating_and_the_yield() {
    let cfg = HuntConfig::new(10_000, 15_000, 1_000, 2_000, 10_000);
    let mut hunter = cow(1, 0, 0);
    hunter.state = AgentState::Hunting { prey: 2 };
    let start_energy = hunter.energy;
    let mut hunters = vec![hunter];
    let mut prey = vec![plant(2, 10, 0)];
    let killed = attack(&mut hunters, &mut prey, &cfg);
    assert_eq!(killed, vec![2]);
    assert_eq!(prey[0].health, 0);
    assert_eq!(hunters[0].state, AgentState::Eating { timer: Timer::once(2_000), gain: 15_000 });
    on_eating(&mut hunters, 1_000);
    assert_eq!(hunters[0].energy, start_energy);
    on_eating(&mut hunters, 1_000);
    assert_eq!(hunters[0].energy, start_energy + 15_000);
    assert_eq!(hunters[0].state, AgentState::Idle);
}

#[test]
fn two_lethal_hunters_one_kill() {
    let cfg = HuntConfig::new(10_000, 15_000, 1_000, 2_000, 10_000);
    let mut a = cow(1, 0, 0);
    a.state = AgentState::Hunting { prey: 9 };
    let mut b = cow(2, 5, 0);
    b.state = AgentState::Hunting { prey: 9 };
    let mut hunters = vec![a, b];
    let mut prey = vec![plant(9, 1, 0)];
    let killed = attack(&mut hunters, &mut prey, &cfg);
    assert_eq!(killed, vec![9]);
    assert!(matches!(hunters[0].state, AgentState::Eating { .. }));
    assert_eq!(hunters[1].state, AgentState::Hunting { prey: 9 });
    assert_eq!(prey[0].health, 0);
}

#[test]
fn surviving_prey_sends_hunter_to_cooldown_then_back() {
    let cfg = HuntConfig::new(3_000, 15_000, 1_000, 2_000, 10_000);
    let mut a = cow(1, 0, 0);
    a.state = AgentState::Hunting { prey: 9 };
    let mut hunters = vec![a];
    let mut prey = vec![plant(9, 1, 0)];
    let killed = attack(&mut hunters, &mut prey, &cfg);
    assert!(killed.is_empty());
    assert_eq!(prey[0].health, 7_000);
    assert_eq!(hunters[0].state, AgentState::AttackCooling { prey: 9, timer: Timer::once(1_000) });
    on_attack_cooling(&mut hunters, 1_000);
    assert_eq!(hunters[0].state, AgentState::Hunting { prey: 9 });
}

#[test]
fn hunter_out_of_reach_does_not_strike() {
    let cfg = HuntConfig::new(10_000, 15_000, 1_000, 2_000, 10);
    let mut a = cow(1, 0, 0);
    a.state = AgentState::Hunting { prey: 9 };
    let mut hunters = vec![a];
    let mut prey = vec![plant(9, 10, 0)];
    let killed = attack(&mut hunters, &mut prey, &cfg);
    assert!(killed.is_empty());
    assert_eq!(prey[0].health, 10_000);
}

#[test]
fn idle_hunter_targets_nearest_and_lost_target_resets() {
    let mut index = SpatialIndex::new();
    index.insert(7, Point::new(100, 0));
    index.insert(8, Point::new(10, 0));
    let mut hunters = vec![cow(1, 0, 0)];
    find_prey(&mut hunters, &index);
    assert_eq!(hunters[0].state, AgentState::Hunting { prey: 8 });
    let prey = vec![plant(7, 100, 0)];
    move_to_prey(&mut hunters, &prey);
    assert_eq!(hunters[0].state, AgentState::Idle);
}

#[test]
fn idle_pair_with_enough_energy_pairs_up() {
    let cfg = ReproductionConfig::new(100_000, 40_000, 500_000, 40_000, 5_000);
    let mut a = cow(1, 0, 0);
    a.energy = 120_000;
    let mut b = cow(2, 300_000, 0);
    b.energy = 100_000;
    let mut animals = vec![a, b];
    find_mate_when_energy_enough_and_idle(&mut animals, &cfg);
    assert_eq!(animals[0].state, AgentState::SearchingMate { mate: 2 });
    assert_eq!(animals[1].state, AgentState::SearchingMate { mate: 1 });
}

#[test]
fn pairing_leaves_out_the_poor_and_the_far() {
    let cfg = ReproductionConfig::new(100_000, 40_000, 500_000, 40_000, 5_000);
    let mut a = cow(1, 0, 0);
    a.energy = 120_000;
    let mut b = cow(2, 600_000, 0);
    b.energy = 120_000;
    let c = cow(3, 10, 0);
    let mut animals = vec![a, b, c];
    find_mate_when_energy_enough_and_idle(&mut animals, &cfg);
    assert_eq!(animals[0].state, AgentState::Idle);
    assert_eq!(animals[1].state, AgentState::Idle);
    assert_eq!(animals[2].state, AgentState::Idle);
}

#[test]
fn three_candidates_make_one_pair() {
    let cfg = ReproductionConfig::new(0, 40_000, 500_000, 40_000, 5_000);
    let mut animals = vec![cow(1, 0, 0), cow(2, 50, 0), cow(3, 10, 0)];
    find_mate_when_energy_enough_and_idle(&mut animals, &cfg);
    assert_eq!(animals[0].state, AgentState::SearchingMate { mate: 3 });
    assert_eq!(animals[2].state, AgentState::SearchingMate { mate: 1 });
    assert_eq!(animals[1].state, AgentState::Idle);
}

#[test]
fn mates_within_radius_start_mating_and_complete() {
    let cfg = ReproductionConfig::new(100_000, 40_000, 500_000, 40_000, 5_000);
    let mut a = cow(1, 0, 0);
    a.state = AgentState::SearchingMate { mate: 2 };
    a.energy = 120_000;
    let mut b = cow(2, 30_000, 0);
    b.state = AgentState::SearchingMate { mate: 1 };
    b.energy = 110_000;
    let mut animals = vec![a, b];
    searching_mate_conditions(&mut animals, &cfg);
    assert_eq!(animals[0].state, AgentState::Mating { mate: 2, timer: Timer::once(5_000) });
    assert_eq!(animals[1].state, AgentState::Mating { mate: 1, timer: Timer::once(5_000) });
    let births = mating_conditions(&mut animals, 4_000, &cfg);
    assert!(births.is_empty());
    let births = mating_conditions(&mut animals, 1_000, &cfg);
    assert_eq!(births, vec![Point::new(15_000, 0)]);
    assert_eq!(animals[0].energy, 80_000);
    assert_eq!(animals[1].energy, 70_000);
    assert_eq!(animals[0].state, AgentState::Idle);
    assert_eq!(animals[1].state, AgentState::Idle);
}

#[test]
fn mate_gone_goes_idle() {
    let cfg = ReproductionConfig::new(100_000, 40_000, 500_000, 40_000, 5_000);
    let mut a = cow(1, 0, 0);
    a.state = AgentState::SearchingMate { mate: 7 };
    let mut b = cow(2, 30_000, 0);
    b.state = AgentState::SearchingMate { mate: 3 };
    let mut c = cow(3, 30_000, 0);
    c.state = AgentState::SearchingMate { mate: 2 };
    let mut d = cow(4, 0, 0);
    d.state = AgentState::Mating { mate: 5, timer: Timer::once(100) };
    let mut animals = vec![a, b, c, d];
    searching_mate_conditions(&mut animals, &cfg);
    assert_eq!(animals[0].state, AgentState::Idle);
    assert!(matches!(animals[1].state, AgentState::Mating { mate: 3, .. }));
    assert!(matches!(animals[2].state, AgentState::Mating { mate: 2, .. }));
    let births = mating_conditions(&mut animals, 10, &cfg);
    assert!(births.is_empty());
    assert_eq!(animals[3].state, AgentState::Idle);
    assert!(matches!(animals[1].state, AgentState::Mating { mate: 3, .. }));
}

#[test]
fn energy_strictly_decays() {
    let mut table = vec![cow(1, 0, 0), cow(2, 0, 0)];
    table[1].energy = 500;
    let depleted = energy_system(&mut table, 1_000);
    assert_eq!(table[0].energy, 49_000);
    assert_eq!(depleted, vec![2]);
    assert!(table[1].energy < 500);
}

#[test]
fn seeds_land_around_the_parent() {
    let p = spread(Point::new(1000, -1000), 0, 100, 50);
    assert_eq!(p, Point::new(950, -1000 + 100 - 50));
    let cfg = GrassConfig { reproduction_radius: 50, rate_sparse: u32::MAX, rate_crowded: 0 };
    assert!(ecosim::life::reproduces(2, 7, &cfg));
    assert!(!ecosim::life::reproduces(4, 7, &cfg));
    assert!(!ecosim::life::reproduces(7, 0, &cfg));
}

#[test]
fn grass_counts_neighbours() {
    let config = Config::from(100, 100, 0, 0, 0);
    let mut world = World::new(config);
    world.spawn(Species::Grass, Point::new(0, 0)).unwrap();
    world.spawn(Species::Grass, Point::new(10_000, 0)).unwrap();
    world.spawn(Species::Grass, Point::new(500_000, 0)).unwrap();
    assert_eq!(world.grass()[0].neighbor_count, 1);
    assert_eq!(world.grass()[1].neighbor_count, 1);
    assert_eq!(world.grass()[2].neighbor_count, 0);
}

#[test]
fn world_ages_out_plants() {
    let config = Config::from(100, 100, 0, 0, 0);
    let mut world = World::new(config);
    let first = world.spawn(Species::Grass, Point::new(0, 0)).unwrap();
    world.tick(29_999);
    assert!(world.grass().iter().any(|g| g.id == first));
    world.tick(1);
    assert!(!world.grass().iter().any(|g| g.id == first));
    assert_eq!(world.grass_index().get_pos(first), None);
}

#[test]
fn spawn_rejects_out_of_range_positions() {
    let config = Config::from(100, 100, 0, 0, 0);
    let mut world = World::new(config);
    assert_eq!(world.spawn(Species::Cow, Point::new(i64::MAX, 0)), None);
    assert!(world.cows().is_empty());
}

#[test]
fn mating_pair_in_world_produces_one_offspring() {
    let mut config = Config::from(100, 100, 0, 0, 0);
    config.cow.reproduction.energy_threshold = 0;
    let mut world = World::new(config);
    let a = world.spawn(Species::Cow, Point::new(0, 0)).unwrap();
    let b = world.spawn(Species::Cow, Point::new(10_000, 0)).unwrap();
    world.tick(100);
    assert_eq!(world.cows()[0].state, AgentState::SearchingMate { mate: b });
    assert_eq!(world.cows()[1].state, AgentState::SearchingMate { mate: a });
    assert_eq!(world.cows()[0].pos, Point::new(2_000, 0));
    assert_eq!(world.cows()[1].pos, Point::new(8_000, 0));
    for _ in 0..49 {
        world.tick(100);
        assert_eq!(world.cows().len(), 2);
        match (world.cows()[0].state, world.cows()[1].state) {
            (AgentState::Mating { mate: m0, timer: t0 }, AgentState::Mating { mate: m1, timer: t1 }) => {
                assert_eq!((m0, m1), (b, a));
                assert_eq!(t0, t1);
            }
            other => panic!("unexpected states {:?}", other),
        }
    }
    world.tick(100);
    assert_eq!(world.cows().len(), 3);
    assert_eq!(world.cows()[0].energy, 4_900);
    assert_eq!(world.cows()[1].energy, 4_900);
    assert_eq!(world.cows()[2].pos, Point::new(5_000, 0));
    assert_eq!(world.cows()[2].energy, 50_000);
    assert_eq!(world.cows()[2].state, AgentState::Idle);
}

#[test]
fn tiger_kill_removes_cow_from_its_index() {
    let mut config = Config::from(100, 100, 0, 0, 0);
    config.tiger.hunt.damage = 100_000;
    config.cow.escape.flee_distance = 0;
    let mut world = World::new(config);
    let cow_id = world.spawn(Species::Cow, Point::new(100, 0)).unwrap();
    let tiger_id = world.spawn(Species::Tiger, Point::new(0, 0)).unwrap();
    world.tick(10);
    assert_eq!(world.tigers()[0].id, tiger_id);
    assert!(world.cows().is_empty());
    assert_eq!(world.cow_index().get_pos(cow_id), None);
    assert_eq!(
        world.tigers()[0].state,
        AgentState::Eating {
            timer: Timer { duration: 3_000, elapsed: 10, repeating: false, done: false },
            gain: 50_000
        }
    );
}

#[test]
fn populate_seeds_configured_counts_inside_the_world() {
    let config = Config::from(200, 100, 5, 3, 2);
    let mut world = World::new(config);
    world.populate();
    assert_eq!(world.grass().len(), 5);
    assert_eq!(world.cows().len(), 3);
    assert_eq!(world.tigers().len(), 2);
    let all = world.grass().iter().chain(world.cows().iter()).chain(world.tigers().iter());
    for o in all {
        assert!(o.pos.x >= -100_000 && o.pos.x <= 100_000);
        assert!(o.pos.y >= -50_000 && o.pos.y <= 50_000);
    }
    let mut ids: Vec<u64> = world.grass().iter().map(|o| o.id).collect();
    ids.extend(world.cows().iter().map(|o| o.id));
    ids.extend(world.tigers().iter().map(|o| o.id));
    ids.sort();
    assert_eq!(ids, (0..10).collect::<Vec<u64>>());
}

#[test]
fn cow_flees_from_a_tiger_within_range() {
    let config = Config::from(100, 100, 0, 0, 0);
    let mut world = World::new(config);
    world.spawn(Species::Cow, Point::new(0, 0)).unwrap();
    world.spawn(Species::Tiger, Point::new(50_000, 0)).unwrap();
    world.tick(500);
    let c = world.cows()[0];
    assert_eq!(c.state, AgentState::Fleeing);
    assert_eq!(c.pos, Point::new(-10_000, 0));
    assert_eq!(world.tigers()[0].pos, Point::new(37_500, 0));
}

#[test]
fn seed_positions_cover_the_rectangle() {
    assert_eq!(seed_position(200_000, 100_000, 0, 0), Point::new(-100_000, -50_000));
    assert_eq!(seed_position(200_000, 100_000, 200_000, 100_000), Point::new(100_000, 50_000));
    assert_eq!(seed_position(200_000, 100_000, 200_001, 7), Point::new(-100_000, -49_993));
}

#[test]
fn radius_hits_come_nearest_first() {
    let mut index = SpatialIndex::new();
    index.insert(1, Point::new(-10, 0));
    index.insert(2, Point::new(1, 0));
    index.insert(3, Point::new(0, -1));
    index.insert(4, Point::new(5, 5));
    assert_eq!(
        index.get_in_radius(Point::new(0, 0), 20),
        vec![(1, 3), (1, 2), (50, 4), (100, 1)]
    );
}

#[test]
fn diagonal_step_is_not_longer_than_speed_times_time() {
    let m = Movement { speed: 1, direction: Point::new(1, 1), stop_at_end: false };
    let p = advance(Point::new(0, 0), m, 1000);
    assert_eq!(p, Point::new(500, 500));
    assert!(p.x * p.x + p.y * p.y <= 1000 * 1000);
    let m = Movement { speed: 3, direction: Point::new(10, 10), stop_at_end: false };
    let p = advance(Point::new(0, 0), m, 1000);
    assert!(p.x * p.x + p.y * p.y <= 3000 * 3000);
    assert_eq!(p, Point::new(2000, 2000));
}

#[test]
fn seeds_follow_the_draws() {
    let cfg = GrassConfig { reproduction_radius: 50, rate_sparse: 1000, rate_crowded: 0 };
    let mut a = plant(1, 1000, 1000);
    a.growth = Timer::repeating(8000);
    let mut b = plant(2, -1000, 0);
    b.growth = Timer::repeating(8000);
    let mut c = plant(3, 0, 0);
    c.growth = Timer::repeating(9000);
    let grass = vec![a, b, c];
    let rolls = vec![(0u32, 0u32, 100u32), (5000, 0, 0), (0, 0, 0)];
    let seeds = seeds_for(&grass, 8000, &rolls, &cfg);
    assert_eq!(seeds, vec![Point::new(950, 1050)]);
}
