//! What seeds decide: the map, the homes, the draws for comets.

use ow_rs::comets::{comet_rng, obstacles, symmetric_paths, visible_path, CometGen, ORBIT_TRIES};
use ow_rs::double::{Double, Point};
use ow_rs::game::is_valid;
use ow_rs::mapgen::{assign_homes, start_game, MapGen, Phase};
use ow_rs::pyrandom::PyRandom;
use ow_rs::state::Planet;

fn double(x: f64) -> Double {
    Double { bits: x.to_bits() }
}

fn point(x: f64, y: f64) -> Point {
    Point { x: double(x), y: double(y) }
}

fn planet(id: i64) -> Planet {
    Planet { id, owner: -1, x: double(1.0), y: double(2.0), radius: double(2.0), ships: 33, production: 2 }
}

fn owners(num_agents: usize) -> Vec<(i64, i64)> {
    let mut planets: Vec<Planet> = (0..12).map(planet).collect();
    assign_homes(&mut planets, 4, num_agents);
    planets.iter().filter(|p| p.owner >= 0).map(|p| (p.id, p.owner)).collect()
}

#[test]
fn homes_are_in_one_group() {
    assert_eq!(owners(2), vec![(4, 0), (7, 1)]);
    assert_eq!(owners(4), vec![(4, 0), (5, 1), (6, 2), (7, 3)]);
    assert!(owners(3).is_empty() && owners(1).is_empty() && owners(0).is_empty());
    let mut planets: Vec<Planet> = (0..4).map(planet).collect();
    assign_homes(&mut planets, 0, 2);
    assert_eq!(planets.iter().map(|p| p.ships).collect::<Vec<_>>(), vec![10, 33, 33, 10]);
}

#[test]
fn groups_are_symmetric() {
    let (mut m, _) = MapGen::start(7).unwrap();
    assert_eq!(m.phase(), Phase::Static);
    let (production, _) = m.try_static().unwrap();
    let ships = m.draw_static_ships().unwrap();
    m.add_static(double(1.0), double(2.0), double(99.0), double(98.0), double(1.5));
    let at: Vec<(i64, Double, Double)> = m.planets().iter().map(|p| (p.id, p.x, p.y)).collect();
    let (a, b, ma, mb) = (double(1.0), double(2.0), double(99.0), double(98.0));
    assert_eq!(at, vec![(0, b, a), (1, ma, b), (2, a, mb), (3, mb, ma)]);
    assert!(m.planets().iter().all(|p| p.owner == -1 && p.radius == double(1.5)));
    assert!(m.planets().iter().all(|p| p.ships == ships && p.production == production));
}

#[test]
fn groups_have_what_was_drawn_for_them() {
    let (mut m, _) = MapGen::start(5).unwrap();
    let mut wanted: Vec<(i64, i64)> = Vec::new();
    while m.phase() != Phase::Done {
        let still = m.phase() == Phase::Static;
        let (production, ships) = if still {
            let (p, _) = m.try_static().unwrap();
            (p, m.draw_static_ships().unwrap())
        } else {
            let (p, _, _) = m.try_fill().unwrap();
            (p, m.draw_fill_ships().unwrap())
        };
        assert!((1..=5).contains(&production));
        assert!(if still { (5..=99).contains(&ships) } else { (5..=30).contains(&ships) });
        let at = |x: f64| double(x);
        if still {
            m.add_static(at(1.0), at(2.0), at(99.0), at(98.0), at(1.5));
        } else {
            m.add_fill(at(1.0), at(2.0), at(99.0), at(98.0), at(1.5), true);
        }
        wanted.push((production, ships));
    }
    assert_eq!(m.planets().len(), 4 * wanted.len());
    for (i, p) in m.planets().iter().enumerate() {
        assert_eq!((p.production, p.ships), wanted[i / 4]);
    }
}

#[test]
fn maps_are_filled_in_two_phases() {
    let (mut m, _) = MapGen::start(11).unwrap();
    assert!((5..=10).contains(&m.wanted()));
    let fill = |m: &mut MapGen, orbiting: bool| {
        m.try_fill().unwrap();
        m.draw_fill_ships().unwrap();
        m.add_fill(double(1.0), double(2.0), double(99.0), double(98.0), double(1.5), orbiting);
    };
    for _ in 0..3 {
        assert_eq!(m.phase(), Phase::Static);
        m.try_static().unwrap();
        m.draw_static_ships().unwrap();
        m.add_static(double(1.0), double(2.0), double(99.0), double(98.0), double(1.5));
    }
    while m.planets().len() < 4 * m.wanted() as usize {
        assert_eq!(m.phase(), Phase::Fill);
        fill(&mut m, false);
    }
    // Enough groups, but none that goes round.
    assert_eq!(m.phase(), Phase::Fill);
    fill(&mut m, true);
    assert_eq!(m.phase(), Phase::Done);
    let n = m.planets().len();
    let g = start_game(m, 2, double(0.03)).unwrap();
    assert!(is_valid(&g));
    assert_eq!((g.planets.len(), g.initial_planets.len()), (n, n));
    assert_eq!(g.planets.iter().filter(|p| p.owner >= 0).count(), 2);
    assert!(g.initial_planets.iter().all(|p| p.owner == -1));
    assert!(g.fleets.is_empty() && g.comets.is_empty() && g.next_fleet_id == 0);
}

#[test]
fn tries_are_used_up() {
    let (mut m, _) = MapGen::start(3).unwrap();
    let mut tries = (0, 0);
    while m.phase() == Phase::Static {
        m.try_static().unwrap();
        tries.0 += 1;
    }
    while m.phase() == Phase::Fill {
        m.try_fill().unwrap();
        tries.1 += 1;
    }
    assert_eq!(tries, (5000, 4999));
    let g = start_game(m, 2, double(0.03)).unwrap();
    assert!(g.planets.is_empty() && is_valid(&g));
}

#[test]
fn a_seed_gives_the_same_map_again() {
    let draws = |seed: u64| {
        let (mut m, u) = MapGen::start(seed).unwrap();
        (u, m.wanted(), m.try_static(), m.draw_distance(), m.draw_static_ships())
    };
    assert_eq!(draws(42), draws(42));
    assert_ne!(draws(42), draws(43));
}

#[test]
fn comets_are_drawn_by_seed_and_step() {
    let first = |mut r: PyRandom| r.genrand_uint32();
    assert_eq!(first(comet_rng(42, 150)), first(PyRandom::from_str("orbit_wars-comet-42-150")));
    assert_eq!(first(comet_rng(0, 50)), first(PyRandom::from_str("orbit_wars-comet-0-50")));
    let top = format!("orbit_wars-comet-{}-{}", u64::MAX, u64::MAX);
    assert_eq!(first(comet_rng(u64::MAX, u64::MAX)), first(PyRandom::from_str(&top)));
    // Digits do not run together.
    assert_ne!(first(comet_rng(1, 150)), first(comet_rng(11, 50)));
    assert_ne!(first(comet_rng(42, 50)), first(comet_rng(42, 150)));
}

#[test]
fn orbits_are_tried_up_to_a_limit() {
    let mut c = CometGen::new(comet_rng(42, 50));
    let mut same = comet_rng(42, 50);
    let mut tries = 0;
    while let Some((e, a)) = c.next_try() {
        assert_eq!((e, a), (same.random(), same.random()));
        tries += 1;
    }
    assert_eq!((tries, ORBIT_TRIES), (300, 300));
    assert_eq!(c.draw_tilt(), same.random());
    let least = (0..4).map(|_| same.randint(1, 99).unwrap()).min();
    assert_eq!(c.draw_ships(), least);
    assert!(c.next_try().is_none());
}

#[test]
fn paths_are_cut_to_what_is_visible() {
    let line = |before: usize, on: usize, after: usize| {
        let mut v: Vec<Point> = (0..before).map(|k| point(-1.0 - k as f64, 50.0)).collect();
        v.extend((0..on).map(|k| point(k as f64, 50.0)));
        v.extend((0..after).map(|k| point(50.0, 101.0 + k as f64)));
        v
    };
    for (on, ok) in [(0, false), (4, false), (5, true), (40, true), (41, false)] {
        assert_eq!(visible_path(&line(3, on, 2)).map(|v| v.len()), if ok { Some(on) } else { None });
    }
    let cut = visible_path(&line(2, 6, 1)).unwrap();
    assert_eq!(cut, line(0, 6, 0));
    // What lies between two visible points stays.
    let mut gap = line(0, 3, 2);
    gap.push(point(1.0, 1.0));
    assert_eq!(visible_path(&gap), Some(gap.clone()));
    assert_eq!(visible_path(&vec![]), None);
}

#[test]
fn four_comets_fly_in_symmetry() {
    let points = vec![point(1.0, 2.0), point(3.0, 4.0)];
    let mirrored = vec![point(99.0, 98.0), point(97.0, 96.0)];
    let paths = symmetric_paths(&points, &mirrored);
    assert_eq!(paths[0], vec![point(2.0, 1.0), point(4.0, 3.0)]);
    assert_eq!(paths[1], vec![point(99.0, 2.0), point(97.0, 4.0)]);
    assert_eq!(paths[2], vec![point(1.0, 98.0), point(3.0, 96.0)]);
    assert_eq!(paths[3], vec![point(98.0, 99.0), point(96.0, 97.0)]);
    assert_eq!(paths.len(), 4);
}

#[test]
fn comets_keep_clear_of_planets_only() {
    let planets: Vec<Planet> = vec![planet(3), planet(5), planet(8)];
    assert_eq!(obstacles(&planets, &vec![5]), vec![0, 2]);
    assert_eq!(obstacles(&planets, &vec![]), vec![0, 1, 2]);
    assert!(obstacles(&planets, &vec![3, 5, 8]).is_empty());
}
