//! The projection of garrisons, and what is read from it.

use ow_rs::double::{Double, Point};
use ow_rs::flow::{
    capture_floor, launch_fits, safe_drain_planet, score_launch, score_launch_delta, GarrisonStatus,
    Projection,
};
use ow_rs::forecast::{Trajectory, SHIP_LIMIT};
use ow_rs::garrison::{build_garrison_status, fleet_eta, has_room_for};
use ow_rs::motion::{PlanetMotion, PlanetPath};
use ow_rs::state::{Fleet, GameState, Planet};
use ow_rs::tick::{resolve_tick, FleetMove};

fn double(x: f64) -> Double {
    Double { bits: x.to_bits() }
}

fn point(x: f64, y: f64) -> Point {
    Point { x: double(x), y: double(y) }
}

fn planet(id: i64, owner: i64, ships: i64, production: i64) -> Planet {
    let (x, y) = (double(10.0 * id as f64), double(20.0));
    Planet { id, owner, x, y, radius: double(2.0), ships, production }
}

fn fleet(id: i64, owner: i64, ships: i64) -> Fleet {
    Fleet { id, owner, x: double(1.0), y: double(2.0), angle: double(0.5), from_planet_id: 0, ships }
}

fn game(planets: Vec<Planet>, fleets: Vec<Fleet>) -> GameState {
    let initial_planets = planets.clone();
    let next_fleet_id = fleets.len() as i64;
    GameState {
        planets,
        fleets,
        next_fleet_id,
        comets: Vec::new(),
        comet_planet_ids: Vec::new(),
        initial_planets,
        angular_velocity: double(0.03),
    }
}

fn leg(hit: Option<usize>) -> FleetMove {
    let contacts = (0..3).map(|i| Some(i) == hit).collect();
    FleetMove { to: point(50.0, 20.0), contacts, sun: false }
}

/// A flight that reaches planet `tgt` at step `eta`.
fn route(tgt: usize, eta: usize, h: usize) -> Vec<FleetMove> {
    (1..=h).map(|k| leg(if k == eta { Some(tgt) } else { None })).collect()
}

const H: usize = 5;

/// Three planets, and fleets given by owner, ships, target and step.
fn status_of(ships: [i64; 3], inbound: &[(i64, i64, usize, usize)]) -> GarrisonStatus {
    let planets = vec![planet(0, 0, ships[0], 2), planet(1, 1, ships[1], 1), planet(2, -1, ships[2], 3)];
    let fleets = inbound.iter().enumerate().map(|(i, f)| fleet(i as i64, f.0, f.1)).collect();
    let voyages = inbound.iter().map(|f| route(f.2, f.3, H)).collect();
    let g = game(planets, fleets);
    assert!(has_room_for(&g, H));
    build_garrison_status(&g, &voyages, 2, H)
}

#[test]
fn flights_end_with_the_first_contact() {
    assert_eq!(fleet_eta(&route(2, 4, 5)), Some((2, 4)));
    assert_eq!(fleet_eta(&vec![leg(Some(1)), leg(Some(0))]), Some((1, 1)));
    let both = FleetMove { to: point(500.0, 0.0), contacts: vec![false, true, true], sun: true };
    assert_eq!(fleet_eta(&vec![leg(None), both]), Some((1, 2)));
    assert_eq!(fleet_eta(&vec![leg(None), leg(None)]), None);
    assert_eq!(fleet_eta(&vec![]), None);
    let sun = FleetMove { to: point(50.0, 20.0), contacts: vec![false; 3], sun: true };
    assert_eq!(fleet_eta(&vec![sun, leg(Some(1))]), None);
    let off = FleetMove { to: point(50.0, 100.5), contacts: vec![false; 3], sun: false };
    assert_eq!(fleet_eta(&vec![off, leg(Some(1))]), None);
}

#[test]
fn garrisons_grow_and_fall() {
    let s = status_of([10, 8, 30], &[(1, 25, 0, 3)]);
    assert_eq!((s.p, s.h, s.a), (3, 5, 2));
    let p = &s.planets[0].course;
    assert_eq!(p.ships, vec![10, 12, 14, 9, 11, 13]);
    assert_eq!(p.owner, vec![0, 0, 0, 1, 1, 1]);
    assert_eq!(p.pre_ships, vec![10, 12, 14, 16, 11, 13]);
    assert_eq!(p.pre_owner, vec![0, 0, 0, 0, 1, 1]);
    assert_eq!(s.planets[0].arrivals[3], vec![0, 25]);
    assert_eq!(s.planets[1].course.ships, vec![8, 9, 10, 11, 12, 13]);
    assert_eq!(s.planets[2].course.ships, vec![30; 6]);
    assert_eq!(s.planets[2].course.owner, vec![-1; 6]);
}

#[test]
fn a_tick_does_what_was_projected() {
    for inbound in [
        vec![],
        vec![(1, 25, 0, 1)],
        vec![(0, 25, 0, 1), (1, 5, 0, 1)],
        vec![(0, 9, 1, 1), (1, 3, 1, 1), (0, 40, 2, 1)],
        vec![(0, 7, 2, 1), (1, 7, 2, 1), (1, 12, 0, 1)],
    ] {
        let s = status_of([10, 8, 30], &inbound);
        let planets = vec![planet(0, 0, 12, 2), planet(1, 1, 9, 1), planet(2, -1, 30, 3)];
        let fleets = inbound.iter().enumerate().map(|(i, f)| fleet(i as i64, f.0, f.1)).collect();
        let mut g = game(planets, fleets);
        let paths = g
            .planets
            .iter()
            .map(|p| PlanetPath { from: Point { x: p.x, y: p.y }, to: Point { x: p.x, y: p.y }, check: true })
            .collect();
        let moves = inbound.iter().map(|f| leg(Some(f.2))).collect();
        resolve_tick(&mut g, &PlanetMotion { paths, expired: vec![] }, &moves, 2, 10, 500);
        for i in 0..3 {
            assert_eq!(g.planets[i].owner, s.planets[i].course.owner[1]);
            assert_eq!(g.planets[i].ships, s.planets[i].course.ships[1]);
        }
    }
}

#[test]
fn fleets_of_strangers_are_not_projected() {
    let s = status_of([10, 8, 30], &[(2, 25, 0, 3), (-1, 25, 0, 3)]);
    assert_eq!(s.planets[0].course.ships, vec![10, 12, 14, 16, 18, 20]);
}

#[test]
fn floors_are_enough_and_no_less_is() {
    let s = status_of([10, 8, 30], &[]);
    assert_eq!(capture_floor(&s, 2, 3, 0, 1), 31);
    assert_eq!(capture_floor(&s, 1, 4, 0, 1), 13);
    assert_eq!(capture_floor(&s, 1, 4, 0, 5), 17);
    assert_eq!(capture_floor(&s, 0, 4, 0, 1), 1);
    assert_eq!(capture_floor(&s, 1, 0, 0, 1), 0);
    assert_eq!(capture_floor(&s, 1, 6, 0, 1), 0);
    let taken = status_of([10, 8, 30], &[(0, 13, 1, 4)]);
    assert_eq!((taken.planets[1].course.owner[4], taken.planets[1].course.ships[4]), (0, 1));
    let held = status_of([10, 8, 30], &[(0, 12, 1, 4)]);
    assert_eq!((held.planets[1].course.owner[4], held.planets[1].course.ships[4]), (1, 0));
    // Ships that meet a rival at the same step do not take the planet.
    let met = status_of([10, 8, 10], &[(1, 5, 2, 2)]);
    assert_eq!(capture_floor(&met, 2, 2, 0, 1), 6);
    let both = status_of([10, 8, 10], &[(1, 5, 2, 2), (0, 6, 2, 2)]);
    assert_eq!(both.planets[2].course.owner[2], -1);
}

#[test]
fn what_can_leave_is_not_missed() {
    let s = status_of([10, 8, 30], &[(1, 12, 0, 2)]);
    assert_eq!(s.planets[0].course.ships, vec![10, 12, 2, 4, 6, 8]);
    assert_eq!(safe_drain_planet(&s, 0, 0, H), 2);
    assert_eq!(safe_drain_planet(&s, 0, 0, 1), 10);
    assert_eq!(safe_drain_planet(&s, 0, 0, 99), 2);
    assert_eq!(safe_drain_planet(&s, 1, 1, H), 8);
    assert_eq!(safe_drain_planet(&s, 2, 0, H), 30);
    // A planet that is held to the last ship can spare none.
    let bare = status_of([10, 8, 30], &[(1, 12, 0, 1)]);
    assert_eq!(bare.planets[0].course.ships, vec![10, 0, 2, 4, 6, 8]);
    assert!(bare.planets[0].course.owner.iter().all(|&o| o == 0));
    assert_eq!(safe_drain_planet(&bare, 0, 0, H), 0);
    // With as many ships fewer the planet is kept, with one less it is lost.
    let kept = status_of([8, 8, 30], &[(1, 12, 0, 2)]);
    assert!(kept.planets[0].course.owner.iter().all(|&o| o == 0));
    let lost = status_of([7, 8, 30], &[(1, 12, 0, 2)]);
    assert_eq!(lost.planets[0].course.owner[2], 1);
}

#[test]
fn drains_are_read_off_the_course() {
    let owner = vec![0, 0, 0];
    let ships = vec![5, 0, 3];
    let course =
        Trajectory { owner: owner.clone(), ships: ships.clone(), pre_owner: owner, pre_ships: ships };
    let alone = Projection { course, arrivals: vec![vec![0, 0]; 3], prod: 3, alive: vec![true; 3] };
    let s = GarrisonStatus { p: 1, h: 2, a: 2, planets: vec![alone] };
    assert_eq!(safe_drain_planet(&s, 0, 0, 2), 0);
    assert_eq!(safe_drain_planet(&s, 0, 1, 2), 5);
    assert_eq!((capture_floor(&s, 0, 2, 1, 1), capture_floor(&s, 0, 2, 0, 1)), (4, 1));
}

#[test]
fn launches_are_worth_what_they_change() {
    let s = status_of([10, 8, 30], &[]);
    assert_eq!(score_launch(&s, 0, 1, 10, 3, 0), Some(0));
    assert_eq!(score_launch(&s, 0, 1, 13, 3, 0), Some(4));
    assert_eq!(score_launch(&s, 0, 1, 0, 3, 0), None);
    assert_eq!(score_launch(&s, 0, 1, -5, 3, 0), None);
    assert_eq!(score_launch(&s, 0, 1, 13, 0, 0), None);
    assert_eq!(score_launch(&s, 0, 1, 13, 6, 0), None);
    // A neutral planet costs its garrison and makes three ships at each step.
    assert_eq!(score_launch(&s, 0, 2, 31, 1, 0), Some(12 - 30));
    let delta = score_launch_delta(&s, 0, 1, 13, 3, 0);
    assert_eq!(delta, vec![-9, -13, 10, 0, 0, 0, 10, 0, 0, 0, 0, 5, 0, 0, 2, 3, 11, 11]);
}

#[test]
fn launches_of_less_than_nothing() {
    // Ships that do not leave stay, and those that do not land are not there.
    let s = status_of([10, 8, 30], &[(0, 12, 1, 3), (1, 30, 0, 2)]);
    let delta = score_launch_delta(&s, 0, 1, -20, 3, 0);
    assert_eq!(delta[0..2], [-1, -9]);
    assert_eq!(delta[2..10], [4, 6, 14, 14, 10, 0, 30, 30]);
    assert_eq!(delta[10..14], [2, 3, 11, 11]);
    assert_eq!(delta[14..18], [0, 5, 0, 0]);
    assert_eq!(capture_floor(&s, 2, 3, 0, -7), 23);
    assert_eq!(capture_floor(&s, 2, 3, 0, -40), -10);
}

#[test]
fn ships_add_up() {
    let inbound: &[(i64, i64, usize, usize)] =
        &[(1, 25, 0, 3), (0, 9, 0, 3), (0, 40, 2, 1), (1, 3, 2, 4), (0, 14, 1, 2), (0, 2, 1, 5)];
    let s = status_of([10, 8, 30], inbound);
    for i in 0..3 {
        // A launch of nothing changes nothing, and shows what is made and lost.
        let flows = score_launch_delta(&s, i, i, 0, 1, 0);
        let (owner, ships) = (&s.planets[i].course.owner, &s.planets[i].course.ships);
        for q in 0..2 {
            let share = |k: usize| if owner[k] == q as i64 { ships[k] } else { 0 };
            let landed: i64 = inbound.iter().filter(|f| f.0 == q as i64 && f.2 == i).map(|f| f.1).sum();
            assert_eq!(share(H), share(0) + flows[2 + q] + landed - flows[4 + q]);
        }
    }
}

#[test]
fn launches_that_can_be_counted() {
    let s = status_of([10, 8, 30], &[]);
    assert!(launch_fits(&s, 1, SHIP_LIMIT - 13));
    assert!(!launch_fits(&s, 1, SHIP_LIMIT - 12));
    let t = status_of([10, 8, 30], &[(0, 7, 1, 2)]);
    assert!(launch_fits(&t, 1, SHIP_LIMIT - 20));
    assert!(!launch_fits(&t, 1, SHIP_LIMIT - 19));
}

#[test]
fn games_that_can_be_projected() {
    let one = |ships: i64, production: i64| game(vec![planet(0, 0, ships, production)], vec![]);
    let half = SHIP_LIMIT / 2;
    assert!(has_room_for(&one(half, 0), 10));
    assert!(!has_room_for(&one(half + 1, 0), 10));
    assert!(has_room_for(&one(half - 5, 1), 10));
    assert!(!has_room_for(&one(half - 5, 1), 11));
    let flying = |ships: i64| game(vec![planet(0, 0, 1, 0)], vec![fleet(0, 0, ships)]);
    assert!(has_room_for(&flying(SHIP_LIMIT - 2), 10));
    assert!(!has_room_for(&flying(SHIP_LIMIT - 1), 10));
    assert!(!has_room_for(&flying(i64::MAX), 10));
    assert!(has_room_for(&game(vec![], vec![fleet(0, 0, i64::MAX)]), 10));
    assert!(!has_room_for(&game(vec![], vec![fleet(0, 0, i64::MAX), fleet(1, 0, 1)]), 10));
}
