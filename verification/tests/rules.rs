//! The rules of a tick on small games: comets, launches, production, flights,
//! battles, the end of the game, and what a tick keeps.

use ow_rs::combat::{resolve, Arrival};
use ow_rs::double::{Double, Point};
use ow_rs::engine::{expire_comets, is_spawn_tick, launch_fleets, produce, spawn_comets, Order};
use ow_rs::game::{advance, is_ready, is_solvent, is_spawn_ready, is_valid, open_tick};
use ow_rs::motion::{plan_planets, PlanetMotion, PlanetPath};
use ow_rs::state::{
    copy_state, find_planet, has_id, CometGroup, Config, Fleet, GameState, Planet, SpawnInjection,
};
use ow_rs::tick::{resolve_tick, FleetMove, StepOutcome};

fn double(x: f64) -> Double {
    Double { bits: x.to_bits() }
}

fn point(x: f64, y: f64) -> Point {
    Point { x: double(x), y: double(y) }
}

fn planet(id: i64, owner: i64, ships: i64, production: i64) -> Planet {
    let (x, y) = (double(10.0 * id as f64), double(20.0));
    Planet { id, owner, x, y, radius: double(2.0), ships, production }
}

fn fleet(id: i64, owner: i64, ships: i64) -> Fleet {
    Fleet { id, owner, x: double(1.0), y: double(2.0), angle: double(0.5), from_planet_id: 0, ships }
}

fn game(planets: Vec<Planet>, fleets: Vec<Fleet>) -> GameState {
    let initial_planets = planets.clone();
    let next_fleet_id = fleets.len() as i64;
    GameState {
        planets,
        fleets,
        next_fleet_id,
        comets: Vec::new(),
        comet_planet_ids: Vec::new(),
        initial_planets,
        angular_velocity: double(0.03),
    }
}

fn order(from_id: i64, ships: i64) -> Order {
    Order { from_id, angle: double(1.25), ships, start: point(3.0, 4.0) }
}

fn path(n: usize) -> Vec<Point> {
    (0..n).map(|k| point(k as f64, 7.0)).collect()
}

fn ships_in_play(g: &GameState) -> i64 {
    g.planets.iter().map(|p| p.ships).sum::<i64>() + g.fleets.iter().map(|f| f.ships).sum::<i64>()
}

fn here(g: &GameState) -> PlanetMotion {
    let paths = g
        .planets
        .iter()
        .map(|p| {
            let at = Point { x: p.x, y: p.y };
            PlanetPath { from: at, to: at, check: true }
        })
        .collect();
    PlanetMotion { paths, expired: Vec::new() }
}

fn flight(g: &GameState, to: Point, hit: Option<usize>, sun: bool) -> FleetMove {
    let contacts = (0..g.planets.len()).map(|i| Some(i) == hit).collect();
    FleetMove { to, contacts, sun }
}

fn settle(g: &mut GameState, moves: Vec<FleetMove>) -> StepOutcome {
    let motion = here(g);
    resolve_tick(g, &motion, &moves, 2, 10, 500)
}

#[test]
fn settings_of_a_game() {
    let cfg = Config::default();
    assert_eq!(cfg.ship_speed, double(6.0));
    assert_eq!(cfg.episode_steps, 500);
    assert_eq!(cfg.comet_speed, double(4.0));
}

#[test]
fn planets_are_found_by_their_first_id() {
    let planets = vec![planet(4, 0, 1, 1), planet(7, 1, 2, 1), planet(7, 0, 3, 1)];
    assert_eq!(find_planet(&planets, 7), Some(1));
    assert_eq!(find_planet(&planets, 4), Some(0));
    assert_eq!(find_planet(&planets, 5), None);
    assert!(has_id(&vec![3, 9], 9) && !has_id(&vec![3, 9], 4) && !has_id(&Vec::new(), 0));
}

#[test]
fn comets_spawn_before_five_steps() {
    let due: Vec<i64> = (-10..600).filter(|&s| is_spawn_tick(s)).collect();
    assert_eq!(due, vec![49, 149, 249, 349, 449]);
}

fn arrivals(list: &[(i64, i64)]) -> Vec<Arrival> {
    list.iter().map(|&(owner, ships)| Arrival { owner, ships }).collect()
}

#[test]
fn the_strongest_side_survives_by_its_lead() {
    let winner = |list: &[(i64, i64)]| resolve(&arrivals(list)).map(|a| (a.owner, a.ships));
    assert_eq!(winner(&[]), None);
    assert_eq!(winner(&[(1, 5)]), Some((1, 5)));
    assert_eq!(winner(&[(1, 0)]), None);
    assert_eq!(winner(&[(0, 5), (1, 5)]), None);
    assert_eq!(winner(&[(0, 5), (1, 7)]), Some((1, 2)));
    assert_eq!(winner(&[(0, 3), (1, 7), (0, 3)]), Some((1, 1)));
    assert_eq!(winner(&[(0, 3), (1, 4), (0, 3), (2, 5)]), Some((0, 1)));
    assert_eq!(winner(&[(0, 4), (1, 4), (2, 1)]), None);
    assert_eq!(winner(&[(3, 9), (1, 4), (2, 8)]), Some((3, 1)));
}

#[test]
fn orders_move_ships_and_others_change_nothing() {
    let start = game(vec![planet(0, 0, 10, 2), planet(1, 1, 8, 1), planet(2, -1, 30, 3)], vec![]);
    let mut g = copy_state(&start);
    let player0 = vec![order(0, 4), order(1, 1), order(2, 1), order(9, 1), order(0, 7), order(0, 0), order(0, -1)];
    launch_fleets(&mut g, &vec![player0, vec![order(1, 8), order(1, 1)]]);
    assert_eq!(ships_in_play(&g), ships_in_play(&start));
    assert_eq!(g.planets.iter().map(|p| p.ships).collect::<Vec<_>>(), vec![6, 0, 30]);
    assert_eq!(g.next_fleet_id, 2);
    let sent = |id: i64, owner: i64, from_planet_id: i64, ships: i64| Fleet {
        id,
        owner,
        x: double(3.0),
        y: double(4.0),
        angle: double(1.25),
        from_planet_id,
        ships,
    };
    assert_eq!(g.fleets, vec![sent(0, 0, 0, 4), sent(1, 1, 1, 8)]);

    let mut same = copy_state(&start);
    launch_fleets(&mut same, &vec![vec![order(0, 11), order(1, 3)], vec![order(0, 1)]]);
    assert_eq!(same.planets, start.planets);
    assert!(same.fleets.is_empty() && same.next_fleet_id == 0);
}

#[test]
fn affordable_orders_are_all_carried_out() {
    let mut g = game(vec![planet(0, 0, 10, 2), planet(1, 0, 8, 1)], vec![]);
    let orders = vec![order(0, 3), order(1, 8), order(0, 7)];
    launch_fleets(&mut g, &vec![orders]);
    assert_eq!(g.fleets.len(), 3);
    assert!(g.planets.iter().all(|p| p.ships == 0));
}

#[test]
fn orders_without_ships_send_no_fleet() {
    let mut g = game(vec![planet(0, 0, 10, 2), planet(1, 0, 8, 1)], vec![]);
    let orders = vec![order(0, 3), order(1, 0), order(0, 7)];
    launch_fleets(&mut g, &vec![orders]);
    assert_eq!((g.fleets.len(), g.next_fleet_id), (2, 2));
    assert_eq!((g.planets[0].ships, g.planets[1].ships), (0, 8));
}

#[test]
fn held_planets_produce() {
    let mut g = game(vec![planet(0, 0, 10, 2), planet(1, -1, 8, 5), planet(2, 3, 0, 4)], vec![]);
    produce(&mut g);
    assert_eq!(g.planets.iter().map(|p| p.ships).collect::<Vec<_>>(), vec![12, 8, 4]);
}

fn with_comets(paths: Vec<Vec<Point>>, ships: i64) -> GameState {
    let mut g = game(vec![planet(0, 0, 10, 2), planet(5, 1, 8, 1)], vec![]);
    spawn_comets(&mut g, SpawnInjection { ships, paths });
    g
}

#[test]
fn comets_follow_the_greatest_id() {
    let g = with_comets(vec![path(5), path(6)], 12);
    assert_eq!(g.planets.iter().map(|p| p.id).collect::<Vec<_>>(), vec![0, 5, 6, 7]);
    assert_eq!(g.comet_planet_ids, vec![6, 7]);
    assert_eq!(g.comets.len(), 1);
    assert_eq!(g.comets[0].planet_ids, vec![6, 7]);
    assert_eq!(g.comets[0].path_index, -1);
    let comet = Planet {
        id: 6,
        owner: -1,
        x: double(-99.0),
        y: double(-99.0),
        radius: double(1.0),
        ships: 12,
        production: 1,
    };
    assert_eq!(g.planets[2], comet);
    assert_eq!(g.initial_planets[2], comet);
    assert!(is_valid(&g));
}

#[test]
fn comets_move_along_their_paths_and_leave() {
    let mut g = with_comets(vec![path(1), path(3)], 12);
    let drift = |g: &GameState| g.planets.iter().map(|_| point(42.0, 43.0)).collect::<Vec<_>>();

    // The first step brings both comets onto the board; nothing can hit them.
    let ends = drift(&g);
    let m = plan_planets(&mut g, &ends);
    assert_eq!(g.comets[0].path_index, 0);
    assert!(m.expired.is_empty());
    assert_eq!(m.paths[0].to, point(42.0, 43.0));
    assert_eq!(m.paths[2], PlanetPath { from: point(-99.0, -99.0), to: point(0.0, 7.0), check: false });
    let out = resolve_tick(&mut g, &m, &vec![], 2, 60, 500);
    assert!(!out.terminated);
    assert_eq!((g.planets[2].x, g.planets[2].y), (double(0.0), double(7.0)));
    assert_eq!((g.planets[0].x, g.planets[0].y), (double(42.0), double(43.0)));

    // The second step leads past the end of the shorter path.
    let ends = drift(&g);
    let m = plan_planets(&mut g, &ends);
    assert_eq!(m.expired, vec![6]);
    assert_eq!(m.paths[2], PlanetPath { from: point(0.0, 7.0), to: point(0.0, 7.0), check: true });
    assert_eq!(m.paths[3], PlanetPath { from: point(0.0, 7.0), to: point(1.0, 7.0), check: true });
    resolve_tick(&mut g, &m, &vec![], 2, 61, 500);
    assert_eq!(g.planets.iter().map(|p| p.id).collect::<Vec<_>>(), vec![0, 5, 7]);
    assert_eq!(g.initial_planets.iter().map(|p| p.id).collect::<Vec<_>>(), vec![0, 5, 7]);
    assert_eq!(g.comet_planet_ids, vec![7]);
    assert_eq!(g.comets[0].planet_ids, vec![7]);
    assert_eq!(g.comets[0].paths.len(), 2);
    assert!(is_valid(&g));
}

#[test]
fn comets_at_the_end_of_their_path_expire() {
    let mut g = with_comets(vec![path(2), path(2)], 3);
    g.comets[0].path_index = 1;
    expire_comets(&mut g);
    assert_eq!(g.planets.len(), 4);
    g.comets[0].path_index = 2;
    expire_comets(&mut g);
    assert_eq!(g.planets.len(), 2);
    assert!(g.comets.is_empty() && g.comet_planet_ids.is_empty());
    assert_eq!(g.initial_planets.len(), 2);
}

#[test]
fn a_comet_of_a_shrunk_group_goes_by_the_first_paths() {
    // Paths are not taken out with their comets, so the comet that is left goes
    // by the first path of its group.
    let mut g = with_comets(vec![path(1), path(9)], 3);
    g.comets[0].path_index = 1;
    expire_comets(&mut g);
    assert_eq!(g.comets[0].planet_ids, vec![7]);
    expire_comets(&mut g);
    assert!(g.comets.is_empty());
}

#[test]
fn a_tick_opens_with_comets_where_it_is_time() {
    let spawn = || Some(SpawnInjection { ships: 5, paths: vec![path(6)] });
    let mut g = game(vec![planet(0, 0, 10, 2)], vec![]);
    assert!(is_spawn_ready(&g, 48, &spawn()));
    open_tick(&mut g, 48, spawn());
    assert_eq!(g.planets.len(), 1);
    assert!(is_spawn_ready(&g, 49, &spawn()));
    open_tick(&mut g, 49, spawn());
    assert_eq!(g.planets.len(), 2);
    open_tick(&mut g, 149, None);
    assert_eq!(g.planets.len(), 2);

    assert!(!is_spawn_ready(&g, 49, &Some(SpawnInjection { ships: -1, paths: vec![path(6)] })));
    let empty = game(vec![], vec![]);
    assert!(!is_spawn_ready(&empty, 49, &spawn()) && is_spawn_ready(&empty, 50, &spawn()));
    assert!(is_spawn_ready(&empty, 49, &None));
    let full = game(vec![planet(i64::MAX, 0, 1, 1)], vec![]);
    assert!(!is_spawn_ready(&full, 49, &spawn()));
    assert!(is_spawn_ready(&full, 49, &Some(SpawnInjection { ships: 5, paths: vec![] })));
}

#[test]
fn a_tick_launches_before_planets_produce() {
    let mut g = game(vec![planet(0, 0, 10, 2), planet(1, 1, 8, 1)], vec![]);
    let ends = vec![point(1.0, 1.0), point(2.0, 2.0)];
    let m = advance(&mut g, &vec![vec![order(0, 10)], vec![order(1, 9)]], &ends);
    assert_eq!(g.planets.iter().map(|p| p.ships).collect::<Vec<_>>(), vec![2, 9]);
    assert_eq!(g.fleets.len(), 1);
    assert_eq!(m.paths[1].to, point(2.0, 2.0));
}

#[test]
fn fleets_land_fly_on_or_are_lost() {
    let mut g = game(
        vec![planet(0, 0, 10, 2), planet(1, 1, 8, 1)],
        vec![fleet(0, 0, 3), fleet(1, 1, 4), fleet(2, 0, 5), fleet(3, 1, 6)],
    );
    let moves = vec![
        flight(&g, point(50.0, 20.0), None, false),
        flight(&g, point(50.0, 120.0), None, false),
        flight(&g, point(50.0, 20.0), None, true),
        flight(&g, point(500.0, 500.0), Some(0), true),
    ];
    settle(&mut g, moves);
    assert_eq!(g.fleets.len(), 1);
    assert_eq!((g.fleets[0].id, g.fleets[0].x), (0, double(50.0)));
    assert_eq!(g.planets[0].ships, 4);
}

#[test]
fn a_fleet_lands_on_the_first_planet_that_can_be_hit() {
    let mut g = game(vec![planet(0, 0, 10, 2), planet(1, 1, 8, 1)], vec![fleet(0, 0, 3)]);
    let mut motion = here(&g);
    motion.paths[0].check = false;
    let both = FleetMove { to: point(5.0, 5.0), contacts: vec![true, true], sun: false };
    resolve_tick(&mut g, &motion, &vec![both], 2, 10, 500);
    assert_eq!(g.planets.iter().map(|p| p.ships).collect::<Vec<_>>(), vec![10, 5]);

    let mut g = game(vec![planet(0, 0, 10, 2), planet(1, 1, 8, 1)], vec![fleet(0, 0, 3)]);
    let both = FleetMove { to: point(5.0, 5.0), contacts: vec![true, true], sun: false };
    settle(&mut g, vec![both]);
    assert_eq!(g.planets.iter().map(|p| p.ships).collect::<Vec<_>>(), vec![13, 8]);
}

fn battle(owner: i64, ships: i64, landing: &[(i64, i64)]) -> (i64, i64) {
    let fleets = landing.iter().enumerate().map(|(i, &(o, s))| fleet(i as i64, o, s)).collect();
    let mut g = game(vec![planet(0, owner, ships, 1), planet(1, 0, 5, 1), planet(2, 1, 5, 1)], fleets);
    let before = ships_in_play(&g);
    let moves = landing.iter().map(|_| flight(&g, point(1.0, 1.0), Some(0), false)).collect();
    settle(&mut g, moves);
    assert!(g.fleets.is_empty() && ships_in_play(&g) <= before);
    (g.planets[0].owner, g.planets[0].ships)
}

#[test]
fn battles_over_a_planet() {
    assert_eq!(battle(0, 10, &[(0, 4)]), (0, 14));
    assert_eq!(battle(0, 10, &[(1, 4)]), (0, 6));
    assert_eq!(battle(0, 10, &[(1, 10)]), (0, 0));
    assert_eq!(battle(0, 10, &[(1, 11)]), (1, 1));
    assert_eq!(battle(-1, 10, &[(1, 25)]), (1, 15));
    assert_eq!(battle(0, 10, &[(1, 20), (2, 20)]), (0, 10));
    assert_eq!(battle(0, 10, &[(1, 20), (2, 5)]), (1, 5));
    assert_eq!(battle(0, 10, &[(0, 20), (1, 5)]), (0, 25));
    assert_eq!(battle(1, 0, &[(0, 0)]), (1, 0));
}

#[test]
fn battles_over_comets_that_leave_are_not_fought() {
    let mut g = with_comets(vec![path(1)], 9);
    g.planets[2].owner = 1;
    g.fleets.push(fleet(0, 0, 50));
    g.next_fleet_id = 1;
    let mut motion = here(&g);
    motion.expired.push(6);
    let moves = vec![flight(&g, point(1.0, 1.0), Some(2), false)];
    resolve_tick(&mut g, &motion, &moves, 2, 10, 500);
    assert_eq!(g.planets.len(), 2);
    assert!(g.fleets.is_empty());
    assert!(is_valid(&g));
}

fn ending(planets: Vec<Planet>, fleets: Vec<Fleet>, n: usize, step: i64) -> Option<Vec<i64>> {
    let mut g = game(planets, fleets);
    let motion = here(&g);
    let moves = g.fleets.iter().map(|_| flight(&g, point(50.0, 20.0), None, false)).collect();
    let out = resolve_tick(&mut g, &motion, &moves, n, step, 500);
    assert_eq!(out.terminated, out.rewards.is_some());
    out.rewards
}

#[test]
fn the_game_ends_with_its_steps_or_with_one_player() {
    let two = || vec![planet(0, 0, 10, 1), planet(1, 1, 8, 1)];
    assert_eq!(ending(two(), vec![], 2, 497), None);
    assert_eq!(ending(two(), vec![], 2, 498), Some(vec![1, -1]));
    assert_eq!(ending(vec![planet(0, 0, 10, 1)], vec![], 2, 3), Some(vec![1, -1]));
    assert_eq!(ending(vec![planet(0, 0, 10, 1)], vec![fleet(0, 1, 1)], 2, 3), None);
    assert_eq!(ending(vec![planet(0, -1, 10, 1)], vec![], 2, 3), Some(vec![-1, -1]));
    assert_eq!(ending(vec![], vec![], 4, 3), Some(vec![-1, -1, -1, -1]));
}

#[test]
fn the_most_ships_win_and_equals_share() {
    let four = |a: i64, b: i64, c: i64| vec![planet(0, 0, a, 1), planet(1, 1, b, 1), planet(2, 2, c, 1)];
    assert_eq!(ending(four(5, 5, 1), vec![], 4, 498), Some(vec![1, 1, -1, -1]));
    assert_eq!(ending(four(5, 5, 1), vec![fleet(0, 2, 9)], 4, 498), Some(vec![-1, -1, 1, -1]));
    assert_eq!(ending(four(0, 0, 0), vec![], 3, 498), Some(vec![-1, -1, -1]));
    // Players past the last one that is rewarded do not count.
    assert_eq!(ending(four(3, 2, 9), vec![], 2, 498), Some(vec![1, -1]));
}

#[test]
fn states_that_are_not_valid() {
    let good = || game(vec![planet(0, 0, 10, 1), planet(1, 1, 8, 1)], vec![fleet(0, 1, 3)]);
    assert!(is_valid(&good()));
    let mut g = good();
    g.initial_planets.pop();
    assert!(!is_valid(&g));
    let mut g = good();
    g.initial_planets[1].id = 9;
    assert!(!is_valid(&g));
    let mut g = good();
    g.planets[0].ships = -1;
    assert!(!is_valid(&g));
    let mut g = good();
    g.planets[0].production = -1;
    assert!(!is_valid(&g));
    let mut g = good();
    g.fleets[0].ships = -1;
    assert!(!is_valid(&g));
    let mut g = good();
    g.comets.push(CometGroup { planet_ids: vec![1], paths: vec![], path_index: 0 });
    assert!(!is_valid(&g));
    let mut g = good();
    g.comets.push(CometGroup { planet_ids: vec![1], paths: vec![path(1)], path_index: -2 });
    assert!(!is_valid(&g));
}

#[test]
fn states_in_which_ships_are_owed() {
    let good = || game(vec![planet(0, 0, 10, 1), planet(1, 1, 0, 0)], vec![fleet(0, 1, 0)]);
    assert!(is_solvent(&good()));
    let mut g = good();
    g.planets[1].ships = -1;
    assert!(!is_solvent(&g));
    let mut g = good();
    g.planets[0].production = -1;
    assert!(!is_solvent(&g));
    let mut g = good();
    g.fleets[0].ships = -1;
    assert!(!is_solvent(&g));
    // Neither the initial copies nor the comets matter.
    let mut g = good();
    g.initial_planets.clear();
    g.comets.push(CometGroup { planet_ids: vec![1], paths: vec![], path_index: -2 });
    assert!(is_solvent(&g) && !is_valid(&g));
    assert!(is_ready(&g));
}

#[test]
fn ships_that_cannot_be_counted_stop_the_game() {
    let top = i64::MAX;
    let ready = |planets: Vec<Planet>, fleets: Vec<Fleet>| is_ready(&game(planets, fleets));
    assert!(ready(vec![planet(0, 0, top - 5, 3)], vec![fleet(0, 0, 2)]));
    assert!(!ready(vec![planet(0, 0, top - 5, 3)], vec![fleet(0, 0, 3)]));
    assert!(ready(vec![planet(0, -1, top, 3)], vec![]));
    assert!(!ready(vec![planet(0, 0, top, 3)], vec![]));
    assert!(!ready(vec![planet(0, 0, top, 0), planet(1, 0, 1, 0)], vec![]));
    let mut g = game(vec![planet(0, 0, 1, 1)], vec![]);
    g.comets.push(CometGroup { planet_ids: vec![], paths: vec![], path_index: top });
    assert!(!is_ready(&g));
}

#[test]
fn a_tick_adds_what_is_made_and_no_more() {
    let mut g = game(
        vec![planet(0, 0, 10, 2), planet(1, 1, 8, 1), planet(2, -1, 30, 3)],
        vec![fleet(0, 0, 3), fleet(1, 1, 4)],
    );
    let before = ships_in_play(&g);
    open_tick(&mut g, 49, Some(SpawnInjection { ships: 5, paths: vec![path(6), path(6)] }));
    let ends = g.planets.iter().map(|p| Point { x: p.x, y: p.y }).collect();
    let motion = advance(&mut g, &vec![vec![order(0, 4)], vec![order(1, 2)]], &ends);
    assert_eq!(ships_in_play(&g), before + 3 + 10);
    let moves = vec![
        flight(&g, point(1.0, 1.0), Some(1), false),
        flight(&g, point(1.0, 1.0), Some(2), false),
        flight(&g, point(1.0, 1.0), None, false),
        flight(&g, point(-1.0, 1.0), None, false),
    ];
    resolve_tick(&mut g, &motion, &moves, 2, 49, 500);
    assert!(is_valid(&g));
    // Three ships fight three, four fight four, and two are lost off the board.
    assert_eq!(ships_in_play(&g), before + 13 - 6 - 8 - 2);
    let mut ids: Vec<i64> = g.planets.iter().map(|p| p.id).collect();
    ids.dedup();
    assert_eq!(ids, vec![0, 1, 2, 3, 4]);
    assert!(g.fleets.iter().all(|f| f.id < g.next_fleet_id));
    assert_eq!(g.comet_planet_ids, g.comets[0].planet_ids);
}
