//! The game as players see it, and games side by side.

use ow_rs::agents::AgentKind;
use ow_rs::double::{Double, Point};
use ow_rs::env::Env;
use ow_rs::features::{
    canonicalize_state, comet_point_at, comet_velocity_at, find_comet, fleet_rows, global_counts,
    max_comet_path_len, place_rows, quarter_turns, standing, table, GlobalCounts, Heading, PlaceRow, Slot,
    Standing, Turned, F_MAX_C, F_MAX_F, F_MAX_P, M_PLACES,
};
use ow_rs::motion::{PlanetMotion, PlanetPath};
use ow_rs::state::{CometGroup, Config, Fleet, GameState, Move, Planet};
use ow_rs::tick::StepOutcome;
use ow_rs::vecenv::{
    fleet_base, global_base, keep_moves, place_moves, plan_obs, planet_base, PlaceOrder, PlanetFlags, VecEnv,
    F_FEAT, GLOBAL_EXTRA, MAX_FLEETS, MAX_PLANETS, OBS_DIM, P_FEAT,
};

fn double(x: f64) -> Double {
    Double { bits: x.to_bits() }
}

fn point(x: f64, y: f64) -> Point {
    Point { x: double(x), y: double(y) }
}

fn planet(id: i64, owner: i64, ships: i64, production: i64) -> Planet {
    let (x, y) = (double(10.0 * id as f64), double(20.0));
    Planet { id, owner, x, y, radius: double(2.0), ships, production }
}

fn fleet(id: i64, owner: i64, ships: i64) -> Fleet {
    Fleet { id, owner, x: double(1.0), y: double(2.0), angle: double(0.5), from_planet_id: 0, ships }
}

fn game(planets: Vec<Planet>, fleets: Vec<Fleet>) -> GameState {
    let initial_planets = planets.clone();
    let next_fleet_id = fleets.len() as i64;
    GameState {
        planets,
        fleets,
        next_fleet_id,
        comets: Vec::new(),
        comet_planet_ids: Vec::new(),
        initial_planets,
        angular_velocity: double(0.03),
    }
}

fn path(n: usize) -> Vec<Point> {
    (0..n).map(|k| point(k as f64, 7.0)).collect()
}

#[test]
fn tables_are_for_two_or_four() {
    assert_eq!(table(&game(vec![], vec![])), 2);
    assert_eq!(table(&game(vec![planet(0, 1, 1, 1)], vec![fleet(0, 0, 1)])), 2);
    assert_eq!(table(&game(vec![planet(0, 2, 1, 1)], vec![])), 4);
    assert_eq!(table(&game(vec![], vec![fleet(0, 3, 1)])), 4);
    let turns: Vec<i64> = (0..4).map(|p| quarter_turns(4, p)).collect();
    assert_eq!(turns, vec![0, 1, 3, 2]);
    assert_eq!((quarter_turns(2, 0), quarter_turns(2, 1)), (0, 2));
}

#[test]
fn the_player_becomes_the_first() {
    let mut g = game(
        vec![planet(0, 0, 1, 1), planet(1, 2, 2, 1), planet(2, -1, 3, 1), planet(3, 3, 4, 1)],
        vec![fleet(0, 1, 9)],
    );
    g.comets.push(CometGroup { planet_ids: vec![3], paths: vec![path(2)], path_index: 1 });
    let t = Turned {
        planets: (0..4).map(|i| point(i as f64, -1.0)).collect(),
        fleets: vec![Heading { at: point(8.0, 9.0), angle: double(0.25) }],
        comets: vec![vec![vec![point(5.0, 6.0)]]],
    };
    let seen = canonicalize_state(&g, 2, &t);
    assert_eq!(seen.planets.iter().map(|p| p.owner).collect::<Vec<_>>(), vec![2, 0, -1, 1]);
    assert_eq!(seen.planets.iter().map(|p| p.ships).collect::<Vec<_>>(), vec![1, 2, 3, 4]);
    assert_eq!((seen.planets[3].x, seen.planets[3].y), (double(3.0), double(-1.0)));
    let f = seen.fleets[0];
    assert_eq!((f.owner, f.x, f.y, f.angle), (3, double(8.0), double(9.0), double(0.25)));
    assert_eq!(seen.comets[0].paths, vec![vec![point(5.0, 6.0)]]);
    assert_eq!((seen.comets[0].path_index, &seen.comets[0].planet_ids), (1, &vec![3]));
    assert_eq!(seen.initial_planets, g.initial_planets);

    let same = canonicalize_state(&g, 0, &t);
    assert_eq!(same.planets, g.planets);
    assert_eq!(same.fleets, g.fleets);
}

#[test]
fn comets_are_found_on_their_paths() {
    let mut g = game(vec![planet(7, -1, 1, 1), planet(8, -1, 1, 1), planet(9, -1, 1, 1)], vec![]);
    g.comets.push(CometGroup { planet_ids: vec![7, 8, 5], paths: vec![path(0), path(6)], path_index: 2 });
    g.comets.push(CometGroup { planet_ids: vec![7], paths: vec![path(9)], path_index: 0 });
    assert_eq!(find_comet(&g, 8), Some((0, 1)));
    // A comet with an empty path, or with none, is looked for in the groups after it.
    assert_eq!(find_comet(&g, 7), Some((1, 0)));
    assert_eq!(find_comet(&g, 5), None);
    assert_eq!(find_comet(&g, 9), None);
    assert_eq!(max_comet_path_len(&vec![game(vec![], vec![]), g]), 9);
    assert_eq!(max_comet_path_len(&vec![]), 0);
}

#[test]
fn comets_wait_and_stay() {
    let at = |i: i64, h: i64| comet_point_at(5, i, h);
    assert_eq!([at(-1, 0), at(-1, 1), at(0, 3), at(2, 2), at(2, 9), at(4, 0)], [0, 0, 3, 4, 4, 4]);
    assert_eq!(comet_point_at(1, 0, 3), 0);
    let v = |n: usize, i: i64| comet_velocity_at(n, i);
    assert_eq!([v(5, -1), v(5, 0), v(5, 3), v(5, 4), v(2, 1), v(1, 0), v(0, 7)], [0, 0, 3, 3, 0, 0, 0]);
}

#[test]
fn planets_and_comets_have_places() {
    assert_eq!((F_MAX_P, F_MAX_C, M_PLACES), (40, 16, 56));
    let planets = (0..60).map(|i| planet(i, [0, 1, -1][i as usize % 3], 1, 1)).collect();
    let mut g = game(planets, vec![]);
    g.comet_planet_ids = (1..18).collect();
    g.comets.push(CometGroup { planet_ids: vec![19], paths: vec![path(3)], path_index: 0 });
    let rows = place_rows(&g, 0);
    assert_eq!(rows.len(), 60);
    let row = |slot: Slot, place: Option<usize>, standing: Standing| PlaceRow { slot, place, comet: None, standing };
    assert_eq!(rows[0], row(Slot::Planet(0), Some(0), Standing::Mine));
    assert_eq!(rows[1], row(Slot::Comet(0), Some(40), Standing::Enemy));
    assert_eq!(rows[16], row(Slot::Comet(15), Some(55), Standing::Enemy));
    assert_eq!(rows[17], row(Slot::Full, None, Standing::Neutral));
    assert_eq!(rows[18], row(Slot::Planet(1), Some(1), Standing::Mine));
    assert_eq!(rows[19].comet, Some((0, 0)));
    assert_eq!(rows[19].slot, Slot::Full);
    // Planets past the last slot are still described, at the place of the first comet.
    assert_eq!(rows[57].slot, Slot::Planet(39));
    assert_eq!((rows[58].slot, rows[58].place), (Slot::Full, Some(40)));

    let mut taken: Vec<usize> = rows.iter().filter(|r| r.slot != Slot::Full).map(|r| r.place.unwrap()).collect();
    taken.sort();
    assert_eq!(taken, (0..56).collect::<Vec<_>>());
}

#[test]
fn fleets_are_seen_up_to_a_limit() {
    assert_eq!(standing(1, 1), Standing::Mine);
    assert_eq!(standing(-1, 1), Standing::Neutral);
    assert_eq!((standing(0, 1), standing(-2, 1)), (Standing::Enemy, Standing::Enemy));
    let g = game(vec![], (0..300).map(|i| fleet(i, i % 2, 1)).collect());
    let seen = fleet_rows(&g, 1);
    assert_eq!(seen.len(), F_MAX_F);
    assert_eq!((seen[0], seen[1]), (Standing::Enemy, Standing::Mine));
}

#[test]
fn the_game_is_counted() {
    let g = game(
        vec![planet(0, 0, 10, 2), planet(1, 1, 8, 1), planet(2, -1, 30, 5), planet(3, 3, 4, 4), planet(4, 0, 1, 3)],
        vec![fleet(0, 1, 7), fleet(1, 0, 2), fleet(2, 3, 5)],
    );
    let counts = GlobalCounts { players: 4, mine: 13, max_opp: 15, countdown: 40, mine_prod: 5, enemy_prod: 5 };
    assert_eq!(global_counts(&g, 0, 10), counts);
    let other = GlobalCounts { players: 4, mine: 0, max_opp: 15, countdown: 50, mine_prod: 0, enemy_prod: 10 };
    assert_eq!(global_counts(&g, 2, 451), other);
    let left = |s: i64| global_counts(&g, 0, s).countdown;
    assert_eq!([left(49), left(50), left(51), left(150), left(151)], [1, 0, 99, 0, 99]);
    assert_eq!([left(250), left(251), left(350), left(351), left(450), left(500)], [0, 99, 0, 99, 0, 50]);
}

#[test]
fn an_episode_is_stepped_and_reset() {
    let cfg = Config { episode_steps: 4, ..Config::default() };
    let mut e = Env::new(cfg);
    assert_eq!((e.step_index(), e.done(), e.num_agents(), e.seed), (0, false, 2, 0));
    assert!(e.state.planets.is_empty());
    e.reset(9, 2, game(vec![planet(0, 0, 10, 1), planet(1, 1, 8, 1)], vec![]));
    let still = || {
        let at = |x: f64| PlanetPath { from: point(x, 1.0), to: point(x, 1.0), check: true };
        PlanetMotion { paths: vec![at(1.0), at(2.0)], expired: vec![] }
    };
    for step in 0..2 {
        let out = e.finish_step(&still(), &vec![], 2);
        assert!(!out.terminated && out.rewards.is_none());
        assert_eq!((e.step_index(), e.done()), (step + 1, false));
    }
    let out = e.finish_step(&still(), &vec![], 2);
    assert_eq!(out.rewards, Some(vec![1, -1]));
    assert!(e.done() && e.step_index() == 3);
    e.reset(10, 4, game(vec![], vec![]));
    assert_eq!((e.step_index(), e.done(), e.num_agents(), e.seed), (0, false, 4, 10));
    assert_eq!(e.cfg.episode_steps, 4);
}

#[test]
fn observations_have_room() {
    assert_eq!((MAX_PLANETS, P_FEAT, MAX_FLEETS, F_FEAT, GLOBAL_EXTRA), (48, 10, 128, 7, 2));
    assert_eq!((planet_base(0), planet_base(47)), (0, 470));
    assert_eq!((fleet_base(0), fleet_base(127)), (480, 480 + 889));
    assert_eq!((global_base(), OBS_DIM), (1376, 1378));
    let mut g = game(
        (0..50).map(|i| planet(i, i % 3 - 1, 1, 1)).collect(),
        (0..130).map(|i| fleet(i, i % 2, 1)).collect(),
    );
    g.comet_planet_ids.push(2);
    let plan = plan_obs(&g, 1);
    assert_eq!((plan.planets.len(), plan.fleets.len()), (48, 128));
    assert_eq!(plan.planets[0], PlanetFlags { standing: Standing::Neutral, comet: false });
    assert_eq!(plan.planets[1], PlanetFlags { standing: Standing::Enemy, comet: false });
    assert_eq!(plan.planets[2], PlanetFlags { standing: Standing::Mine, comet: true });
    assert_eq!(plan.fleets[..3], [false, true, false]);
}

#[test]
fn orders_by_place() {
    let planets = vec![planet(7, 0, 9, 1), planet(9, 0, 9, 1)];
    let row = |place: usize, ships: i64| PlaceOrder { place, angle: double(0.5), ships };
    let sent = |from_id: i64, ships: i64| Move { from_id, angle: double(0.5), ships };
    let rows = vec![row(1, 3), row(0, 0), row(2, 4), row(0, -1), row(0, 5)];
    assert_eq!(place_moves(&planets, &rows), vec![sent(9, 3), sent(7, 5)]);
    assert_eq!(keep_moves(&vec![sent(3, 0), sent(4, 1), sent(5, -2)]), vec![sent(4, 1)]);
}

fn outcome(rewards: Option<Vec<i64>>) -> StepOutcome {
    StepOutcome { terminated: rewards.is_some(), rewards }
}

#[test]
fn games_are_booked_and_restarted() {
    let mut v = VecEnv::new(3, 2, Config::default());
    assert_eq!((v.num_envs(), v.num_agents(), v.obs_dim()), (3, 2, 1378));
    assert_eq!(v.opponent(2, 0), None);
    v.set_opponents(&vec![0, 4, 7]);
    assert_eq!(v.opponent(0, 0), Some(AgentKind::Hold));
    assert_eq!(v.opponent(1, 0), Some(AgentKind::ProducerLite));
    assert_eq!(v.opponent(2, 0), Some(AgentKind::Hold));

    v.reset(vec![5, 90, 7], vec![game(vec![], vec![]), game(vec![], vec![]), game(vec![], vec![])]);
    assert_eq!(v.next_seed, 91);
    let outs = vec![outcome(Some(vec![1, -1])), outcome(None), outcome(Some(vec![-1]))];
    let (rewards, term) = v.book(&outs);
    assert_eq!(rewards, vec![1, -1, 0, 0, -1, 0]);
    assert_eq!(term, vec![true, false, true]);
    assert_eq!(v.cur_step, vec![1, 1, 1]);

    let fresh = v.claim_seeds(&term);
    assert_eq!(fresh, vec![(0, 91), (2, 92)]);
    assert_eq!((v.seeds.clone(), v.next_seed), (vec![91, 90, 92], 93));
    assert_eq!(v.cur_step, vec![0, 1, 0]);
    v.put(2, game(vec![planet(0, 0, 1, 1)], vec![]));
    assert_eq!(v.envs[2].planets.len(), 1);
    assert!(v.envs[0].planets.is_empty());
    // Seeds that were claimed are not claimed again.
    assert_eq!(v.claim_seeds(&vec![true, true, true]), vec![(0, 93), (1, 94), (2, 95)]);
}

#[test]
fn a_tick_ends_for_all_games_at_once() {
    let mut v = VecEnv::new(3, 2, Config::default());
    v.reset(vec![5, 90, 7], vec![game(vec![], vec![]), game(vec![], vec![]), game(vec![], vec![])]);
    let on = || vec![outcome(None), outcome(None), outcome(None)];
    let (rewards, term, fresh) = v.end_tick(&on());
    assert_eq!((rewards, term), (vec![0; 6], vec![false; 3]));
    assert!(fresh.is_empty());
    assert_eq!((v.cur_step.clone(), v.next_seed), (vec![1, 1, 1], 91));
    let outs = vec![outcome(Some(vec![1, -1])), outcome(None), outcome(Some(vec![-1, 1]))];
    let (rewards, term, fresh) = v.end_tick(&outs);
    assert_eq!(rewards, vec![1, -1, 0, 0, -1, 1]);
    assert_eq!(term, vec![true, false, true]);
    assert_eq!(fresh, vec![(0, 91), (2, 92)]);
    assert_eq!(v.cur_step, vec![0, 2, 0]);
    // Over the ticks seeds follow one another past the greatest of the first ones.
    let outs = vec![outcome(None), outcome(Some(vec![1, -1])), outcome(Some(vec![1, 1]))];
    assert_eq!(v.end_tick(&outs).2, vec![(1, 93), (2, 94)]);
    assert_eq!((v.seeds.clone(), v.next_seed), (vec![91, 93, 94], 95));
    assert_eq!(v.cur_step, vec![1, 0, 0]);
}

#[test]
fn the_last_seeds_can_be_claimed() {
    let mut v = VecEnv::new(2, 1, Config::default());
    v.reset(vec![u64::MAX - 2, 0], vec![game(vec![], vec![]), game(vec![], vec![])]);
    assert_eq!(v.next_seed, u64::MAX - 1);
    assert_eq!(v.claim_seeds(&vec![false, true]), vec![(1, u64::MAX - 1)]);
    assert_eq!(v.next_seed, u64::MAX);
}

#[test]
fn seeds_start_from_one_where_there_are_none() {
    let mut v = VecEnv::new(0, 2, Config::default());
    v.reset(vec![], vec![]);
    assert_eq!(v.next_seed, 1);
}

#[test]
fn opponents_of_several_slots() {
    let mut v = VecEnv::new(2, 4, Config::default());
    v.set_opponents(&vec![4, 0, 4, 0, 4, 0]);
    let kinds: Vec<i32> = (0..2).flat_map(|e| (0..3).map(move |s| (e, s))).map(|(e, s)| {
        v.opponent(e, s).unwrap().to_i32()
    }).collect();
    assert_eq!(kinds, vec![4, 0, 4, 0, 4, 0]);
}
