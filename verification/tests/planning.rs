//! The planner, call by call: its settings, its lists, its choices.

use ow_rs::agents::{AgentKind, BuiltIn, HoldAgent};
use ow_rs::double::{Double, Point};
use ow_rs::flow::{GarrisonStatus, HORIZON};
use ow_rs::garrison::{build_garrison_status, has_room_for};
use ow_rs::planner::{
    all_targets, defensive_targets, launch_requests, offensive_targets, owned, player_count, ranked_sources,
    ready_sources, select_waves, weigh, Candidate, ProducerLiteConfig, Request, Shot,
};
use ow_rs::ranking::{best_of, rank, Ranked};
use ow_rs::regroup::{
    regroup_destinations, regroup_moves, regroup_options, regroup_requests, regroup_sources, RegroupOption,
};
use ow_rs::state::{Fleet, GameState, Move, Planet};
use ow_rs::survey::{debug_requests, debug_rows, DebugRow};
use ow_rs::tick::FleetMove;
use ow_rs::turn::{attack, plan_attack, plan_regroup};

fn double(x: f64) -> Double {
    Double { bits: x.to_bits() }
}

fn doubles(list: &[f64]) -> Vec<Double> {
    list.iter().map(|&x| double(x)).collect()
}

fn planet(id: i64, owner: i64, ships: i64, production: i64) -> Planet {
    let (x, y) = (double(10.0 * id as f64), double(20.0));
    Planet { id, owner, x, y, radius: double(2.0), ships, production }
}

fn fleet(id: i64, owner: i64, ships: i64) -> Fleet {
    Fleet { id, owner, x: double(1.0), y: double(2.0), angle: double(0.5), from_planet_id: 0, ships }
}

/// Player 0 holds planets 10, 13 and 14, player 1 holds planet 11 and attacks
/// planet 13 with nine ships; nobody holds planet 12.
fn game() -> GameState {
    let planets = vec![
        planet(10, 0, 20, 2),
        planet(11, 1, 8, 1),
        planet(12, -1, 5, 3),
        planet(13, 0, 6, 1),
        planet(14, 0, 3, 1),
    ];
    let initial_planets = planets.clone();
    GameState {
        planets,
        fleets: vec![fleet(0, 1, 9)],
        next_fleet_id: 1,
        comets: Vec::new(),
        comet_planet_ids: Vec::new(),
        initial_planets,
        angular_velocity: double(0.03),
    }
}

const H: usize = 5;

/// A flight that reaches planet `tgt` at step `eta`.
fn route(tgt: usize, eta: usize) -> Vec<FleetMove> {
    (1..=H)
        .map(|k| FleetMove {
            to: Point { x: double(50.0), y: double(20.0) },
            contacts: (0..5).map(|i| k == eta && i == tgt).collect(),
            sun: false,
        })
        .collect()
}

fn shot(angle: f64, tgt: usize, eta: usize) -> Shot {
    Shot { angle: double(angle), legs: route(tgt, eta) }
}

fn status() -> GarrisonStatus {
    let g = game();
    assert!(has_room_for(&g, H));
    build_garrison_status(&g, &vec![route(3, 2)], 2, H)
}

fn request(src: usize, tgt: usize, ships: i64) -> Request {
    Request { src, tgt, ships }
}

/// The launches of the attack, aimed.
fn shots() -> Vec<Shot> {
    vec![shot(0.1, 2, 2), shot(0.2, 1, 3), shot(0.3, 3, 1), shot(0.4, 2, 2), shot(0.5, 1, 1)]
}

fn launches() -> Vec<Request> {
    vec![request(0, 2, 20), request(0, 1, 20), request(0, 3, 20), request(3, 2, 6), request(3, 1, 6)]
}

#[test]
fn agent_kind_producer_lite_roundtrip() {
    let k = AgentKind::from_i32(4);
    assert_eq!(k, AgentKind::ProducerLite);
    let a = k.make();
    assert_eq!(a.name(), "producer_lite");
}

#[test]
fn kinds_have_their_numbers() {
    for k in [AgentKind::Hold, AgentKind::ProducerLite] {
        assert_eq!(AgentKind::from_i32(k.to_i32()), k);
    }
    assert_eq!(AgentKind::Hold.to_i32(), 0);
    for v in [-1, 0, 1, 2, 3, 5, i32::MAX] {
        assert_eq!(AgentKind::from_i32(v), AgentKind::Hold);
    }
    assert_eq!(AgentKind::Hold.make(), BuiltIn::Hold(HoldAgent));
    assert_eq!(AgentKind::Hold.make().name(), "hold");
    assert!(HoldAgent.act(&game(), 0, 7).is_empty());
}

#[test]
fn settings_of_the_planner() {
    let c = ProducerLiteConfig::default();
    assert_eq!((c.horizon, HORIZON), (18, 18));
    assert_eq!((c.max_sources_per_lane, c.max_offensive_targets), (12, 12));
    assert_eq!((c.max_defensive_targets, c.max_waves_per_turn), (4, 6));
    assert_eq!(c.roi_threshold, double(1.5));
    assert_eq!(c.min_ships_to_launch, double(4.0));
    assert_eq!(c.reinforce_size_beta, double(2.2));
    assert_eq!(c.reinforce_eta_free, double(3.0));
    assert_eq!(c.reinforce_eta_scale, double(12.0));
    assert!(c.enable_regroup);
    assert_eq!(c.max_regroup_time, double(7.0));
    assert_eq!(c.regroup_pressure_delta_min, double(0.25));
    assert_eq!((c.max_regroup_sources_per_lane, c.max_regroup_targets_per_source), (6, 7));
    assert_eq!(c.regroup_time_penalty_weight, double(1e-3));

    assert_eq!(c.for_players(3), c);
    let four = c.for_players(4);
    assert_eq!((four.horizon, four.max_sources_per_lane), (13, 6));
    assert_eq!((four.max_defensive_targets, four.max_regroup_targets_per_source), (2, 8));
    assert_eq!(four.max_regroup_time, double(6.0));
    assert_eq!(four.roi_threshold, c.roi_threshold);
}

#[test]
fn items_are_ranked_by_their_keys() {
    let item = |key: i128, idx: usize| Ranked { key, idx };
    let items = vec![item(3, 5), item(7, 1), item(3, 2), item(-9, 4), item(7, 0)];
    assert_eq!(rank(&items), vec![item(7, 0), item(7, 1), item(3, 2), item(3, 5), item(-9, 4)]);
    assert_eq!(best_of(&items, 3), vec![0, 1, 2]);
    assert_eq!(best_of(&items, 9), vec![0, 1, 2, 5, 4]);
    assert!(best_of(&items, 0).is_empty() && best_of(&vec![], 4).is_empty());
}

#[test]
fn players_are_counted_by_what_they_own() {
    let mut g = game();
    assert_eq!(player_count(&g), 2);
    g.fleets[0].owner = 3;
    assert_eq!(player_count(&g), 4);
    g.fleets.clear();
    g.planets.truncate(1);
    assert_eq!(player_count(&g), 2);
}

#[test]
fn sources_and_targets() {
    let mut g = game();
    assert_eq!(owned(&g, 0), vec![0, 3, 4]);
    assert_eq!(ready_sources(&g, 0, 4), vec![0, 3]);
    assert_eq!(ready_sources(&g, 0, 6), vec![0, 3]);
    assert_eq!(ready_sources(&g, 0, 7), vec![0]);
    assert_eq!(ranked_sources(&g, 0, 12), vec![0, 3, 4]);
    assert_eq!(ranked_sources(&g, 0, 2), vec![0, 3]);
    let far = doubles(&[0.0, 30.0, 10.0, 0.0, 0.0]);
    assert_eq!(offensive_targets(&g, 0, &far, 12), vec![2, 1]);
    assert_eq!(offensive_targets(&g, 0, &far, 1), vec![2]);
    assert_eq!(offensive_targets(&g, 1, &far, 12), vec![0, 3, 4, 2]);
    g.comet_planet_ids.push(12);
    assert_eq!(offensive_targets(&g, 0, &far, 12), vec![1]);
    assert_eq!(all_targets(&vec![2, 1], &vec![3]), vec![2, 1, 3]);
    assert_eq!(all_targets(&vec![2, 3], &vec![3, 4, 4]), vec![2, 3, 4]);
}

#[test]
fn planets_about_to_be_lost_are_defended() {
    let (g, s) = (game(), status());
    assert_eq!(s.planets[3].course.owner, vec![0, 0, 1, 1, 1, 1]);
    assert_eq!(defensive_targets(&g, &s, 0, 4), vec![3]);
    assert!(defensive_targets(&g, &s, 0, 0).is_empty());
    assert!(defensive_targets(&g, &s, 1, 4).is_empty());
}

#[test]
fn launches_send_what_can_be_spared() {
    let (g, s) = (game(), status());
    let c = ProducerLiteConfig::default();
    let far = doubles(&[0.0, 30.0, 10.0, 0.0, 0.0]);
    assert_eq!(plan_attack(&g, &s, &far, 0, &c), launches());
    assert_eq!(launch_requests(&g, &s, &vec![0, 3, 4], &vec![2, 1, 3], 0, 4), launches());
    assert_eq!(launch_requests(&g, &s, &vec![0, 3, 4], &vec![4], 0, 7), vec![request(0, 4, 20)]);
    assert_eq!(launch_requests(&g, &s, &vec![4], &vec![4, 0], 0, 3), vec![request(4, 0, 3)]);
}

#[test]
fn launches_are_weighed() {
    let (g, s) = (game(), status());
    let at = |score: i128, r: Request, eta: usize, angle: f64| Candidate {
        score,
        src_idx: r.src,
        tgt_idx: r.tgt,
        ships: r.ships,
        eta,
        angle: double(angle),
    };
    let q = launches();
    let all = vec![at(4, q[0], 2, 0.1), at(4, q[1], 3, 0.2), at(6, q[2], 1, 0.3), at(4, q[3], 2, 0.4)];
    assert_eq!(weigh(&g, &s, &q, &shots(), 0, double(1.5)), all);
    assert_eq!(weigh(&g, &s, &q, &shots(), 0, double(3.999)), all);
    assert_eq!(weigh(&g, &s, &q, &shots(), 0, double(4.0)), vec![all[2]]);
    // Shots that reach nothing, or another planet first.
    let stray = vec![shot(0.1, 1, 2), shot(0.2, 1, 0), shot(0.3, 0, 1), shot(0.4, 3, 2), shot(0.5, 4, 1)];
    assert!(weigh(&g, &s, &q, &stray, 0, double(1.5)).is_empty());
}

#[test]
fn the_best_waves_are_sent() {
    let (g, s) = (game(), status());
    let sent = attack(&g, &s, &launches(), &shots(), 0, &ProducerLiteConfig::default());
    assert_eq!(sent.moves, vec![Move { from_id: 10, angle: double(0.3), ships: 20 }]);
    assert_eq!(sent.committed, vec![20, 0, 0, 0, 0]);
}

#[test]
fn waves_do_not_get_in_each_others_way() {
    let g = game();
    let wave = |score: i128, src_idx: usize, tgt_idx: usize, ships: i64| Candidate {
        score,
        src_idx,
        tgt_idx,
        ships,
        eta: 2,
        angle: double(score as f64),
    };
    let ships = |cands: Vec<Candidate>, max: usize| {
        let s = select_waves(&g, 0, &cands, max);
        (s.moves.iter().map(|m| (m.from_id, m.ships)).collect::<Vec<_>>(), s.committed)
    };
    // One for each target, the better one.
    let (moves, committed) = ships(vec![wave(5, 0, 1, 9), wave(8, 3, 1, 6)], 6);
    assert_eq!((moves, committed), (vec![(13, 6)], vec![0, 0, 0, 6, 0]));
    // Two from one source, as long as the ships last.
    let (moves, committed) = ships(vec![wave(8, 0, 1, 9), wave(7, 0, 2, 12), wave(6, 0, 2, 11)], 6);
    assert_eq!((moves, committed), (vec![(10, 9), (10, 11)], vec![20, 0, 0, 0, 0]));
    // No planet sends what it is being sent.
    let (moves, _) = ships(vec![wave(8, 0, 3, 9), wave(7, 3, 2, 6), wave(6, 4, 0, 3)], 6);
    assert_eq!(moves, vec![(10, 9)]);
    // No more than there may be.
    let (moves, _) = ships(vec![wave(8, 0, 1, 9), wave(8, 3, 2, 6)], 1);
    assert_eq!(moves, vec![(10, 9)]);
    assert!(ships(vec![wave(8, 0, 1, 9)], 0).0.is_empty());
}

#[test]
fn what_is_left_is_regrouped() {
    let (g, s) = (game(), status());
    let c = ProducerLiteConfig::default();
    let committed = vec![20, 0, 0, 0, 0];
    let pressures = doubles(&[1.0, 0.0, 0.0, 5.0, 9.0]);
    assert_eq!(regroup_sources(&g, 0, &committed, 4, 6), vec![3]);
    assert_eq!(regroup_sources(&g, 0, &vec![15, 0, 0, 0, 0], 4, 6), vec![3, 0]);
    assert_eq!(regroup_sources(&g, 0, &vec![15, 0, 0, 0, 0], 3, 2), vec![3, 0]);
    assert_eq!(regroup_destinations(&g, 0, &pressures, 7), vec![4, 3, 0]);
    assert_eq!(regroup_destinations(&g, 0, &pressures, 1), vec![4]);
    let plan = plan_regroup(&g, &s, &pressures, 0, &committed, &c);
    assert_eq!(plan.srcs, vec![3]);
    assert_eq!(plan.requests, vec![request(3, 4, 6), request(3, 0, 6)]);
    let off = ProducerLiteConfig { enable_regroup: false, ..c };
    let none = plan_regroup(&g, &s, &pressures, 0, &committed, &off);
    assert!(none.srcs.is_empty() && none.requests.is_empty());
    // Ships already committed are not sent again.
    let some = vec![5, 0, 0, 0, 0];
    assert_eq!(regroup_requests(&g, &s, &vec![0], &vec![3], 0, &some, 4), vec![request(0, 3, 15)]);
    assert!(regroup_requests(&g, &s, &vec![0], &vec![3], 0, &vec![17, 0, 0, 0, 0], 4).is_empty());
}

#[test]
fn ships_are_there_whatever_the_least_launch() {
    let (g, s) = (game(), status());
    let c = ProducerLiteConfig { min_ships_to_launch: double(0.0), ..ProducerLiteConfig::default() };
    let committed = vec![20, 0, 0, 0, 0];
    let pressures = doubles(&[1.0, 0.0, 0.0, 5.0, 9.0]);
    let plan = plan_regroup(&g, &s, &pressures, 0, &committed, &c);
    assert_eq!(plan.srcs, vec![3, 4, 0]);
    // Planet 10 has no ships left: its moves are empty.
    for q in &plan.requests {
        assert!(committed[q.src] + q.ships <= g.planets[q.src].ships && q.ships >= 0);
        assert_eq!(q.ships == 0, q.src == 0);
    }
    assert!(plan.requests.contains(&request(0, 4, 0)));
}

#[test]
fn regrouping_goes_where_the_pressure_is() {
    let s = status();
    let q = vec![request(3, 4, 6), request(3, 0, 6)];
    let made = |gaps: [f64; 2], min: f64, time: f64| {
        let aimed = vec![shot(0.1, 4, 2), shot(0.2, 0, 3)];
        regroup_options(&s, &q, &doubles(&gaps), &aimed, 0, double(min), double(time))
    };
    let first =
        RegroupOption { src_idx: 3, tgt_idx: 4, ships: 6, eta: 2, gap: double(4.0), angle: double(0.1) };
    assert_eq!(made([4.0, -4.0], 0.25, 7.0), vec![first]);
    assert_eq!(made([4.0, -4.0], 0.25, 2.0), vec![first]);
    assert!(made([4.0, -4.0], 0.25, 1.9).is_empty());
    assert!(made([4.0, -4.0], 4.0, 7.0).is_empty());
    assert_eq!(made([4.0, 4.0], 0.25, 7.0).len(), 2);
    // A planet that is lost by then is no destination, nor is one that is missed.
    let lost = vec![request(0, 3, 6), request(0, 4, 6)];
    let aimed = vec![shot(0.1, 3, 2), shot(0.2, 3, 1)];
    assert!(regroup_options(&s, &lost, &doubles(&[4.0, 4.0]), &aimed, 0, double(0.25), double(7.0)).is_empty());
}

#[test]
fn each_source_regroups_once() {
    let g = game();
    let option = |src_idx: usize, tgt_idx: usize, ships: i64| RegroupOption {
        src_idx,
        tgt_idx,
        ships,
        eta: 2,
        gap: double(1.0),
        angle: double(tgt_idx as f64),
    };
    let options = vec![option(3, 4, 6), option(3, 0, 5), option(0, 4, 9), option(0, 3, 8)];
    let to = |scores: &[f64]| {
        let moves = regroup_moves(&g, &vec![0, 3, 4], &options, &doubles(scores));
        moves.iter().map(|m| (m.from_id, m.ships)).collect::<Vec<_>>()
    };
    assert_eq!(to(&[1.0, 2.0, 3.0, 4.0]), vec![(10, 8), (13, 5)]);
    assert_eq!(to(&[2.0, 2.0, 4.0, 3.0]), vec![(10, 9), (13, 6)]);
    assert_eq!(to(&[-1.0, f64::NAN, f64::NAN, 9.0]), vec![(10, 9), (13, 6)]);
    assert!(regroup_moves(&g, &vec![4], &options, &doubles(&[1.0; 4])).is_empty());
}

#[test]
fn every_launch_is_surveyed() {
    let (g, s) = (game(), status());
    let q = debug_requests(&g, &s, 0);
    let pairs = [(0, 1, 20), (0, 2, 20), (3, 1, 6), (3, 2, 6), (4, 1, 3), (4, 2, 3)];
    assert_eq!(q, pairs.iter().map(|p| request(p.0, p.1, p.2)).collect::<Vec<_>>());
    assert_eq!(debug_requests(&g, &s, 1).len(), 4);
    let aimed = vec![
        shot(0.1, 1, 3),
        shot(0.2, 2, 2),
        shot(0.3, 1, 1),
        shot(0.4, 2, 2),
        shot(0.5, 1, 0),
        shot(0.6, 1, 1),
    ];
    let rows = debug_rows(&g, &s, &q, &aimed, 0, double(1.5), &vec![2], &vec![3, 1]);
    let row = |k: usize, eta: usize, floor: i64, reaches: bool, score: i128| DebugRow {
        request: q[k],
        eta,
        angle: aimed[k].angle,
        floor,
        reaches,
        score: Some(score),
        pays: score > 1,
        offensive: q[k].tgt == 2,
        defensive: q[k].tgt == 1,
    };
    let wanted = vec![
        row(0, 3, 12, true, 4),
        row(1, 2, 6, true, 4),
        row(2, 1, 10, true, 0),
        row(3, 2, 6, true, 4),
        row(4, 1, 10, false, 0),
        row(5, 1, 6, false, -3),
    ];
    assert_eq!(rows, wanted);
    // A launch of no ships is worth nothing that can be compared.
    let none = debug_rows(&g, &s, &vec![request(0, 1, 0)], &vec![shot(0.1, 1, 3)], 0, double(1.5), &vec![], &vec![]);
    assert_eq!((none[0].score, none[0].pays), (None, false));
    // What is to be defended is held, and so no target of these launches.
    let own = defensive_targets(&g, &s, 0, 6);
    assert_eq!(own, vec![3]);
    let rows = debug_rows(&g, &s, &q, &aimed, 0, double(1.5), &vec![2], &own);
    assert!(rows.iter().all(|r| !r.defensive));
}
