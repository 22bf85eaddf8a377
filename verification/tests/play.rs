//! Whole games: maps, comets, ticks and the planner, driven with the floats that
//! the library leaves to its caller, against the same game played in Python.

use ow_rs::agents::ProducerLiteAgent;
use ow_rs::comets::{comet_rng, obstacles, symmetric_paths, visible_path, CometGen};
use ow_rs::double::{Double, Point};
use ow_rs::engine::{expire_comets, is_spawn_tick, Order};
use ow_rs::flow::GarrisonStatus;
use ow_rs::game::{advance, is_ready, is_spawn_ready, is_valid, open_tick};
use ow_rs::garrison::{build_garrison_status as project, has_room_for};
use ow_rs::mapgen::{start_game, MapGen, Phase};
use ow_rs::motion::PlanetMotion;
use ow_rs::planner::{player_count, ready_sources, ProducerLiteConfig, Request, Shot};
use ow_rs::regroup::{regroup_moves, regroup_options};
use ow_rs::state::{copy_state, find_planet, has_id, Config, Fleet, GameState, Move, Planet, SpawnInjection};
use ow_rs::tick::{resolve_tick, FleetMove, StepOutcome};
use ow_rs::turn::{attack, plan_attack, plan_regroup};
use std::f64::consts::PI;
use std::hint::black_box;

const BOARD_SIZE: f64 = 100.0;
const CENTER: f64 = 50.0;
const SUN_RADIUS: f64 = 10.0;
const ROTATION_RADIUS_LIMIT: f64 = 50.0;
const COMET_RADIUS: f64 = 1.0;
const PLANET_CLEARANCE: f64 = 7.0;

fn c_cos(x: f64) -> f64 {
    x.cos()
}

fn c_sin(x: f64) -> f64 {
    x.sin()
}

fn c_atan2(y: f64, x: f64) -> f64 {
    y.atan2(x)
}

fn c_log(x: f64) -> f64 {
    x.ln()
}

fn c_sqrt(x: f64) -> f64 {
    x.sqrt()
}

fn c_pow(x: f64, y: f64) -> f64 {
    x.powf(black_box(y))
}

fn sq2(x: f64) -> f64 {
    c_pow(x, 2.0)
}

fn double(x: f64) -> Double {
    Double { bits: x.to_bits() }
}

fn float(d: Double) -> f64 {
    f64::from_bits(d.bits)
}

fn point(x: f64, y: f64) -> Point {
    Point { x: double(x), y: double(y) }
}

fn uniform(a: f64, b: f64, u: u64) -> f64 {
    a + (b - a) * (u as f64 / 9007199254740992.0)
}

/// The distance between two points.
fn distance(ax: f64, ay: f64, bx: f64, by: f64) -> f64 {
    c_sqrt(sq2(ax - bx) + sq2(ay - by))
}

/// The least distance from point p to the segment v-w.
fn point_to_segment_distance(px: f64, py: f64, vx: f64, vy: f64, wx: f64, wy: f64) -> f64 {
    let l2 = sq2(vx - wx) + sq2(vy - wy);
    if l2 == 0.0 {
        return distance(px, py, vx, vy);
    }
    let mut t = ((px - vx) * (wx - vx) + (py - vy) * (wy - vy)) / l2;
    t = t.min(1.0).max(0.0);
    let proj_x = vx + t * (wx - vx);
    let proj_y = vy + t * (wy - vy);
    distance(px, py, proj_x, proj_y)
}

/// Whether a fleet that moves from A to B and a planet that moves from P0 to P1
/// come within `r` of each other during the tick.
fn swept_pair_hit(
    ax: f64,
    ay: f64,
    bx: f64,
    by: f64,
    p0x: f64,
    p0y: f64,
    p1x: f64,
    p1y: f64,
    r: f64,
) -> bool {
    let d0x = ax - p0x;
    let d0y = ay - p0y;
    let dvx = (bx - ax) - (p1x - p0x);
    let dvy = (by - ay) - (p1y - p0y);
    let a = dvx * dvx + dvy * dvy;
    let b = 2.0 * (d0x * dvx + d0y * dvy);
    let c = d0x * d0x + d0y * d0y - r * r;
    if a < 1e-12 {
        return c <= 0.0;
    }
    let disc = b * b - 4.0 * a * c;
    if disc < 0.0 {
        return false;
    }
    let sq = c_sqrt(disc);
    let t1 = (-b - sq) / (2.0 * a);
    let t2 = (-b + sq) / (2.0 * a);
    t2 >= 0.0 && t1 <= 1.0
}

/// The four symmetric places of (x, y), in the order of a group.
fn places(x: f64, y: f64) -> [(f64, f64); 4] {
    let b = BOARD_SIZE;
    [(y, x), (b - x, y), (x, b - y), (b - y, b - x)]
}

/// Whether a group at (x, y) keeps clear of the planets.
fn map_clear(planets: &[Planet], x: f64, y: f64, r: f64) -> bool {
    places(x, y).iter().all(|&(tx, ty)| {
        planets.iter().all(|p| {
            let far = distance(float(p.x), float(p.y), tx, ty);
            !(far < float(p.radius) + r + PLANET_CLEARANCE)
        })
    })
}

/// Whether a group at (x, y) keeps clear of the planets and of their orbits.
fn clear_of_orbits(planets: &[Planet], x: f64, y: f64, r: f64) -> bool {
    places(x, y).iter().all(|&(tx, ty)| {
        let orbital = distance(tx, ty, CENTER, CENTER);
        let rotating = orbital + r < ROTATION_RADIUS_LIMIT;
        planets.iter().all(|p| {
            let (px, py, pr) = (float(p.x), float(p.y), float(p.radius));
            let p_orbital = distance(px, py, CENTER, CENTER);
            let p_rotating = p_orbital + pr < ROTATION_RADIUS_LIMIT;
            let near = distance(px, py, tx, ty) < pr + r + PLANET_CLEARANCE;
            let crossing =
                rotating != p_rotating && (orbital - p_orbital).abs() < r + pr + PLANET_CLEARANCE;
            !near && !crossing
        })
    })
}

fn off_board(x: f64, y: f64, r: f64) -> bool {
    x + r > BOARD_SIZE || x - r < 0.0 || y + r > BOARD_SIZE || y - r < 0.0
}

fn try_static(m: &mut MapGen) {
    let (prod, u) = m.try_static().expect("the generator gives an answer");
    let r = 1.0 + c_log(prod as f64);
    let angle = uniform(0.0, PI / 2.0, u);
    let min_orbital = ROTATION_RADIUS_LIMIT - r;
    let max_orbital = (BOARD_SIZE - CENTER - r) / c_cos(angle).max(c_sin(angle));
    if min_orbital > max_orbital {
        return;
    }
    let orbital_r = uniform(min_orbital, max_orbital, m.draw_distance());
    let x = CENTER + orbital_r * c_cos(angle);
    let y = CENTER + orbital_r * c_sin(angle);
    if off_board(x, y, r) || (BOARD_SIZE - x) - r < 0.0 || (BOARD_SIZE - y) - r < 0.0 {
        return;
    }
    if (x - CENTER) < r + 5.0 || (y - CENTER) < r + 5.0 {
        return;
    }
    m.draw_static_ships().expect("the generator gives an answer");
    if map_clear(m.planets(), x, y, r) {
        m.add_static(
            double(x),
            double(y),
            double(BOARD_SIZE - x),
            double(BOARD_SIZE - y),
            double(r),
        );
    }
}

fn try_fill(m: &mut MapGen) {
    let (prod, ux, uy) = m.try_fill().expect("the generator gives an answer");
    let r = 1.0 + c_log(prod as f64);
    let x = uniform(CENTER + 15.0, BOARD_SIZE - r - 5.0, ux);
    let y = uniform(CENTER + 15.0, BOARD_SIZE - r - 5.0, uy);
    let orbital_radius = distance(x, y, CENTER, CENTER);
    if orbital_radius < SUN_RADIUS + r + 10.0 {
        return;
    }
    if orbital_radius + r >= ROTATION_RADIUS_LIMIT && off_board(x, y, r) {
        return;
    }
    m.draw_fill_ships().expect("the generator gives an answer");
    if clear_of_orbits(m.planets(), x, y, r) {
        m.add_fill(
            double(x),
            double(y),
            double(BOARD_SIZE - x),
            double(BOARD_SIZE - y),
            double(r),
            orbital_radius + r < ROTATION_RADIUS_LIMIT,
        );
    }
}

/// Fills the map.
fn generate_planets(m: &mut MapGen) {
    loop {
        match m.phase() {
            Phase::Static => try_static(m),
            Phase::Fill => try_fill(m),
            Phase::Done => break,
        }
    }
}

/// The orbit, sampled at steps of `comet_speed` along it.
fn sample_orbit(a: f64, e: f64, phi: f64, comet_speed: f64) -> Vec<Point> {
    let b = a * c_sqrt(1.0 - sq2(e));
    let c_val = a * e;
    let num = 5000usize;
    let mut dense: Vec<(f64, f64)> = Vec::with_capacity(num);
    for i in 0..num {
        let t = 0.3 * PI + 1.4 * PI * (i as f64) / ((num - 1) as f64);
        let ex = c_val + a * c_cos(t);
        let ey = b * c_sin(t);
        let x = CENTER + ex * c_cos(phi) - ey * c_sin(phi);
        let y = CENTER + ex * c_sin(phi) + ey * c_cos(phi);
        dense.push((x, y));
    }
    let mut path = vec![point(dense[0].0, dense[0].1)];
    let mut cum = 0.0_f64;
    let mut target = comet_speed;
    for i in 1..dense.len() {
        cum += distance(dense[i].0, dense[i].1, dense[i - 1].0, dense[i - 1].1);
        if cum >= target {
            path.push(point(dense[i].0, dense[i].1));
            target += comet_speed;
        }
    }
    path
}

/// Whether comets on the visible path keep clear of the sun and the planets.
fn comet_clear(
    visible: &[Point],
    planets: &[&Planet],
    angular_velocity: f64,
    spawn_step: i64,
) -> bool {
    let b_ = BOARD_SIZE;
    let buf = COMET_RADIUS + 0.5;
    visible.iter().enumerate().all(|(k, p)| {
        let (cx, cy) = (float(p.x), float(p.y));
        if distance(cx, cy, CENTER, CENTER) < SUN_RADIUS + COMET_RADIUS {
            return false;
        }
        let sym_pts = [(cy, cx), (b_ - cx, cy), (cx, b_ - cy), (b_ - cy, b_ - cx)];
        let game_step = (spawn_step - 1 + k as i64) as f64;
        planets.iter().all(|planet| {
            let (x, y, r) = (float(planet.x), float(planet.y), float(planet.radius));
            let orbiting = distance(x, y, CENTER, CENTER) + r < ROTATION_RADIUS_LIMIT;
            let (px, py, reach) = if orbiting {
                let dx = x - CENTER;
                let dy = y - CENTER;
                let orb_r = c_sqrt(sq2(dx) + sq2(dy));
                let cur_angle = c_atan2(dy, dx) + angular_velocity * game_step;
                (
                    CENTER + orb_r * c_cos(cur_angle),
                    CENTER + orb_r * c_sin(cur_angle),
                    r + COMET_RADIUS,
                )
            } else {
                (x, y, r + buf)
            };
            sym_pts.iter().all(|sp| !(distance(sp.0, sp.1, px, py) < reach))
        })
    })
}

/// The paths of four comets, or `None` once all tries are used up.
fn generate_comet_paths(
    initial_planets: &Vec<Planet>,
    angular_velocity: f64,
    spawn_step: i64,
    comet_planet_ids: &Vec<i64>,
    comet_speed: f64,
    draws: &mut CometGen,
) -> Option<Vec<Vec<Point>>> {
    let solid: Vec<&Planet> =
        obstacles(initial_planets, comet_planet_ids).into_iter().map(|i| &initial_planets[i]).collect();
    while let Some((ue, ua)) = draws.next_try() {
        let e = uniform(0.75, 0.93, ue);
        let a = uniform(60.0, 150.0, ua);
        if a * (1.0 - e) < SUN_RADIUS + COMET_RADIUS {
            continue;
        }
        let phi = uniform(PI / 6.0, PI / 3.0, draws.draw_tilt());
        let path = sample_orbit(a, e, phi, comet_speed);
        let visible = match visible_path(&path) {
            Some(v) => v,
            None => continue,
        };
        if comet_clear(&visible, &solid, angular_velocity, spawn_step) {
            let mirrored = visible
                .iter()
                .map(|p| Point {
                    x: double(BOARD_SIZE - float(p.x)),
                    y: double(BOARD_SIZE - float(p.y)),
                })
                .collect();
            return Some(symmetric_paths(&visible, &mirrored));
        }
    }
    None
}

/// The first state of the game of `seed`.
fn init_from_seed(seed: u64, num_agents: usize) -> GameState {
    let (mut m, u) = MapGen::start(seed).expect("the generator gives an answer");
    let angular_velocity = uniform(0.025, 0.05, u);
    generate_planets(&mut m);
    start_game(m, num_agents, double(angular_velocity)).expect("the generator gives an answer")
}

/// The orders with the points at which their fleets start out.
fn with_starts(g: &GameState, actions: &[Vec<Move>]) -> Vec<Vec<Order>> {
    actions
        .iter()
        .map(|acts| {
            acts.iter()
                .map(|mv| {
                    let start = match find_planet(&g.planets, mv.from_id) {
                        Some(i) => {
                            let p = &g.planets[i];
                            let angle = float(mv.angle);
                            let out = float(p.radius) + 0.1;
                            point(
                                float(p.x) + c_cos(angle) * out,
                                float(p.y) + c_sin(angle) * out,
                            )
                        }
                        None => point(0.0, 0.0),
                    };
                    Order { from_id: mv.from_id, angle: mv.angle, ships: mv.ships, start }
                })
                .collect()
        })
        .collect()
}

/// Where each planet is at the end of the tick, comets aside.
fn drift(g: &GameState, cur_step: i64) -> Vec<Point> {
    let av = float(g.angular_velocity);
    g.planets
        .iter()
        .zip(&g.initial_planets)
        .map(|(p, ip)| {
            let here = Point { x: p.x, y: p.y };
            if has_id(&g.comet_planet_ids, p.id) {
                return here;
            }
            let dx = float(ip.x) - CENTER;
            let dy = float(ip.y) - CENTER;
            let r = c_sqrt(sq2(dx) + sq2(dy));
            if r + float(p.radius) < ROTATION_RADIUS_LIMIT {
                let current_angle = c_atan2(dy, dx) + av * (cur_step as f64);
                point(CENTER + r * c_cos(current_angle), CENTER + r * c_sin(current_angle))
            } else {
                here
            }
        })
        .collect()
}

/// The flight of each fleet over the tick.
fn flights(g: &GameState, motion: &PlanetMotion, max_speed: f64) -> Vec<FleetMove> {
    let ln1000 = c_log(1000.0);
    g.fleets
        .iter()
        .map(|f| {
            let angle = float(f.angle);
            let mut speed = 1.0 + (max_speed - 1.0) * c_pow(c_log(f.ships as f64) / ln1000, 1.5);
            if speed > max_speed {
                speed = max_speed;
            }
            let (ox, oy) = (float(f.x), float(f.y));
            let nx = ox + c_cos(angle) * speed;
            let ny = oy + c_sin(angle) * speed;
            let contacts = motion
                .paths
                .iter()
                .zip(&g.planets)
                .map(|(path, p)| {
                    path.check
                        && swept_pair_hit(
                            ox,
                            oy,
                            nx,
                            ny,
                            float(path.from.x),
                            float(path.from.y),
                            float(path.to.x),
                            float(path.to.y),
                            float(p.radius),
                        )
                })
                .collect();
            let sun = point_to_segment_distance(CENTER, CENTER, ox, oy, nx, ny) < SUN_RADIUS;
            FleetMove { to: point(nx, ny), contacts, sun }
        })
        .collect()
}

fn comets_to_spawn(g: &GameState, cur_step: i64, cfg: &Config, seed: u64) -> Option<SpawnInjection> {
    if !is_spawn_tick(cur_step) {
        return None;
    }
    let mut after = copy_state(g);
    expire_comets(&mut after);
    let s = cur_step + 1;
    let mut draws = CometGen::new(comet_rng(seed, s as u64));
    let paths = generate_comet_paths(
        &after.initial_planets,
        float(after.angular_velocity),
        s,
        &after.comet_planet_ids,
        float(cfg.comet_speed),
        &mut draws,
    )?;
    let ships = draws.draw_ships().unwrap();
    Some(SpawnInjection { ships, paths })
}

fn step_in_place(
    g: &mut GameState,
    actions: &[Vec<Move>],
    cur_step: i64,
    cfg: &Config,
    seed: u64,
) -> StepOutcome {
    assert!(is_valid(g));
    let spawned = comets_to_spawn(g, cur_step, cfg, seed);
    assert!(is_spawn_ready(g, cur_step, &spawned));
    open_tick(g, cur_step, spawned);
    let orders = with_starts(g, actions);
    assert!(is_ready(g));
    let ends = drift(g, cur_step);
    let motion = advance(g, &orders, &ends);
    let moves = flights(g, &motion, float(cfg.ship_speed));
    let out = resolve_tick(g, &motion, &moves, actions.len(), cur_step, cfg.episode_steps);
    assert!(is_valid(g));
    out
}

/// How far outside the source's surface a fleet starts.
const LAUNCH_SURFACE_OFFSET: f64 = 0.1;
/// Extra margin at the target: a fleet hits when its centre enters the radius.
const TARGET_HIT_SURFACE_OFFSET: f64 = 0.0;
/// Iterations of the intercept solver.
const FP_ITERS: usize = 6;

fn fleet_speed_f(ships: i64, max_speed: f64) -> f64 {
    if ships <= 0 {
        return max_speed;
    }
    let s = 1.0 + (max_speed - 1.0) * c_pow(c_log(ships as f64) / c_log(1000.0), 1.5);
    s.min(max_speed)
}

fn planet_pos_at(initial_x: f64, initial_y: f64, angular_velocity: f64, step: i64) -> (f64, f64) {
    let dx = initial_x - CENTER;
    let dy = initial_y - CENTER;
    let r = c_sqrt(sq2(dx) + sq2(dy));
    let theta = c_atan2(dy, dx) + angular_velocity * step as f64;
    (CENTER + r * c_cos(theta), CENTER + r * c_sin(theta))
}

fn is_orbiting(initial_x: f64, initial_y: f64, planet_radius: f64) -> bool {
    let dx = initial_x - CENTER;
    let dy = initial_y - CENTER;
    c_sqrt(sq2(dx) + sq2(dy)) + planet_radius < ROTATION_RADIUS_LIMIT
}

/// The angle at which a fleet meets its target, when, and whether the sun leaves
/// the shot free.
fn intercept_angle_fp(
    sx: f64,
    sy: f64,
    src_radius: f64,
    tgt_init_x: f64,
    tgt_init_y: f64,
    tgt_radius: f64,
    tgt_orbiting: bool,
    angular_velocity: f64,
    cur_step: i64,
    ships: i64,
    max_speed: f64,
    horizon: usize,
) -> (f64, f64, bool) {
    let speed = fleet_speed_f(ships, max_speed).max(1e-6);
    let gap = src_radius + LAUNCH_SURFACE_OFFSET + tgt_radius + TARGET_HIT_SURFACE_OFFSET;
    let place = |phase: i64| {
        if tgt_orbiting {
            planet_pos_at(tgt_init_x, tgt_init_y, angular_velocity, phase)
        } else {
            (tgt_init_x, tgt_init_y)
        }
    };
    let (t0x, t0y) = place((cur_step - 1).max(0));
    let (t1x, t1y) = place(cur_step);
    let r_orb = c_sqrt(sq2(t0x - CENTER) + sq2(t0y - CENTER));
    let a0 = c_atan2(t0y - CENTER, t0x - CENTER);
    let a1 = c_atan2(t1y - CENTER, t1x - CENTER);
    let da = a1 - a0;
    let omega = f64::atan2(f64::sin(da), f64::cos(da));
    let h = horizon as f64;
    let d0 = c_sqrt(sq2(t0x - sx) + sq2(t0y - sy));
    let mut t_star = ((d0 - gap) / speed).max(0.0).min(h);
    for _ in 0..FP_ITERS {
        let ang = a0 + omega * t_star;
        let tx = CENTER + r_orb * c_cos(ang);
        let ty = CENTER + r_orb * c_sin(ang);
        let d = c_sqrt(sq2(tx - sx) + sq2(ty - sy));
        t_star = ((d - gap) / speed).max(0.0).min(h);
    }
    let ang_final = a0 + omega * t_star;
    let tx = CENTER + r_orb * c_cos(ang_final);
    let ty = CENTER + r_orb * c_sin(ang_final);
    let viable = point_to_segment_distance(CENTER, CENTER, sx, sy, tx, ty) >= SUN_RADIUS;
    (c_atan2(ty - sy, tx - sx), t_star, viable)
}

fn build_planet_positions(g: &GameState, horizon: usize, cur_step: i64) -> Vec<Vec<(f64, f64)>> {
    let av = float(g.angular_velocity);
    (0..=horizon)
        .map(|k| {
            let phase = (cur_step + k as i64 - 1).max(0);
            g.planets
                .iter()
                .map(|p| {
                    let here = (float(p.x), float(p.y));
                    match find_planet(&g.initial_planets, p.id) {
                        Some(j) => {
                            let ip = &g.initial_planets[j];
                            let (ix, iy) = (float(ip.x), float(ip.y));
                            if is_orbiting(ix, iy, float(p.radius)) {
                                planet_pos_at(ix, iy, av, phase)
                            } else {
                                here
                            }
                        }
                        None => here,
                    }
                })
                .collect()
        })
        .collect()
}

/// The legs that a fleet flies, step by step.
fn legs(
    fleet: &Fleet,
    planet_positions: &[Vec<(f64, f64)>],
    planet_radii: &[f64],
    max_speed: f64,
    horizon: usize,
) -> Vec<FleetMove> {
    let speed = fleet_speed_f(fleet.ships, max_speed);
    let angle = float(fleet.angle);
    let mut fx = float(fleet.x);
    let mut fy = float(fleet.y);
    let mut out = Vec::with_capacity(horizon);
    for step in 0..horizon {
        let nfx = fx + c_cos(angle) * speed;
        let nfy = fy + c_sin(angle) * speed;
        let pp0 = &planet_positions[step];
        let pp1 = &planet_positions[step + 1];
        let contacts = (0..planet_radii.len())
            .map(|j| {
                swept_pair_hit(
                    fx, fy, nfx, nfy, pp0[j].0, pp0[j].1, pp1[j].0, pp1[j].1, planet_radii[j],
                )
            })
            .collect();
        let sun = point_to_segment_distance(CENTER, CENTER, fx, fy, nfx, nfy) < SUN_RADIUS;
        out.push(FleetMove { to: point(nfx, nfy), contacts, sun });
        fx = nfx;
        fy = nfy;
    }
    out
}

fn radii(g: &GameState) -> Vec<f64> {
    g.planets.iter().map(|p| float(p.radius)).collect()
}

/// Projects all garrisons.
fn build_garrison_status(
    g: &GameState,
    cfg: &Config,
    player_count: usize,
    horizon: usize,
    cur_step: i64,
) -> GarrisonStatus {
    assert!(has_room_for(g, horizon), "ships can be counted");
    let planet_pos = build_planet_positions(g, horizon, cur_step);
    let planet_radii = radii(g);
    let voyages = g
        .fleets
        .iter()
        .map(|f| legs(f, &planet_pos, &planet_radii, float(cfg.ship_speed), horizon))
        .collect();
    project(g, &voyages, player_count, horizon)
}

/// The pressure of the enemies on each planet: their ships, weighted by how soon
/// they could be there.
fn enemy_pressure(g: &GameState, max_speed: f64, player: i64, k0: &[(f64, f64)], horizon: usize) -> Vec<f64> {
    let n = g.planets.len();
    let mut pres = vec![0.0f64; n];
    for e in 0..n {
        if g.planets[e].owner == player || g.planets[e].owner < 0 {
            continue;
        }
        let e_ships = g.planets[e].ships;
        if e_ships <= 0 {
            continue;
        }
        let e_speed = fleet_speed_f(e_ships, max_speed).max(1e-6);
        let reach = (e_speed * horizon as f64).max(1e-6);
        let (ex, ey) = k0[e];
        for p in 0..n {
            if p == e {
                continue;
            }
            let (px, py) = k0[p];
            let d = distance(ex, ey, px, py);
            pres[p] += e_ships as f64 * (1.0 - d / reach).max(0.0);
        }
    }
    pres
}

/// How far each planet is from the sources: the least distance between where a
/// source is now and where the planet is at a step up to the horizon.
fn target_distances(
    g: &GameState,
    planet_pos: &[Vec<(f64, f64)>],
    sources: &[usize],
    h: usize,
) -> Vec<f64> {
    (0..g.planets.len())
        .map(|i| {
            sources
                .iter()
                .map(|&s| {
                    let (sx, sy) = planet_pos[0][s];
                    (1..=h)
                        .map(|k| {
                            let (tx, ty) = planet_pos[k][i];
                            distance(sx, sy, tx, ty)
                        })
                        .fold(f64::INFINITY, f64::min)
                })
                .fold(f64::INFINITY, f64::min)
        })
        .collect()
}

/// What the planner works with.
struct Scene<'a> {
    g: &'a GameState,
    cfg: &'a Config,
    step: i64,
    h: usize,
    planet_pos: Vec<Vec<(f64, f64)>>,
    planet_radii: Vec<f64>,
}

impl Scene<'_> {
    /// Aims `ships` from planet `src` at planet `tgt`, and follows the flight.
    fn aim(&self, src: usize, tgt: usize, ships: i64, player: i64) -> Shot {
        let g = self.g;
        let s = &g.planets[src];
        let t = &g.planets[tgt];
        let (tix, tiy) = match find_planet(&g.initial_planets, t.id) {
            Some(j) => (float(g.initial_planets[j].x), float(g.initial_planets[j].y)),
            None => (float(t.x), float(t.y)),
        };
        let max_speed = float(self.cfg.ship_speed);
        let (sx, sy, sr) = (float(s.x), float(s.y), float(s.radius));
        let (angle, _t_star, viable) = intercept_angle_fp(
            sx,
            sy,
            sr,
            tix,
            tiy,
            float(t.radius),
            is_orbiting(tix, tiy, float(t.radius)),
            float(g.angular_velocity),
            self.step,
            ships,
            max_speed,
            self.h,
        );
        let synth = Fleet {
            id: -1,
            owner: player,
            x: double(sx + c_cos(angle) * (sr + LAUNCH_SURFACE_OFFSET)),
            y: double(sy + c_sin(angle) * (sr + LAUNCH_SURFACE_OFFSET)),
            angle: double(angle),
            from_planet_id: s.id,
            ships,
        };
        let legs = if viable {
            legs(&synth, &self.planet_pos, &self.planet_radii, max_speed, self.h)
        } else {
            Vec::new()
        };
        Shot { angle: double(angle), legs }
    }

    fn aim_all(&self, requests: &[Request], player: i64) -> Vec<Shot> {
        requests.iter().map(|q| self.aim(q.src, q.tgt, q.ships, player)).collect()
    }
}

fn setup<'a>(
    settings: &ProducerLiteConfig,
    g: &'a GameState,
    game_cfg: &'a Config,
    step: i64,
) -> (ProducerLiteConfig, GarrisonStatus, Scene<'a>) {
    let players = player_count(g) as usize;
    let c = settings.for_players(players);
    let status = build_garrison_status(g, game_cfg, players, c.horizon, step);
    let scene = Scene {
        g,
        cfg: game_cfg,
        step,
        h: c.horizon,
        planet_pos: build_planet_positions(g, c.horizon, step),
        planet_radii: radii(g),
    };
    (c, status, scene)
}

/// The orders of the planner.
fn producer_lite_moves(
    agent: &ProducerLiteAgent,
    g: &GameState,
    player: i64,
    game_cfg: &Config,
    step: i64,
) -> Vec<Move> {
    if player < 0 || g.planets.is_empty() {
        return Vec::new();
    }
    let (c, status, scene) = setup(&agent.cfg, g, game_cfg, step);
    let sources = ready_sources(g, player, c.min_ships_to_launch.truncated());
    let distances = target_distances(g, &scene.planet_pos, &sources, c.horizon)
        .into_iter()
        .map(double)
        .collect();
    let requests = plan_attack(g, &status, &distances, player, &c);
    let shots = scene.aim_all(&requests, player);
    let picked = attack(g, &status, &requests, &shots, player, &c);
    let mut moves = picked.moves;

    let k0 = &scene.planet_pos[0];
    let pressure = enemy_pressure(g, float(game_cfg.ship_speed), player, k0, c.horizon);
    let ranks = pressure.iter().map(|&p| double(p)).collect();
    let plan = plan_regroup(g, &status, &ranks, player, &picked.committed, &c);
    let gaps = plan.requests.iter().map(|q| double(pressure[q.tgt] - pressure[q.src])).collect();
    let shots = scene.aim_all(&plan.requests, player);
    let options = regroup_options(
        &status,
        &plan.requests,
        &gaps,
        &shots,
        player,
        c.regroup_pressure_delta_min,
        c.max_regroup_time,
    );
    let weight = float(c.regroup_time_penalty_weight);
    let scores = options.iter().map(|o| double(float(o.gap) - weight * (o.eta as f64))).collect();
    moves.extend(regroup_moves(g, &plan.srcs, &options, &scores));
    moves
}

type Row = (i64, i64, f64, f64, f64, i64, i64);

fn near(a: f64, b: f64) -> bool {
    (a - b).abs() < 1e-9
}

fn check_map(g: &GameState, angular_velocity: f64, rows: &[Row]) {
    assert_eq!(float(g.angular_velocity), angular_velocity);
    assert_eq!(g.planets.len(), rows.len());
    for (p, row) in g.planets.iter().zip(rows) {
        assert_eq!((p.id, p.owner, p.ships, p.production), (row.0, row.1, row.5, row.6));
        assert!(near(float(p.x), row.2) && near(float(p.y), row.3), "planet {}", p.id);
        assert!(near(float(p.radius), row.4));
    }
    assert!(g.fleets.is_empty() && g.comets.is_empty() && g.next_fleet_id == 0);
    for (p, ip) in g.planets.iter().zip(&g.initial_planets) {
        assert_eq!((p.id, p.x, p.y), (ip.id, ip.x, ip.y));
        assert_eq!(ip.owner, -1);
    }
}

const MAP_42: &[Row] = &[
    (0, 0, 68.17313810856307, 94.88924011533776, 2.09861228866811, 10, 3),
    (1, -1, 5.110759884662244, 68.17313810856307, 2.09861228866811, 18, 3),
    (2, -1, 94.88924011533776, 31.826861891436934, 2.09861228866811, 18, 3),
    (3, 1, 31.826861891436934, 5.110759884662244, 2.09861228866811, 10, 3),
    (4, -1, 57.20389529992253, 98.593515347622, 1.0, 8, 1),
    (5, -1, 1.4064846523779977, 57.20389529992253, 1.0, 8, 1),
    (6, -1, 98.593515347622, 42.79610470007747, 1.0, 8, 1),
    (7, -1, 42.79610470007747, 1.4064846523779977, 1.0, 8, 1),
    (8, -1, 84.06094625995462, 89.98072221761517, 1.6931471805599454, 5, 2),
    (9, -1, 10.019277782384833, 84.06094625995462, 1.6931471805599454, 5, 2),
    (10, -1, 89.98072221761517, 15.939053740045381, 1.6931471805599454, 5, 2),
    (11, -1, 15.939053740045381, 10.019277782384833, 1.6931471805599454, 5, 2),
    (12, -1, 69.29336514068285, 74.39557760660475, 2.386294361119891, 29, 4),
    (13, -1, 25.604422393395254, 69.29336514068285, 2.386294361119891, 29, 4),
    (14, -1, 74.39557760660475, 30.70663485931715, 2.386294361119891, 29, 4),
    (15, -1, 30.70663485931715, 25.604422393395254, 2.386294361119891, 29, 4),
    (16, -1, 91.87133225908028, 79.80724467272859, 2.386294361119891, 17, 4),
    (17, -1, 20.192755327271414, 91.87133225908028, 2.386294361119891, 17, 4),
    (18, -1, 79.80724467272859, 8.128667740919724, 2.386294361119891, 17, 4),
    (19, -1, 8.128667740919724, 20.192755327271414, 2.386294361119891, 17, 4),
];

const MAP_123: &[Row] = &[
    (0, 0, 70.8932800833691, 96.94947241984852, 2.386294361119891, 10, 4),
    (1, 1, 3.0505275801514813, 70.8932800833691, 2.386294361119891, 10, 4),
    (2, 2, 96.94947241984852, 29.106719916630894, 2.386294361119891, 10, 4),
    (3, 3, 29.106719916630894, 3.0505275801514813, 2.386294361119891, 10, 4),
    (4, -1, 90.29377719332628, 83.08745495135213, 2.6094379124341005, 11, 5),
    (5, -1, 16.91254504864787, 90.29377719332628, 2.6094379124341005, 11, 5),
    (6, -1, 83.08745495135213, 9.706222806673722, 2.6094379124341005, 11, 5),
    (7, -1, 9.706222806673722, 16.91254504864787, 2.6094379124341005, 11, 5),
    (8, -1, 98.87903981414564, 57.277550249811284, 1.0, 53, 1),
    (9, -1, 42.722449750188716, 98.87903981414564, 1.0, 53, 1),
    (10, -1, 57.277550249811284, 1.1209601858543579, 1.0, 53, 1),
    (11, -1, 1.1209601858543579, 42.722449750188716, 1.0, 53, 1),
    (12, -1, 86.22913835943736, 65.19125616660945, 1.0, 8, 1),
    (13, -1, 34.80874383339055, 86.22913835943736, 1.0, 8, 1),
    (14, -1, 65.19125616660945, 13.770861640562643, 1.0, 8, 1),
    (15, -1, 13.770861640562643, 34.80874383339055, 1.0, 8, 1),
    (16, -1, 69.12307686851354, 67.69017227997635, 1.0, 30, 1),
    (17, -1, 32.30982772002365, 69.12307686851354, 1.0, 30, 1),
    (18, -1, 67.69017227997635, 30.876923131486464, 1.0, 30, 1),
    (19, -1, 30.876923131486464, 32.30982772002365, 1.0, 30, 1),
];

const MAP_7: &[Row] = &[
    (0, -1, 91.13942792295225, 75.12728435190571, 2.386294361119891, 17, 4),
    (1, -1, 24.872715648094285, 91.13942792295225, 2.386294361119891, 17, 4),
    (2, -1, 75.12728435190571, 8.860572077047749, 2.386294361119891, 17, 4),
    (3, -1, 8.860572077047749, 24.872715648094285, 2.386294361119891, 17, 4),
    (4, -1, 97.00532202619462, 86.1324664104661, 2.09861228866811, 9, 3),
    (5, -1, 13.867533589533906, 97.00532202619462, 2.09861228866811, 9, 3),
    (6, -1, 86.1324664104661, 2.9946779738053806, 2.09861228866811, 9, 3),
    (7, -1, 2.9946779738053806, 13.867533589533906, 2.09861228866811, 9, 3),
    (8, -1, 81.47456779722367, 88.82888565896994, 1.0, 16, 1),
    (9, -1, 11.171114341030062, 81.47456779722367, 1.0, 16, 1),
    (10, -1, 88.82888565896994, 18.52543220277633, 1.0, 16, 1),
    (11, -1, 18.52543220277633, 11.171114341030062, 1.0, 16, 1),
    (12, -1, 80.61427186386503, 66.63226011503043, 2.386294361119891, 12, 4),
    (13, -1, 33.367739884969566, 80.61427186386503, 2.386294361119891, 12, 4),
    (14, -1, 66.63226011503043, 19.385728136134972, 2.386294361119891, 12, 4),
    (15, -1, 19.385728136134972, 33.367739884969566, 2.386294361119891, 12, 4),
    (16, -1, 70.0157417777252, 71.93144646191257, 2.09861228866811, 29, 3),
    (17, -1, 28.06855353808743, 70.0157417777252, 2.09861228866811, 29, 3),
    (18, -1, 71.93144646191257, 29.984258222274804, 2.09861228866811, 29, 3),
    (19, -1, 29.984258222274804, 28.06855353808743, 2.09861228866811, 29, 3),
    (20, -1, 72.40016828410283, 93.21090612899715, 1.6931471805599454, 25, 2),
    (21, -1, 6.789093871002848, 72.40016828410283, 1.6931471805599454, 25, 2),
    (22, -1, 93.21090612899715, 27.599831715897167, 1.6931471805599454, 25, 2),
    (23, -1, 27.599831715897167, 6.789093871002848, 1.6931471805599454, 25, 2),
];

#[test]
fn generate_planets_matches_cpython() {
    check_map(&init_from_seed(42, 2), 0.04098566996144709, MAP_42);
    check_map(&init_from_seed(123, 4), 0.02630908997127361, MAP_123);
}

#[test]
fn three_players_get_no_homes() {
    check_map(&init_from_seed(7, 3), 0.03309581912082906, MAP_7);
}

fn check_comets(seed: u64, step: u64, ships: i64, len: usize, ends: [(f64, f64); 8]) {
    let g = init_from_seed(seed, 2);
    let mut draws = CometGen::new(comet_rng(seed, step));
    let paths = generate_comet_paths(
        &g.initial_planets,
        float(g.angular_velocity),
        step as i64,
        &g.comet_planet_ids,
        4.0,
        &mut draws,
    )
    .unwrap();
    assert_eq!(draws.draw_ships(), Some(ships));
    assert_eq!(paths.len(), 4);
    for (k, path) in paths.iter().enumerate() {
        assert_eq!(path.len(), len);
        let (a, b) = (path[0], path[len - 1]);
        assert!(near(float(a.x), ends[2 * k].0) && near(float(a.y), ends[2 * k].1));
        assert!(near(float(b.x), ends[2 * k + 1].0) && near(float(b.y), ends[2 * k + 1].1));
    }
}

#[test]
fn generate_comet_paths_matches_cpython() {

    check_comets(
        42,
        50,
        28,
        34,
        [
            (99.73055888532963, 24.760268518554582),
            (43.052694197538656, 99.26614722310836),
            (75.23973148144542, 99.73055888532963),
            (0.7338527768916379, 43.052694197538656),
            (24.760268518554582, 0.26944111467037146),
            (99.26614722310836, 56.947305802461344),
            (0.26944111467037146, 75.23973148144542),
            (56.947305802461344, 0.7338527768916379),
        ],
    );

    check_comets(
        42,
        150,
        14,
        32,
        [
            (97.14872855935499, 46.834991715603465),
            (31.229179025449476, 99.87567485335977),
            (53.165008284396535, 97.14872855935499),
            (0.12432514664023131, 31.229179025449476),
            (46.834991715603465, 2.8512714406450073),
            (99.87567485335977, 68.77082097455053),
            (2.8512714406450073, 53.165008284396535),
            (68.77082097455053, 0.12432514664023131),
        ],
    );

    check_comets(
        1602569207,
        50,
        5,
        33,
        [
            (98.46659015260605, 32.32125232477244),
            (45.66762619991793, 98.81524055726686),
            (67.67874767522756, 98.46659015260605),
            (1.1847594427331387, 45.66762619991793),
            (32.32125232477244, 1.5334098473939548),
            (98.81524055726686, 54.33237380008207),
            (1.5334098473939548, 67.67874767522756),
            (54.33237380008207, 1.1847594427331387),
        ],
    );

    check_comets(
        123,
        450,
        11,
        35,
        [
            (98.97982359615112, 19.784782383916856),
            (36.47358126304658, 97.98500877704384),
            (80.21521761608315, 98.97982359615112),
            (2.014991222956155, 36.47358126304658),
            (19.784782383916856, 1.020176403848879),
            (97.98500877704384, 63.52641873695342),
            (1.020176403848879, 80.21521761608315),
            (63.52641873695342, 2.014991222956155),
        ],
    );

}

/// Orders that depend on the state of the game alone.
fn script(g: &GameState, n: usize, cur_step: i64) -> Vec<Vec<Move>> {
    (0..n as i64)
        .map(|p| {
            g.planets
                .iter()
                .filter(|pl| pl.owner == p && pl.ships >= 8)
                .map(|pl| Move {
                    from_id: pl.id,
                    angle: double(0.37 * cur_step as f64 + 1.1 * pl.id as f64 + 0.7 * p as f64),
                    ships: pl.ships / 2,
                })
                .collect()
        })
        .collect()
}

struct Check {
    step: i64,
    planets: usize,
    fleets: usize,
    launched: i64,
    held: &'static [i64],
    flying: &'static [i64],
    neutral: i64,
    x_sum: f64,
}

fn play(seed: u64, n: usize, checks: &[Check], end: i64, rewards: &[i64]) {
    let cfg = Config::default();
    let mut g = init_from_seed(seed, n);
    let mut at = 0;
    for cur_step in 0..500 {
        let actions = script(&g, n, cur_step);
        let out = step_in_place(&mut g, &actions, cur_step, &cfg, seed);
        if at < checks.len() && checks[at].step == cur_step {
            let c = &checks[at];
            at += 1;
            assert_eq!((g.planets.len(), g.fleets.len(), g.next_fleet_id), (c.planets, c.fleets, c.launched));
            let held = |o: i64| g.planets.iter().filter(|p| p.owner == o).map(|p| p.ships).sum::<i64>();
            let flying = |o: i64| g.fleets.iter().filter(|f| f.owner == o).map(|f| f.ships).sum::<i64>();
            for p in 0..n {
                assert_eq!(held(p as i64), c.held[p], "step {cur_step}");
                assert_eq!(flying(p as i64), c.flying[p], "step {cur_step}");
            }
            assert_eq!(held(-1), c.neutral);
            let x_sum: f64 = g.planets.iter().map(|p| float(p.x)).sum::<f64>()
                + g.fleets.iter().map(|f| float(f.x)).sum::<f64>();
            assert!((x_sum - c.x_sum).abs() < 1e-6, "step {cur_step}: {x_sum} and {}", c.x_sum);
        }
        if out.terminated {
            assert_eq!(cur_step, end);
            assert_eq!(out.rewards.unwrap(), rewards);
            assert_eq!(at, checks.len());
            return;
        }
        assert!(out.rewards.is_none());
    }
    panic!("the game does not end");
}

#[test]
fn a_scripted_game_of_two() {
    let checks = [
        Check {
            step: 0,
            planets: 20,
            fleets: 2,
            launched: 2,
            held: &[8, 8],
            flying: &[5, 5],
            neutral: 272,
            x_sum: 1101.302619481485,
        },
        Check {
            step: 1,
            planets: 20,
            fleets: 4,
            launched: 4,
            held: &[7, 7],
            flying: &[9, 9],
            neutral: 272,
            x_sum: 1204.0201703415478,
        },
        Check {
            step: 10,
            planets: 20,
            fleets: 8,
            launched: 16,
            held: &[7, 7],
            flying: &[18, 18],
            neutral: 272,
            x_sum: 1425.0866481860726,
        },
        Check {
            step: 48,
            planets: 20,
            fleets: 26,
            launched: 69,
            held: &[14, 8],
            flying: &[60, 53],
            neutral: 244,
            x_sum: 2468.4234454067946,
        },
        Check {
            step: 49,
            planets: 24,
            fleets: 28,
            launched: 71,
            held: &[15, 7],
            flying: &[64, 57],
            neutral: 356,
            x_sum: 2770.434853046281,
        },
        Check {
            step: 50,
            planets: 24,
            fleets: 29,
            launched: 72,
            held: &[16, 10],
            flying: &[68, 57],
            neutral: 356,
            x_sum: 2855.209618068514,
        },
        Check {
            step: 75,
            planets: 24,
            fleets: 38,
            launched: 119,
            held: &[15, 8],
            flying: &[100, 67],
            neutral: 329,
            x_sum: 3313.7903487140507,
        },
        Check {
            step: 100,
            planets: 20,
            fleets: 49,
            launched: 180,
            held: &[26, 31],
            flying: &[132, 82],
            neutral: 201,
            x_sum: 3187.9687750965822,
        },
        Check {
            step: 149,
            planets: 24,
            fleets: 93,
            launched: 404,
            held: &[39, 32],
            flying: &[186, 223],
            neutral: 190,
            x_sum: 5452.343671582716,
        },
        Check {
            step: 200,
            planets: 20,
            fleets: 164,
            launched: 755,
            held: &[79, 35],
            flying: &[475, 241],
            neutral: 32,
            x_sum: 9567.56216564688,
        },
        Check {
            step: 350,
            planets: 24,
            fleets: 276,
            launched: 2695,
            held: &[125, 38],
            flying: &[980, 295],
            neutral: 185,
            x_sum: 14701.62556900398,
        },
    ];
    play(42, 2, &checks, 498, &[1, -1]);
}

#[test]
fn a_scripted_game_of_four() {
    let checks = [
        Check {
            step: 0,
            planets: 20,
            fleets: 3,
            launched: 4,
            held: &[9, 9, 9, 9],
            flying: &[5, 5, 5, 0],
            neutral: 408,
            x_sum: 1170.3914129980012,
        },
        Check {
            step: 1,
            planets: 20,
            fleets: 7,
            launched: 8,
            held: &[9, 9, 9, 9],
            flying: &[9, 9, 9, 4],
            neutral: 408,
            x_sum: 1372.4154891763533,
        },
        Check {
            step: 10,
            planets: 20,
            fleets: 22,
            launched: 44,
            held: &[9, 9, 9, 9],
            flying: &[17, 16, 21, 36],
            neutral: 408,
            x_sum: 2052.5915878383553,
        },
        Check {
            step: 48,
            planets: 20,
            fleets: 75,
            launched: 196,
            held: &[9, 9, 9, 9],
            flying: &[76, 80, 64, 80],
            neutral: 380,
            x_sum: 4688.637079814269,
        },
        Check {
            step: 49,
            planets: 24,
            fleets: 76,
            launched: 200,
            held: &[9, 9, 9, 9],
            flying: &[80, 84, 64, 76],
            neutral: 388,
            x_sum: 4960.537088358215,
        },
        Check {
            step: 50,
            planets: 24,
            fleets: 78,
            launched: 204,
            held: &[9, 9, 9, 9],
            flying: &[84, 88, 68, 72],
            neutral: 388,
            x_sum: 5083.593694100414,
        },
        Check {
            step: 75,
            planets: 24,
            fleets: 89,
            launched: 336,
            held: &[16, 17, 17, 31],
            flying: &[78, 82, 80, 132],
            neutral: 353,
            x_sum: 5345.124297395074,
        },
        Check {
            step: 100,
            planets: 20,
            fleets: 143,
            launched: 530,
            held: &[26, 8, 22, 36],
            flying: &[161, 88, 142, 251],
            neutral: 334,
            x_sum: 8026.890835270115,
        },
        Check {
            step: 149,
            planets: 24,
            fleets: 154,
            launched: 925,
            held: &[21, 11, 34, 38],
            flying: &[195, 66, 180, 284],
            neutral: 372,
            x_sum: 8646.697535088562,
        },
        Check {
            step: 200,
            planets: 20,
            fleets: 174,
            launched: 1352,
            held: &[21, 5, 29, 44],
            flying: &[189, 57, 204, 352],
            neutral: 227,
            x_sum: 9859.273137673057,
        },
        Check {
            step: 350,
            planets: 24,
            fleets: 196,
            launched: 2725,
            held: &[29, 8, 26, 82],
            flying: &[176, 68, 186, 463],
            neutral: 206,
            x_sum: 10535.565423220381,
        },
    ];
    play(123, 4, &checks, 498, &[-1, -1, -1, 1]);
}

#[test]
fn producer_lite_smoke() {
    let g = init_from_seed(42, 2);
    let cfg = Config::default();
    let agent = ProducerLiteAgent::default();
    let moves = producer_lite_moves(&agent, &g, 0, &cfg, 0);
    for m in &moves {
        let p = g.planets.iter().find(|p| p.id == m.from_id).unwrap();
        assert_eq!(p.owner, 0);
        assert!(m.ships > 0);
    }
}

#[test]
fn producer_lite_4p_smoke() {
    let g = init_from_seed(123, 4);
    let cfg = Config::default();
    let agent = ProducerLiteAgent::default();
    for player in 0..4i64 {
        let moves = producer_lite_moves(&agent, &g, player, &cfg, 0);
        for m in &moves {
            let p = g.planets.iter().find(|p| p.id == m.from_id).unwrap();
            assert_eq!(p.owner, player);
        }
    }
}

#[test]
fn the_planner_beats_a_player_that_holds() {
    let cfg = Config::default();
    let agent = ProducerLiteAgent::default();
    let mut g = init_from_seed(42, 2);
    for cur_step in 0..500 {
        let moves = producer_lite_moves(&agent, &g, 0, &cfg, cur_step);
        for (i, m) in moves.iter().enumerate() {
            let p = g.planets.iter().find(|p| p.id == m.from_id).unwrap();
            assert_eq!(p.owner, 0);
            assert!(m.ships > 0);
            let before: i64 = moves[..i].iter().filter(|o| o.from_id == m.from_id).map(|o| o.ships).sum();
            assert!(before + m.ships <= p.ships);
        }
        let out = step_in_place(&mut g, &[moves, Vec::new()], cur_step, &cfg, 42);
        if out.terminated {
            assert_eq!(out.rewards, Some(vec![1, -1]));
            return;
        }
    }
    panic!("the game does not end");
}

/// Games in which all players plan: `marks[k]` sums up the orders of step `k`.
fn play_planned(seed: u64, n: usize, marks: &[i64]) {
    let cfg = Config::default();
    let agent = ProducerLiteAgent::default();
    let mut g = init_from_seed(seed, n);
    for (cur_step, mark) in marks.iter().enumerate() {
        let cur_step = cur_step as i64;
        let actions: Vec<Vec<Move>> =
            (0..n as i64).map(|p| producer_lite_moves(&agent, &g, p, &cfg, cur_step)).collect();
        let mut sum = 0;
        for (p, moves) in actions.iter().enumerate() {
            for (i, m) in moves.iter().enumerate() {
                sum += (i as i64 + 1) * (1000 * m.from_id + m.ships) + 7 * p as i64;
            }
        }
        assert_eq!(sum, *mark, "step {cur_step}");
        step_in_place(&mut g, &actions, cur_step, &cfg, seed);
    }
}

#[test]
fn two_planners_play() {
    let marks = [
        3027, 0, 0, 3025, 0, 0, 0, 0, 0, 3043,
        0, 0, 0, 0, 19045, 0, 0, 0, 0, 0,
        3073, 35071, 0, 0, 0, 0, 0, 0, 0, 0,
        27095, 0, 0, 0, 11061, 0, 0, 0, 0, 0,
        27037, 3133, 35175, 27111, 27039, 0, 0, 27031, 0, 0,
        35051, 73290, 27047, 3079, 105238, 25064, 41304, 0, 278474, 166364,
        0, 27127, 3025, 162465, 0, 0, 3081, 90561, 97086, 105194,
        3105, 11147, 66361, 49118, 3019, 0, 50125, 41106, 106293, 27035,
        3043, 97174, 82433, 3033, 11041, 89198, 35039, 3031, 3047, 114411,
        0, 74411, 0, 146377, 41114, 98261, 0, 0, 41170, 114363,
        19063, 35039, 89090, 17140, 73076, 90397, 198682, 3111, 11027, 57120,
        81174, 33114, 170471, 33134, 150322, 0, 0, 11057, 33140, 82211,
        41086, 73170, 41106, 0, 162599, 25192, 33126, 49250, 229460, 76177,
    ];
    play_planned(42, 2, &marks);
}

#[test]
fn four_planners_play() {
    let marks = [
        0, 6098, 0, 0, 0, 0, 0, 0, 0, 0,
        0, 0, 0, 0, 0, 0, 0, 0, 0, 0,
        0, 6362, 0, 0, 0, 0, 0, 22394, 6154, 0,
        0, 0, 0, 0, 22182, 6154, 0, 0, 0, 0,
        0, 22182, 6154, 0, 0, 0, 0, 22162, 0, 0,
        0, 0, 0, 0, 0, 22202, 0, 0, 22102, 0,
        22082, 0, 22082, 0, 22082, 50492, 54366, 0, 0, 0,
    ];
    play_planned(123, 4, &marks);
}
