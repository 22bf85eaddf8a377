//! Recorded games, read from JSON.

use ow_rs::document::{node, parse, Node};
use ow_rs::double::{Double, Point};
use ow_rs::observation::build_obs;
use ow_rs::replay::{
    actions_at, comet_group_from, fleet_from, obs_of, planet_from, read_obs, state_from_obs, step_from_obs,
};
use ow_rs::state::{Fleet, Move, Planet};
use serde_json::Value;

fn double(x: f64) -> Double {
    Double { bits: x.to_bits() }
}

fn doc(text: &str) -> Node {
    parse(text).unwrap()
}

fn tag(v: &Node) -> &'static str {
    match v {
        Node::Null => "null",
        Node::Flag(_) => "flag",
        Node::Number(_) => "number",
        Node::Text(_) => "text",
        Node::List(_) => "list",
        Node::Object(_) => "object",
    }
}

#[test]
fn documents_are_read() {
    let v = doc("[null, true, -3, 2.5, \"a\\u00e9\", [1, [2]], {\"b\": 1, \"a\": [7], \"b\": 2}]");
    let tags: Vec<&str> = v.as_array().unwrap().iter().map(tag).collect();
    assert_eq!(tags, vec!["null", "flag", "number", "number", "text", "list", "object"]);
    assert!(matches!(v.item(1), Some(Node::Flag(true))));
    assert!(matches!(v.item(4), Some(Node::Text(s)) if s == "a\u{e9}"));
    assert_eq!(v.item(2).unwrap().as_i64(), Some(-3));
    assert_eq!(v.item(2).unwrap().as_f64(), Some(double(-3.0)));
    assert_eq!(v.item(3).unwrap().as_i64(), None);
    assert_eq!(v.item(3).unwrap().as_f64(), Some(double(2.5)));
    let inner = v.item(5).and_then(|x| x.item(1)).and_then(|x| x.item(0));
    assert_eq!(inner.and_then(|x| x.as_i64()), Some(2));
    let object = v.item(6).unwrap();
    assert_eq!(object.member("b").and_then(|x| x.as_i64()), Some(2));
    assert_eq!(object.member("a").and_then(|x| x.item(0)).and_then(|x| x.as_i64()), Some(7));
    assert!(object.member("c").is_none() && object.item(0).is_none() && object.as_array().is_none());
    assert!(v.item(7).is_none() && v.member("a").is_none() && v.as_i64().is_none() && v.as_f64().is_none());
}

#[test]
fn large_numbers_are_doubles() {
    let v = doc("[9223372036854775807, 9223372036854775808, -9223372036854775808, 1e300, 1.0]");
    let ints: Vec<Option<i64>> = v.as_array().unwrap().iter().map(|x| x.as_i64()).collect();
    assert_eq!(ints, vec![Some(i64::MAX), None, Some(i64::MIN), None, None]);
    assert_eq!(v.item(1).unwrap().as_f64(), Some(double(9223372036854775808.0)));
    assert_eq!(v.item(3).unwrap().as_f64(), Some(double(1e300)));
}

#[test]
fn texts_that_are_no_documents() {
    for bad in ["", "[1, 2", "{\"a\" 1}", "nul", "[1] 2", "01", "1e400", "\"a"] {
        assert!(parse(bad).is_none(), "{bad}");
    }
    let deep = format!("{}{}", "[".repeat(127), "]".repeat(127));
    assert!(parse(&deep).is_some());
    let deeper = format!("{}{}", "[".repeat(128), "]".repeat(128));
    assert!(parse(&deeper).is_none());
}

#[test]
fn values_are_taken_over() {
    let v: Value = serde_json::from_str("{\"x\": [1, {\"y\": false}]}").unwrap();
    let n = node(&v);
    let y = n.member("x").and_then(|x| x.item(1)).and_then(|x| x.member("y"));
    assert!(matches!(y, Some(Node::Flag(false))));
}

#[test]
fn planets_and_fleets_are_lists_of_seven() {
    let p = Planet {
        id: 3,
        owner: -1,
        x: double(1.5),
        y: double(2.0),
        radius: double(0.25),
        ships: 40,
        production: 5,
    };
    assert_eq!(planet_from(&doc("[3, -1, 1.5, 2, 0.25, 40, 5]")), Some(p));
    assert_eq!(planet_from(&doc("[3, -1, 1.5, 2, 0.25, 40, 5, 9]")), Some(p));
    for bad in [
        "[3, -1, 1.5, 2, 0.25, 40]",
        "[3.0, -1, 1.5, 2, 0.25, 40, 5]",
        "[3, -1, \"1.5\", 2, 0.25, 40, 5]",
        "[3, -1, 1.5, 2, 0.25, 40.5, 5]",
        "[3, -1, 1.5, 2, 0.25, 40, null]",
        "[9223372036854775808, -1, 1.5, 2, 0.25, 40, 5]",
        "{}",
        "true",
    ] {
        assert_eq!(planet_from(&doc(bad)), None, "{bad}");
    }
    let f = Fleet {
        id: 8,
        owner: 1,
        x: double(10.0),
        y: double(20.5),
        angle: double(-0.5),
        from_planet_id: 3,
        ships: 12,
    };
    assert_eq!(fleet_from(&doc("[8, 1, 10, 20.5, -0.5, 3, 12]")), Some(f));
    assert_eq!(fleet_from(&doc("[8, 1, 10, 20.5, -0.5, 3.5, 12]")), None);
}

#[test]
fn comet_groups_are_objects() {
    let text = "{\"planet_ids\": [4, 5], \"paths\": [[[1, 2.5], [3, 4, 9]], []], \"path_index\": -1}";
    let g = comet_group_from(&doc(text)).unwrap();
    assert_eq!((g.planet_ids, g.path_index), (vec![4, 5], -1));
    let at = |x: f64, y: f64| Point { x: double(x), y: double(y) };
    assert_eq!(g.paths, vec![vec![at(1.0, 2.5), at(3.0, 4.0)], vec![]]);
    for bad in [
        "{\"planet_ids\": [4.5], \"paths\": [], \"path_index\": -1}",
        "{\"planet_ids\": [4], \"paths\": [[[1]]], \"path_index\": -1}",
        "{\"planet_ids\": [4], \"paths\": [7], \"path_index\": -1}",
        "{\"planet_ids\": [4], \"paths\": 7, \"path_index\": -1}",
        "{\"planet_ids\": [4], \"paths\": []}",
        "{\"paths\": [], \"path_index\": -1}",
        "[]",
    ] {
        assert!(comet_group_from(&doc(bad)).is_none(), "{bad}");
    }
}

const PARTS: [(&str, &str); 7] = [
    ("planets", "[[3, 0, 1.5, 2, 0.25, 40, 5]]"),
    ("fleets", "[[8, 1, 10, 20.5, -0.5, 3, 12]]"),
    ("next_fleet_id", "9"),
    ("comets", "[{\"planet_ids\": [3], \"paths\": [[[1, 2]]], \"path_index\": 0}]"),
    ("comet_planet_ids", "[3]"),
    ("initial_planets", "[[3, -1, 1.5, 2, 0.25, 10, 5]]"),
    ("angular_velocity", "0.03125"),
];

/// The observation, with part `k` replaced by `other`.
fn observation(k: usize, other: &str) -> String {
    let parts: Vec<String> = PARTS
        .iter()
        .enumerate()
        .map(|(i, (name, text))| format!("\"{}\": {}", name, if i == k { other } else { *text }))
        .collect();
    format!("{{{}}}", parts.join(", "))
}

#[test]
fn states_are_read_from_observations() {
    let g = state_from_obs(&doc(&observation(9, ""))).unwrap();
    assert_eq!((g.planets.len(), g.planets[0].ships, g.planets[0].owner), (1, 40, 0));
    assert_eq!((g.fleets.len(), g.fleets[0].ships, g.next_fleet_id), (1, 12, 9));
    assert_eq!((g.comets.len(), g.comet_planet_ids), (1, vec![3]));
    assert_eq!((g.initial_planets.len(), g.initial_planets[0].ships), (1, 10));
    assert_eq!(g.angular_velocity, double(0.03125));
    for k in 0..7 {
        for bad in ["null", "\"x\"", "[null]", "{}"] {
            assert!(state_from_obs(&doc(&observation(k, bad))).is_none(), "{k} {bad}");
        }
    }
    assert!(state_from_obs(&doc("[]")).is_none());
}

#[test]
fn observations_give_their_step() {
    assert_eq!(step_from_obs(&doc("{\"step\": 12}")), 12);
    assert_eq!(step_from_obs(&doc("{\"step\": 1.5}")), 0);
    assert_eq!(step_from_obs(&doc("{}")), 0);
    let text = observation(9, "");
    let (g, step) = read_obs(&text).unwrap();
    assert_eq!((g.planets.len(), step), (1, 0));
    let dated = format!("{}, \"step\": 77}}", &text[..text.len() - 1]);
    assert_eq!(read_obs(&dated).map(|(_, k)| k), Some(77));
    assert!(read_obs("{}").is_none());
    assert!(read_obs(&text[1..]).is_none());
}

#[test]
fn observations_are_those_of_the_first_player() {
    let steps = doc("[[], [{\"observation\": 4}, {\"observation\": 5}], [{}]]");
    assert_eq!(obs_of(&steps, 1).as_i64(), Some(4));
    for k in [0, 2, 3] {
        assert_eq!(tag(obs_of(&steps, k)), "null");
    }
}

#[test]
fn orders_are_lists_of_three() {
    let sent = |from_id: i64, angle: f64, ships: i64| Move { from_id, angle: double(angle), ships };
    let steps = doc(
        "[[{\"action\": [[3, 0.5, 7], [4, 1, 8.9], [5, 2], 6, [7, 0, -2.5]]}, {\"action\": null}, {}]]",
    );
    let all = actions_at(&steps, 0, 4).unwrap();
    assert_eq!(all[0], vec![sent(3, 0.5, 7), sent(4, 1.0, 8), sent(7, 0.0, -2)]);
    assert_eq!(all.len(), 4);
    assert!(all[1..].iter().all(|m| m.is_empty()));
    assert!(actions_at(&steps, 9, 2).unwrap().iter().all(|m| m.is_empty()));
    assert!(actions_at(&steps, 0, 0).unwrap().is_empty());
    for bad in ["[[3.5, 0.5, 7]]", "[[3, null, 7]]", "[[3, 0.5, \"7\"]]"] {
        let steps = doc(&format!("[[{{}}, {{\"action\": {bad}}}]]"));
        assert!(actions_at(&steps, 0, 2).is_none(), "{bad}");
        assert!(actions_at(&steps, 0, 1).is_some(), "{bad}");
    }
    let huge = actions_at(&doc("[[{\"action\": [[1, 0, 1e300]]}]]"), 0, 1).unwrap();
    assert_eq!(huge[0][0].ships, i64::MAX);
}

#[test]
fn observations_are_read_back() {
    let (g, _) = read_obs(&observation(9, "")).unwrap();
    let obs = build_obs(&g, 1, 42);
    let back = state_from_obs(&obs).unwrap();
    assert_eq!(back.planets, g.planets);
    assert_eq!(back.fleets, g.fleets);
    assert_eq!(back.next_fleet_id, g.next_fleet_id);
    assert_eq!(back.comets[0].planet_ids, g.comets[0].planet_ids);
    assert_eq!(back.comets[0].paths, g.comets[0].paths);
    assert_eq!(back.comets[0].path_index, g.comets[0].path_index);
    assert_eq!(back.comet_planet_ids, g.comet_planet_ids);
    assert_eq!(back.initial_planets, g.initial_planets);
    assert_eq!(back.angular_velocity, g.angular_velocity);
    assert_eq!(step_from_obs(&obs), 42);
    assert_eq!(obs.member("player").and_then(|v| v.as_i64()), Some(1));
    assert_eq!(obs.member("remainingOverageTime").and_then(|v| v.as_f64()), Some(double(60.0)));
    let names: Vec<&str> = match &obs {
        Node::Object(members) => members.iter().map(|m| m.name.as_str()).collect(),
        _ => Vec::new(),
    };
    assert_eq!(names[..4], ["planets", "fleets", "player", "angular_velocity"]);
    assert_eq!(names[4..], ["initial_planets", "next_fleet_id", "comet_planet_ids", "remainingOverageTime", "step", "comets"]);
}
