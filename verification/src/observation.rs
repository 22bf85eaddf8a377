//! What a player is told of the game: the document that an observation is.
//!
//! Reading it gives the game back.

use crate::document::{Member, Node, Number};
use crate::double::{Double, Point};
use crate::state::{CometGroup, Fleet, GameState, Planet};
use vstd::prelude::*;

verus! {

use crate::document::{Entry, Tree};
use crate::state::{GameModel, GroupModel};

/// The time that a player has left, which is not kept: 60.0, as the bits of a
/// double.
pub const OVERAGE_TIME: u64 = 0x404e_0000_0000_0000;

/// How numbers are written: a document may also give the double of an integer, and
/// the integer of a double.
pub struct Hand {
    pub doubles: spec_fn(i64) -> Option<Double>,
    pub integers: spec_fn(Double) -> Option<i64>,
}

/// Integers as integers alone, and doubles as doubles alone.
pub open spec fn plain() -> Hand {
    Hand { doubles: |v: i64| None, integers: |x: Double| None }
}

impl Hand {
    /// The integer, written.
    pub open spec fn whole(self, v: i64) -> Tree {
        Tree::Number(Number { integer: Some(v), double: (self.doubles)(v) })
    }

    /// The double, written.
    pub open spec fn part(self, x: Double) -> Tree {
        Tree::Number(Number { integer: (self.integers)(x), double: Some(x) })
    }

    pub open spec fn planet(self, p: Planet) -> Tree {
        Tree::List(
            seq![
                self.whole(p.id),
                self.whole(p.owner),
                self.part(p.x),
                self.part(p.y),
                self.part(p.radius),
                self.whole(p.ships),
                self.whole(p.production),
            ],
        )
    }

    pub open spec fn fleet(self, f: Fleet) -> Tree {
        Tree::List(
            seq![
                self.whole(f.id),
                self.whole(f.owner),
                self.part(f.x),
                self.part(f.y),
                self.part(f.angle),
                self.whole(f.from_planet_id),
                self.whole(f.ships),
            ],
        )
    }

    pub open spec fn point(self, p: Point) -> Tree {
        Tree::List(seq![self.part(p.x), self.part(p.y)])
    }

    pub open spec fn planets(self, planets: Seq<Planet>) -> Seq<Tree> {
        Seq::new(planets.len(), |i: int| self.planet(planets[i]))
    }

    pub open spec fn fleets(self, fleets: Seq<Fleet>) -> Seq<Tree> {
        Seq::new(fleets.len(), |i: int| self.fleet(fleets[i]))
    }

    pub open spec fn ids(self, ids: Seq<i64>) -> Seq<Tree> {
        Seq::new(ids.len(), |i: int| self.whole(ids[i]))
    }

    pub open spec fn path(self, path: Seq<Point>) -> Seq<Tree> {
        Seq::new(path.len(), |i: int| self.point(path[i]))
    }

    pub open spec fn paths(self, paths: Seq<Seq<Point>>) -> Seq<Tree> {
        Seq::new(paths.len(), |i: int| Tree::List(self.path(paths[i])))
    }

    pub open spec fn group(self, g: GroupModel) -> Tree {
        Tree::Object(
            seq![
                Entry { name: "planet_ids"@, value: Tree::List(self.ids(g.planet_ids)) },
                Entry { name: "paths"@, value: Tree::List(self.paths(g.paths)) },
                Entry { name: "path_index"@, value: self.whole(g.path_index as i64) },
            ],
        )
    }

    pub open spec fn groups(self, comets: Seq<GroupModel>) -> Seq<Tree> {
        Seq::new(comets.len(), |i: int| self.group(comets[i]))
    }

    /// The observation of `player` at step `cur_step`.
    pub open spec fn observation(self, g: GameModel, player: i64, cur_step: i64) -> Tree {
        Tree::Object(
            seq![
                Entry { name: "planets"@, value: Tree::List(self.planets(g.planets)) },
                Entry { name: "fleets"@, value: Tree::List(self.fleets(g.fleets)) },
                Entry { name: "player"@, value: self.whole(player) },
                Entry { name: "angular_velocity"@, value: self.part(g.angular_velocity) },
                Entry { name: "initial_planets"@, value: Tree::List(self.planets(g.initial_planets)) },
                Entry { name: "next_fleet_id"@, value: self.whole(g.next_fleet_id as i64) },
                Entry { name: "comet_planet_ids"@, value: Tree::List(self.ids(g.comet_planet_ids)) },
                Entry { name: "remainingOverageTime"@, value: self.part(Double { bits: OVERAGE_TIME }) },
                Entry { name: "step"@, value: self.whole(cur_step) },
                Entry { name: "comets"@, value: Tree::List(self.groups(g.comets)) },
            ],
        )
    }
}

proof fn lemma_planets(w: Hand, planets: Seq<Planet>)
    ensures
        crate::replay::planets_of(w.planets(planets)) == Some(planets),
    decreases planets.len(),
{
    let all = w.planets(planets);
    if planets.len() > 0 {
        lemma_planets(w, planets.drop_last());
        assert(all.drop_last() =~= w.planets(planets.drop_last()));
        assert(crate::replay::planet_of(all.last()) == Some(planets.last()));
        assert(planets.drop_last().push(planets.last()) =~= planets);
    } else {
        assert(planets =~= Seq::<Planet>::empty());
    }
}

proof fn lemma_fleets(w: Hand, fleets: Seq<Fleet>)
    ensures
        crate::replay::fleets_of(w.fleets(fleets)) == Some(fleets),
    decreases fleets.len(),
{
    let all = w.fleets(fleets);
    if fleets.len() > 0 {
        lemma_fleets(w, fleets.drop_last());
        assert(all.drop_last() =~= w.fleets(fleets.drop_last()));
        assert(crate::replay::fleet_of(all.last()) == Some(fleets.last()));
        assert(fleets.drop_last().push(fleets.last()) =~= fleets);
    } else {
        assert(fleets =~= Seq::<Fleet>::empty());
    }
}

proof fn lemma_ids(w: Hand, ids: Seq<i64>)
    ensures
        crate::replay::ints_of(w.ids(ids)) == Some(ids),
    decreases ids.len(),
{
    if ids.len() > 0 {
        lemma_ids(w, ids.drop_last());
        assert(w.ids(ids).drop_last() =~= w.ids(ids.drop_last()));
        assert(ids.drop_last().push(ids.last()) =~= ids);
    } else {
        assert(ids =~= Seq::<i64>::empty());
    }
}

proof fn lemma_path(w: Hand, path: Seq<Point>)
    ensures
        crate::replay::points_of(w.path(path)) == Some(path),
    decreases path.len(),
{
    let all = w.path(path);
    if path.len() > 0 {
        lemma_path(w, path.drop_last());
        assert(all.drop_last() =~= w.path(path.drop_last()));
        assert(crate::replay::point_of(all.last()) == Some(path.last()));
        assert(path.drop_last().push(path.last()) =~= path);
    } else {
        assert(path =~= Seq::<Point>::empty());
    }
}

proof fn lemma_paths(w: Hand, paths: Seq<Seq<Point>>)
    ensures
        crate::replay::paths_of(w.paths(paths)) == Some(paths),
    decreases paths.len(),
{
    if paths.len() > 0 {
        lemma_paths(w, paths.drop_last());
        lemma_path(w, paths.last());
        assert(w.paths(paths).drop_last() =~= w.paths(paths.drop_last()));
        assert(paths.drop_last().push(paths.last()) =~= paths);
    } else {
        assert(paths =~= Seq::<Seq<Point>>::empty());
    }
}

/// The position along the paths can be written.
pub open spec fn writable(g: GroupModel) -> bool {
    i64::MIN <= g.path_index <= i64::MAX
}

proof fn lemma_group(w: Hand, g: GroupModel)
    requires
        writable(g),
    ensures
        crate::replay::group_of(w.group(g)) == Some(g),
{
    reveal_strlit("planet_ids");
    reveal_strlit("paths");
    reveal_strlit("path_index");
    let entries = w.group(g)->Object_0;
    assert("planet_ids"@.len() == 10 && "paths"@.len() == 5 && "path_index"@.len() == 10);
    assert("planet_ids"@[1] != "path_index"@[1]);
    lemma_found(entries, "planet_ids"@, 0, 3);
    lemma_found(entries, "paths"@, 1, 3);
    lemma_found(entries, "path_index"@, 2, 3);
    lemma_ids(w, g.planet_ids);
    lemma_paths(w, g.paths);
}

proof fn lemma_groups(w: Hand, comets: Seq<GroupModel>)
    requires
        forall|i: int| 0 <= i < comets.len() ==> writable(#[trigger] comets[i]),
    ensures
        crate::replay::groups_of(w.groups(comets)) == Some(comets),
    decreases comets.len(),
{
    if comets.len() > 0 {
        let front = comets.drop_last();
        assert forall|i: int| 0 <= i < front.len() implies writable(#[trigger] front[i]) by {
            assert(front[i] == comets[i]);
        }
        lemma_groups(w, front);
        assert(writable(comets[comets.len() - 1]));
        lemma_group(w, comets.last());
        assert(w.groups(comets).drop_last() =~= w.groups(front));
        assert(front.push(comets.last()) =~= comets);
    } else {
        assert(comets =~= Seq::<GroupModel>::empty());
    }
}

/// The first member with the name is found.
proof fn lemma_found(entries: Seq<Entry>, name: Seq<char>, k: int, n: nat)
    requires
        0 <= k < entries.len(),
        n <= entries.len(),
        entries[k].name == name,
        forall|j: int| 0 <= j < k ==> (#[trigger] entries[j]).name != name,
    ensures
        crate::document::entry_named(entries, name, n) == (if k < n {
            Some(entries[k].value)
        } else {
            None
        }),
    decreases n,
{
    if n > 0 {
        lemma_found(entries, name, k, (n - 1) as nat);
    }
}

/// The members of an observation are found by their names.
proof fn lemma_members(w: Hand, g: GameModel, player: i64, cur_step: i64)
    ensures
        ({
            let obs = w.observation(g, player, cur_step);
            let entries = obs->Object_0;
            &&& obs.get("planets"@) == Some(entries[0].value)
            &&& obs.get("fleets"@) == Some(entries[1].value)
            &&& obs.get("angular_velocity"@) == Some(entries[3].value)
            &&& obs.get("initial_planets"@) == Some(entries[4].value)
            &&& obs.get("next_fleet_id"@) == Some(entries[5].value)
            &&& obs.get("comet_planet_ids"@) == Some(entries[6].value)
            &&& obs.get("step"@) == Some(entries[8].value)
            &&& obs.get("comets"@) == Some(entries[9].value)
            &&& obs.get("player"@) == Some(entries[2].value)
            &&& obs.get("remainingOverageTime"@) == Some(entries[7].value)
        }),
{
    let entries = w.observation(g, player, cur_step)->Object_0;
    reveal_strlit("planets");
    reveal_strlit("fleets");
    reveal_strlit("player");
    reveal_strlit("angular_velocity");
    reveal_strlit("initial_planets");
    reveal_strlit("next_fleet_id");
    reveal_strlit("comet_planet_ids");
    reveal_strlit("remainingOverageTime");
    reveal_strlit("step");
    reveal_strlit("comets");
    assert("planets"@.len() == 7 && "fleets"@.len() == 6 && "player"@.len() == 6);
    assert("angular_velocity"@.len() == 16 && "initial_planets"@.len() == 15 && "next_fleet_id"@.len() == 13);
    assert("comet_planet_ids"@.len() == 16 && "remainingOverageTime"@.len() == 20);
    assert("step"@.len() == 4 && "comets"@.len() == 6);
    assert("fleets"@[0] != "comets"@[0] && "player"@[0] != "comets"@[0]);
    assert("angular_velocity"@[0] != "comet_planet_ids"@[0]);
    lemma_found(entries, "planets"@, 0, 10);
    lemma_found(entries, "fleets"@, 1, 10);
    lemma_found(entries, "angular_velocity"@, 3, 10);
    lemma_found(entries, "initial_planets"@, 4, 10);
    lemma_found(entries, "next_fleet_id"@, 5, 10);
    lemma_found(entries, "comet_planet_ids"@, 6, 10);
    lemma_found(entries, "step"@, 8, 10);
    lemma_found(entries, "comets"@, 9, 10);
    lemma_found(entries, "player"@, 2, 10);
    lemma_found(entries, "remainingOverageTime"@, 7, 10);
}

/// Reading gives back what was written: the state of the game and the step, and whom it
/// was written for, however numbers are written. A player has always 60.0 left.
pub proof fn lemma_read_back(w: Hand, g: GameState, player: i64, cur_step: i64)
    ensures
        crate::replay::state_of(w.observation(g@, player, cur_step)) == Some(g@),
        crate::replay::step_of(w.observation(g@, player, cur_step)) == cur_step,
        w.observation(g@, player, cur_step).int_of("player"@) == Some(player),
        crate::replay::named_real(w.observation(g@, player, cur_step), "remainingOverageTime"@) == Some(
            Double { bits: 0x404e_0000_0000_0000 },
        ),
{
    lemma_members(w, g@, player, cur_step);
    lemma_planets(w, g@.planets);
    lemma_planets(w, g@.initial_planets);
    lemma_fleets(w, g@.fleets);
    lemma_ids(w, g@.comet_planet_ids);
    assert forall|i: int| 0 <= i < g@.comets.len() implies writable(#[trigger] g@.comets[i]) by {
        assert(g@.comets[i] == g.comets@[i]@);
    }
    lemma_groups(w, g@.comets);
}

fn whole(v: i64) -> (n: Node)
    ensures
        n.tree() == plain().whole(v),
{
    Node::Number(Number { integer: Some(v), double: None })
}

fn part(x: Double) -> (n: Node)
    ensures
        n.tree() == plain().part(x),
{
    Node::Number(Number { integer: None, double: Some(x) })
}

fn list(items: Vec<Node>) -> (n: Node)
    ensures
        n.tree() == Tree::List(crate::document::trees(items@)),
{
    let n = Node::List(items);
    proof {
        crate::document::lemma_tree(n);
    }
    n
}

fn named(name: &str, value: Node) -> (m: Member)
    ensures
        m.name@ == name@,
        m.value == value,
{
    Member { name: name.to_owned(), value }
}

fn planet_node(p: &Planet) -> (n: Node)
    ensures
        n.tree() == plain().planet(*p),
{
    let items = vec![
        whole(p.id),
        whole(p.owner),
        part(p.x),
        part(p.y),
        part(p.radius),
        whole(p.ships),
        whole(p.production),
    ];
    assert(crate::document::trees(items@) =~= plain().planet(*p)->List_0);
    list(items)
}

fn fleet_node(f: &Fleet) -> (n: Node)
    ensures
        n.tree() == plain().fleet(*f),
{
    let items = vec![
        whole(f.id),
        whole(f.owner),
        part(f.x),
        part(f.y),
        part(f.angle),
        whole(f.from_planet_id),
        whole(f.ships),
    ];
    assert(crate::document::trees(items@) =~= plain().fleet(*f)->List_0);
    list(items)
}

fn planets_node(planets: &Vec<Planet>) -> (n: Node)
    ensures
        n.tree() == Tree::List(plain().planets(planets@)),
{
    let mut items: Vec<Node> = Vec::new();
    while items.len() < planets.len()
        invariant
            items@.len() <= planets@.len(),
            forall|i: int| 0 <= i < items@.len() ==> (#[trigger] items@[i]).tree() == plain().planet(planets@[i]),
        decreases planets@.len() - items@.len(),
    {
        let i: usize = items.len();
        items.push(planet_node(&planets[i]));
    }
    assert(crate::document::trees(items@) =~= plain().planets(planets@));
    list(items)
}

fn fleets_node(fleets: &Vec<Fleet>) -> (n: Node)
    ensures
        n.tree() == Tree::List(plain().fleets(fleets@)),
{
    let mut items: Vec<Node> = Vec::new();
    while items.len() < fleets.len()
        invariant
            items@.len() <= fleets@.len(),
            forall|i: int| 0 <= i < items@.len() ==> (#[trigger] items@[i]).tree() == plain().fleet(fleets@[i]),
        decreases fleets@.len() - items@.len(),
    {
        let i: usize = items.len();
        items.push(fleet_node(&fleets[i]));
    }
    assert(crate::document::trees(items@) =~= plain().fleets(fleets@));
    list(items)
}

fn ids_node(ids: &Vec<i64>) -> (n: Node)
    ensures
        n.tree() == Tree::List(plain().ids(ids@)),
{
    let mut items: Vec<Node> = Vec::new();
    while items.len() < ids.len()
        invariant
            items@.len() <= ids@.len(),
            forall|i: int| 0 <= i < items@.len() ==> (#[trigger] items@[i]).tree() == plain().whole(ids@[i]),
        decreases ids@.len() - items@.len(),
    {
        let i: usize = items.len();
        items.push(whole(ids[i]));
    }
    assert(crate::document::trees(items@) =~= plain().ids(ids@));
    list(items)
}

fn path_node(path: &Vec<Point>) -> (n: Node)
    ensures
        n.tree() == Tree::List(plain().path(path@)),
{
    let mut items: Vec<Node> = Vec::new();
    while items.len() < path.len()
        invariant
            items@.len() <= path@.len(),
            forall|i: int| 0 <= i < items@.len() ==> (#[trigger] items@[i]).tree() == plain().point(path@[i]),
        decreases path@.len() - items@.len(),
    {
        let p = path[items.len()];
        let pair = vec![part(p.x), part(p.y)];
        assert(crate::document::trees(pair@) =~= plain().point(p)->List_0);
        items.push(list(pair));
    }
    assert(crate::document::trees(items@) =~= plain().path(path@));
    list(items)
}

fn group_node(g: &CometGroup) -> (n: Node)
    ensures
        n.tree() == plain().group(g@),
{
    let mut paths: Vec<Node> = Vec::new();
    while paths.len() < g.paths.len()
        invariant
            paths@.len() <= g.paths@.len(),
            forall|i: int|
                0 <= i < paths@.len() ==> (#[trigger] paths@[i]).tree() == Tree::List(plain().path(g.paths@[i]@)),
        decreases g.paths@.len() - paths@.len(),
    {
        let i: usize = paths.len();
        paths.push(path_node(&g.paths[i]));
    }
    assert(crate::document::trees(paths@) =~= plain().paths(g@.paths));
    let members = vec![
        named("planet_ids", ids_node(&g.planet_ids)),
        named("paths", list(paths)),
        named("path_index", whole(g.path_index)),
    ];
    let n = Node::Object(members);
    proof {
        crate::document::lemma_tree(n);
        assert(crate::document::entries(members@) =~= plain().group(g@)->Object_0);
    }
    n
}

/// Writes the observation of `player` at step `cur_step`.
pub fn build_obs(g: &GameState, player: i64, cur_step: i64) -> (obs: Node)
    ensures
        obs.tree() == plain().observation(g@, player, cur_step),
        crate::replay::state_of(obs.tree()) == Some(g@),
        crate::replay::step_of(obs.tree()) == cur_step,
        obs.tree().int_of("player"@) == Some(player),
{
    let mut comets: Vec<Node> = Vec::new();
    while comets.len() < g.comets.len()
        invariant
            comets@.len() <= g.comets@.len(),
            forall|i: int| 0 <= i < comets@.len() ==> (#[trigger] comets@[i]).tree() == plain().group(g.comets@[i]@),
        decreases g.comets@.len() - comets@.len(),
    {
        let i: usize = comets.len();
        comets.push(group_node(&g.comets[i]));
    }
    assert(crate::document::trees(comets@) =~= plain().groups(g@.comets));
    let members = vec![
        named("planets", planets_node(&g.planets)),
        named("fleets", fleets_node(&g.fleets)),
        named("player", whole(player)),
        named("angular_velocity", part(g.angular_velocity)),
        named("initial_planets", planets_node(&g.initial_planets)),
        named("next_fleet_id", whole(g.next_fleet_id)),
        named("comet_planet_ids", ids_node(&g.comet_planet_ids)),
        named("remainingOverageTime", part(Double { bits: OVERAGE_TIME })),
        named("step", whole(cur_step)),
        named("comets", list(comets)),
    ];
    let obs = Node::Object(members);
    proof {
        crate::document::lemma_tree(obs);
        assert(crate::document::entries(members@) =~= plain().observation(g@, player, cur_step)->Object_0);
        lemma_read_back(plain(), *g, player, cur_step);
    }
    obs
}

} // verus!
