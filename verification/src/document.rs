//! Documents in JSON: values, lists and objects.
//!
//! The text is read by `serde_json`; what it holds is then a `Node`.

use crate::double::Double;
use vstd::prelude::*;

verus! {

/// A number of a document: the integer that it is, if it is one that fits, and
/// the double that stands for it.
#[derive(Clone, Copy, PartialEq, Eq, Debug)]
pub struct Number {
    pub integer: Option<i64>,
    pub double: Option<Double>,
}

/// A value of a document.
pub enum Node {
    Null,
    Flag(bool),
    Number(Number),
    Text(String),
    List(Vec<Node>),
    Object(Vec<Member>),
}

/// A named value of an object.
pub struct Member {
    pub name: String,
    pub value: Node,
}

/// What a value of a document says.
#[verifier::ext_equal]
pub enum Tree {
    Null,
    Flag(bool),
    Number(Number),
    Text(Seq<char>),
    List(Seq<Tree>),
    Object(Seq<Entry>),
}

/// What a member of an object says.
#[verifier::ext_equal]
pub struct Entry {
    pub name: Seq<char>,
    pub value: Tree,
}

/// The value of the first entry with the name, among the first `n`.
pub open spec fn entry_named(entries: Seq<Entry>, name: Seq<char>, n: nat) -> Option<Tree>
    decreases n,
{
    if n == 0 {
        None
    } else {
        match entry_named(entries, name, (n - 1) as nat) {
            Some(v) => Some(v),
            None => if entries[n - 1].name == name {
                Some(entries[n - 1].value)
            } else {
                None
            },
        }
    }
}

impl Tree {
    /// Item `i` of a list.
    pub open spec fn at(self, i: int) -> Option<Tree> {
        match self {
            Tree::List(items) => if 0 <= i < items.len() {
                Some(items[i])
            } else {
                None
            },
            _ => None,
        }
    }

    /// The member of an object with the name.
    pub open spec fn get(self, name: Seq<char>) -> Option<Tree> {
        match self {
            Tree::Object(entries) => entry_named(entries, name, entries.len()),
            _ => None,
        }
    }

    /// The items of a list.
    pub open spec fn items(self) -> Option<Seq<Tree>> {
        match self {
            Tree::List(items) => Some(items),
            _ => None,
        }
    }

    /// The integer that the value is.
    pub open spec fn integer(self) -> Option<i64> {
        match self {
            Tree::Number(n) => n.integer,
            _ => None,
        }
    }

    /// The double that the value is.
    pub open spec fn double(self) -> Option<Double> {
        match self {
            Tree::Number(n) => n.double,
            _ => None,
        }
    }

    /// The integer at place `i` of a list.
    pub open spec fn int_at(self, i: int) -> Option<i64> {
        match self.at(i) {
            Some(v) => v.integer(),
            None => None,
        }
    }

    /// The double at place `i` of a list.
    pub open spec fn real_at(self, i: int) -> Option<Double> {
        match self.at(i) {
            Some(v) => v.double(),
            None => None,
        }
    }

    /// The items of the list with the name.
    pub open spec fn items_of(self, name: Seq<char>) -> Option<Seq<Tree>> {
        match self.get(name) {
            Some(v) => v.items(),
            None => None,
        }
    }

    /// The integer with the name.
    pub open spec fn int_of(self, name: Seq<char>) -> Option<i64> {
        match self.get(name) {
            Some(v) => v.integer(),
            None => None,
        }
    }
}

impl Node {
    /// What the value says.
    pub open spec fn tree(self) -> Tree
        decreases self,
    {
        match self {
            Node::Null => Tree::Null,
            Node::Flag(b) => Tree::Flag(b),
            Node::Number(n) => Tree::Number(n),
            Node::Text(s) => Tree::Text(s@),
            Node::List(items) => Tree::List(
                Seq::new(
                    items@.len(),
                    |i: int|
                        if 0 <= i < items@.len() {
                            items@[i].tree()
                        } else {
                            Tree::Null
                        },
                ),
            ),
            Node::Object(members) => Tree::Object(
                Seq::new(
                    members@.len(),
                    |i: int|
                        if 0 <= i < members@.len() {
                            Entry { name: members@[i].name@, value: members@[i].value.tree() }
                        } else {
                            Entry { name: Seq::empty(), value: Tree::Null }
                        },
                ),
            ),
        }
    }
}

/// What the values say.
pub open spec fn trees(items: Seq<Node>) -> Seq<Tree> {
    Seq::new(items.len(), |i: int| items[i].tree())
}

/// What the members say.
pub open spec fn entries(members: Seq<Member>) -> Seq<Entry> {
    Seq::new(members.len(), |i: int| Entry { name: members[i].name@, value: members[i].value.tree() })
}

/// A list says what its items say, and an object what its members say.
pub proof fn lemma_tree(v: Node)
    ensures
        v matches Node::List(items) ==> v.tree() == Tree::List(trees(items@)),
        v matches Node::Object(members) ==> v.tree() == Tree::Object(entries(members@)),
{
    match v {
        Node::List(items) => {
            assert(v.tree()->List_0 =~= trees(items@));
        },
        Node::Object(members) => {
            assert(v.tree()->Object_0 =~= entries(members@));
        },
        _ => {},
    }
}

/// Entry `k` is the first of the entries with the name.
pub open spec fn is_first(entries: Seq<Entry>, name: Seq<char>, k: int) -> bool {
    &&& 0 <= k < entries.len()
    &&& entries[k].name == name
    &&& forall|j: int| 0 <= j < k ==> (#[trigger] entries[j]).name != name
}

/// Looking for a name gives the value of the first entry that has it, among the first
/// `n`, and nothing where none of them has it.
pub proof fn lemma_entry_named(entries: Seq<Entry>, name: Seq<char>, n: nat)
    requires
        n <= entries.len(),
    ensures
        forall|k: int|
            k < n && #[trigger] is_first(entries, name, k) ==> entry_named(entries, name, n) == Some(entries[k].value),
        entry_named(entries, name, n) is Some ==> exists|k: int| k < n && #[trigger] is_first(entries, name, k),
        entry_named(entries, name, n) is None ==> forall|j: int| 0 <= j < n ==> (#[trigger] entries[j]).name != name,
    decreases n,
{
    if n > 0 {
        lemma_entry_named(entries, name, (n - 1) as nat);
        if entry_named(entries, name, (n - 1) as nat) is None && entries[n - 1].name == name {
            assert(is_first(entries, name, n - 1));
        }
    }
}

proof fn lemma_entry_stays(entries: Seq<Entry>, name: Seq<char>, n: nat, m: nat)
    requires
        n <= m,
        entry_named(entries, name, n) is Some,
    ensures
        entry_named(entries, name, m) == entry_named(entries, name, n),
    decreases m,
{
    if n < m {
        lemma_entry_stays(entries, name, n, (m - 1) as nat);
    }
}

impl Node {
    pub fn item(&self, i: usize) -> (r: Option<&Node>)
        ensures
            match r {
                Some(v) => self.tree().at(i as int) == Some(v.tree()),
                None => self.tree().at(i as int) is None,
            },
            match self {
                Node::List(items) => if i < items@.len() {
                    r == Some(&items@[i as int])
                } else {
                    r is None
                },
                _ => r is None,
            },
    {
        proof {
            lemma_tree(*self);
        }
        match self {
            Node::List(items) => if i < items.len() {
                Some(&items[i])
            } else {
                None
            },
            _ => None,
        }
    }

    pub fn member(&self, name: &str) -> (r: Option<&Node>)
        ensures
            match r {
                Some(v) => self.tree().get(name@) == Some(v.tree()),
                None => self.tree().get(name@) is None,
            },
    {
        proof {
            lemma_tree(*self);
        }
        match self {
            Node::Object(members) => {
                let wanted = name.to_owned();
                let mut i: usize = 0;
                while i < members.len()
                    invariant
                        i <= members@.len(),
                        wanted@ == name@,
                        self.tree() == Tree::Object(entries(members@)),
                        entry_named(entries(members@), name@, i as nat) is None,
                    decreases members@.len() - i,
                {
                    if members[i].name == wanted {
                        proof {
                            lemma_entry_stays(entries(members@), name@, (i + 1) as nat, members@.len());
                        }
                        return Some(&members[i].value);
                    }
                    i += 1;
                }
                None
            },
            _ => None,
        }
    }

    pub fn as_array(&self) -> (r: Option<&Vec<Node>>)
        ensures
            match r {
                Some(v) => self.tree().items() == Some(trees(v@)),
                None => self.tree().items() is None,
            },
            r is Some <==> self is List,
            self matches Node::List(items) ==> r == Some(items),
    {
        proof {
            lemma_tree(*self);
        }
        match self {
            Node::List(items) => Some(items),
            _ => None,
        }
    }

    pub fn as_i64(&self) -> (r: Option<i64>)
        ensures
            r == self.tree().integer(),
            self matches Node::Number(n) ==> r == n.integer,
            !(self is Number) ==> r is None,
    {
        match self {
            Node::Number(n) => n.integer,
            _ => None,
        }
    }

    pub fn as_f64(&self) -> (r: Option<Double>)
        ensures
            r == self.tree().double(),
            self matches Node::Number(n) ==> r == n.double,
            !(self is Number) ==> r is None,
    {
        match self {
            Node::Number(n) => n.double,
            _ => None,
        }
    }

    pub(crate) fn i64_at(&self, i: usize) -> (r: Option<i64>)
        ensures
            r == self.tree().int_at(i as int),
    {
        match self.item(i) {
            Some(v) => v.as_i64(),
            None => None,
        }
    }

    pub(crate) fn f64_at(&self, i: usize) -> (r: Option<Double>)
        ensures
            r == self.tree().real_at(i as int),
    {
        match self.item(i) {
            Some(v) => v.as_f64(),
            None => None,
        }
    }

    pub(crate) fn array_of(&self, name: &str) -> (r: Option<&Vec<Node>>)
        ensures
            match r {
                Some(v) => self.tree().items_of(name@) == Some(trees(v@)),
                None => self.tree().items_of(name@) is None,
            },
    {
        match self.member(name) {
            Some(v) => v.as_array(),
            None => None,
        }
    }

    pub(crate) fn i64_of(&self, name: &str) -> (r: Option<i64>)
        ensures
            r == self.tree().int_of(name@),
    {
        match self.member(name) {
            Some(v) => v.as_i64(),
            None => None,
        }
    }
}

/// A document as `serde_json` holds it.
#[verifier::external_type_specification]
#[verifier::external_body]
pub struct ExValue(serde_json::Value);

/// What a `serde_json::Value` says.
pub uninterp spec fn said_by(v: serde_json::Value) -> Tree;

/// What `serde_json::from_str` reads from a text; `None` where it reports an error.
pub uninterp spec fn json(text: Seq<char>) -> Option<Tree>;

/// `serde_json::from_str` to a `serde_json::Value`. What it reads depends on the
/// text alone. Which texts it takes, and what they say, is left to it.
#[verifier::external_body]
fn read(text: &str) -> (r: Option<serde_json::Value>)
    ensures
        match r {
            Some(v) => json(text@) == Some(said_by(v)),
            None => json(text@) is None,
        },
{
    serde_json::from_str(text).ok()
}

/// A `serde_json::Value`, by its variant.
enum Shape<'a> {
    Null,
    Flag(bool),
    Number(Number),
    Text(&'a String),
    List(&'a Vec<serde_json::Value>),
    Object(Vec<(&'a String, &'a serde_json::Value)>),
}

/// What the shape says.
spec fn said(shape: Shape) -> Tree {
    match shape {
        Shape::Null => Tree::Null,
        Shape::Flag(b) => Tree::Flag(b),
        Shape::Number(n) => Tree::Number(n),
        Shape::Text(s) => Tree::Text(s@),
        Shape::List(items) => Tree::List(Seq::new(items@.len(), |i: int| said_by(items@[i]))),
        Shape::Object(members) => Tree::Object(
            Seq::new(members@.len(), |i: int| Entry { name: members@[i].0@, value: said_by(*members@[i].1) }),
        ),
    }
}

/// Tells the variants of a `serde_json::Value` apart. A list says what its items
/// say, in their order; an object says what its members say, in the order in which
/// `serde_json::Map::iter` gives them; a number is what `serde_json::Number` gives
/// by `as_i64` and by `as_f64`.
#[verifier::external_body]
fn shape_of<'a>(v: &'a serde_json::Value) -> (r: Shape<'a>)
    ensures
        said(r) == said_by(*v),
{
    match v {
        serde_json::Value::Null => Shape::Null,
        serde_json::Value::Bool(b) => Shape::Flag(*b),
        serde_json::Value::Number(n) => Shape::Number(
            Number { integer: n.as_i64(), double: n.as_f64().map(|x| Double { bits: x.to_bits() }) },
        ),
        serde_json::Value::String(s) => Shape::Text(s),
        serde_json::Value::Array(items) => Shape::List(items),
        serde_json::Value::Object(members) => Shape::Object(members.iter().collect()),
    }
}

/// The document that a `serde_json::Value` holds.
pub fn node(v: &serde_json::Value) -> (r: Node)
    ensures
        r.tree() == said_by(*v),
    decreases said_by(*v),
{
    match shape_of(v) {
        Shape::Null => Node::Null,
        Shape::Flag(b) => Node::Flag(b),
        Shape::Number(n) => Node::Number(n),
        Shape::Text(s) => Node::Text(s.clone()),
        Shape::List(items) => {
            let ghost all = said_by(*v);
            let mut list: Vec<Node> = Vec::new();
            let mut i: usize = 0;
            while i < items.len()
                invariant
                    i <= items@.len(),
                    all == said_by(*v),
                    all == Tree::List(Seq::new(items@.len(), |k: int| said_by(items@[k]))),
                    list@.len() == i,
                    forall|k: int| 0 <= k < i ==> (#[trigger] list@[k]).tree() == said_by(items@[k]),
                decreases items@.len() - i,
            {
                assert(all->List_0[i as int] == said_by(items@[i as int]));
                let item = node(&items[i]);
                list.push(item);
                i += 1;
            }
            let r = Node::List(list);
            proof {
                lemma_tree(r);
                assert(trees(list@) =~= all->List_0);
            }
            r
        },
        Shape::Object(members) => {
            let ghost all = said_by(*v);
            let mut list: Vec<Member> = Vec::new();
            let mut i: usize = 0;
            while i < members.len()
                invariant
                    i <= members@.len(),
                    all == said_by(*v),
                    all == Tree::Object(
                        Seq::new(
                            members@.len(),
                            |k: int| Entry { name: members@[k].0@, value: said_by(*members@[k].1) },
                        ),
                    ),
                    list@.len() == i,
                    forall|k: int|
                        0 <= k < i ==> (#[trigger] list@[k]).value.tree() == said_by(*members@[k].1)
                            && list@[k].name@ == members@[k].0@,
                decreases members@.len() - i,
            {
                assert(all->Object_0[i as int].value == said_by(*members@[i as int].1));
                let value = node(members[i].1);
                list.push(Member { name: members[i].0.clone(), value });
                i += 1;
            }
            let r = Node::Object(list);
            proof {
                lemma_tree(r);
                assert(entries(list@) =~= all->Object_0);
            }
            r
        },
    }
}

/// Reads a document from its text; `None` where the text is none.
pub fn parse(text: &str) -> (r: Option<Node>)
    ensures
        match r {
            Some(v) => json(text@) == Some(v.tree()),
            None => json(text@) is None,
        },
{
    match read(text) {
        Some(v) => Some(node(&v)),
        None => None,
    }
}

} // verus!
