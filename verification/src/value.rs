//! The value model and its mathematical view.
use vstd::prelude::*;

verus! {

/// A 32-bit float, carried as the decimal numeral that denotes it:
/// `mantissa * 10^exponent`, negated where `negative` is set.
///
/// The shortest decimal that identifies a finite 32-bit float has at most
/// nine significant digits, so the mantissa always fits.
#[derive(Clone, Copy, Debug, PartialEq, Eq, Structural)]
pub struct Decimal {
    pub negative: bool,
    pub mantissa: u32,
    pub exponent: i32,
}

/// A value of the model.
#[derive(Debug, Eq)]
pub enum Value {
    Null,
    Bool(bool),
    I32(i32),
    F32(Decimal),
    Str(String),
    /// An ordered sequence of values.
    Array(Vec<Value>),
    /// Key and value pairs, in the order in which they were inserted.
    Dict(Vec<(Value, Value)>),
    /// A variant of an enumeration: its tag, then its payload.
    EnumVariant(String, Box<Value>),
    /// A composite whose shape is declared by the type it stands for.
    Node(Node),
}

/// The fields of a node: positional or keyed.
#[derive(Debug, Eq)]
pub enum Node {
    Tuple(Vec<Value>),
    Record(Vec<(Value, Value)>),
}

/// The shape that a type declares for its nodes, with the number of fields.
#[derive(Clone, Copy, Debug, PartialEq, Eq, Structural)]
pub enum Shape {
    Tuple(usize),
    Record(usize),
}

/// What a [`Value`] denotes: a finite tree over plain data.
pub enum Tree {
    Null,
    Bool(bool),
    I32(i32),
    F32(Decimal),
    Str(Seq<char>),
    Array(Seq<Tree>),
    Dict(Seq<(Tree, Tree)>),
    Enum(Seq<char>, Box<Tree>),
    Tuple(Seq<Tree>),
    Record(Seq<(Tree, Tree)>),
}

/// The trees of a sequence of values, one for one.
pub open spec fn trees(items: Seq<Value>) -> Seq<Tree>
    decreases items,
{
    Seq::new(
        items.len(),
        |i: int|
            if 0 <= i < items.len() {
                tree_of(items[i])
            } else {
                Tree::Null
            },
    )
}

/// The trees of a sequence of key and value pairs, one for one.
pub open spec fn pairs(entries: Seq<(Value, Value)>) -> Seq<(Tree, Tree)>
    decreases entries,
{
    Seq::new(
        entries.len(),
        |i: int|
            if 0 <= i < entries.len() {
                (tree_of(entries[i].0), tree_of(entries[i].1))
            } else {
                (Tree::Null, Tree::Null)
            },
    )
}

/// The tree that a value denotes.
pub open spec fn tree_of(v: Value) -> Tree
    decreases v,
{
    match v {
        Value::Null => Tree::Null,
        Value::Bool(b) => Tree::Bool(b),
        Value::I32(n) => Tree::I32(n),
        Value::F32(d) => Tree::F32(d),
        Value::Str(s) => Tree::Str(s@),
        Value::Array(items) => Tree::Array(trees(items@)),
        Value::Dict(entries) => Tree::Dict(pairs(entries@)),
        Value::EnumVariant(tag, payload) => Tree::Enum(tag@, Box::new(tree_of(*payload))),
        Value::Node(Node::Tuple(items)) => Tree::Tuple(trees(items@)),
        Value::Node(Node::Record(entries)) => Tree::Record(pairs(entries@)),
    }
}

impl View for Value {
    type V = Tree;

    open spec fn view(&self) -> Tree {
        tree_of(*self)
    }
}

fn clone_items(items: &Vec<Value>) -> (out: Vec<Value>)
    ensures
        trees(out@) == trees(items@),
    decreases *items, 0nat,
{
    let mut out: Vec<Value> = Vec::new();
    let mut i: usize = 0;
    while i < items.len()
        invariant
            i <= items.len(),
            trees(out@) == trees(items@.take(i as int)),
        decreases items.len() - i,
    {
        let item = items[i].clone();
        proof {
            lemma_trees_push(out@, item);
            lemma_trees_push(items@.take(i as int), items[i as int]);
            assert(items@.take(i + 1) =~= items@.take(i as int).push(items[i as int]));
        }
        out.push(item);
        i += 1;
    }
    proof {
        assert(items@.take(items.len() as int) =~= items@);
        assert(trees(out@) =~= trees(items@));
    }
    out
}

fn clone_entries(entries: &Vec<(Value, Value)>) -> (out: Vec<(Value, Value)>)
    ensures
        pairs(out@) == pairs(entries@),
    decreases *entries, 0nat,
{
    let mut out: Vec<(Value, Value)> = Vec::new();
    let mut i: usize = 0;
    while i < entries.len()
        invariant
            i <= entries.len(),
            pairs(out@) == pairs(entries@.take(i as int)),
        decreases entries.len() - i,
    {
        let key = entries[i].0.clone();
        let value = entries[i].1.clone();
        proof {
            lemma_pairs_push(out@, key, value);
            lemma_pairs_push(entries@.take(i as int), entries[i as int].0, entries[i as int].1);
            assert(entries@.take(i + 1) =~= entries@.take(i as int).push(entries[i as int]));
        }
        out.push((key, value));
        i += 1;
    }
    proof {
        assert(entries@.take(entries.len() as int) =~= entries@);
        assert(pairs(out@) =~= pairs(entries@));
    }
    out
}

impl Clone for Node {
    /// A node that denotes the same tree.
    fn clone(&self) -> (out: Node)
        ensures
            Value::Node(out)@ == Value::Node(*self)@,
        decreases *self, 1nat,
    {
        match self {
            Node::Tuple(items) => Node::Tuple(clone_items(items)),
            Node::Record(entries) => Node::Record(clone_entries(entries)),
        }
    }
}

impl Clone for Value {
    /// A value that denotes the same tree.
    fn clone(&self) -> (out: Value)
        ensures
            out@ == self@,
        decreases *self, 2nat,
    {
        match self {
            Value::Null => Value::Null,
            Value::Bool(b) => Value::Bool(*b),
            Value::I32(n) => Value::I32(*n),
            Value::F32(d) => Value::F32(*d),
            Value::Str(s) => Value::Str(s.clone()),
            Value::Array(items) => Value::Array(clone_items(items)),
            Value::Dict(entries) => Value::Dict(clone_entries(entries)),
            Value::EnumVariant(tag, payload) => {
                let inner: &Value = payload;
                Value::EnumVariant(tag.clone(), Box::new(inner.clone()))
            },
            Value::Node(node) => Value::Node(node.clone()),
        }
    }
}

fn same_items(a: &Vec<Value>, b: &Vec<Value>) -> (same: bool)
    ensures
        same == (trees(a@) == trees(b@)),
    decreases *a, 0nat,
{
    if a.len() != b.len() {
        assert(trees(a@).len() != trees(b@).len());
        return false;
    }
    let mut i: usize = 0;
    while i < a.len()
        invariant
            i <= a.len(),
            a.len() == b.len(),
            forall|j: int| 0 <= j < i ==> a[j]@ == b[j]@,
        decreases a.len() - i,
    {
        if !same_value(&a[i], &b[i]) {
            assert(trees(a@)[i as int] != trees(b@)[i as int]);
            return false;
        }
        i += 1;
    }
    assert(trees(a@) =~= trees(b@));
    true
}

fn same_entries(a: &Vec<(Value, Value)>, b: &Vec<(Value, Value)>) -> (same: bool)
    ensures
        same == (pairs(a@) == pairs(b@)),
    decreases *a, 0nat,
{
    if a.len() != b.len() {
        assert(pairs(a@).len() != pairs(b@).len());
        return false;
    }
    let mut i: usize = 0;
    while i < a.len()
        invariant
            i <= a.len(),
            a.len() == b.len(),
            forall|j: int| 0 <= j < i ==> a[j].0@ == b[j].0@ && a[j].1@ == b[j].1@,
        decreases a.len() - i,
    {
        if !same_value(&a[i].0, &b[i].0) || !same_value(&a[i].1, &b[i].1) {
            assert(pairs(a@)[i as int] != pairs(b@)[i as int]);
            return false;
        }
        i += 1;
    }
    assert(pairs(a@) =~= pairs(b@));
    true
}

fn same_node(a: &Node, b: &Node) -> (same: bool)
    ensures
        same == (Value::Node(*a)@ == Value::Node(*b)@),
    decreases *a, 1nat,
{
    match a {
        Node::Tuple(mine) => match b {
            Node::Tuple(theirs) => same_items(mine, theirs),
            _ => false,
        },
        Node::Record(mine) => match b {
            Node::Record(theirs) => same_entries(mine, theirs),
            _ => false,
        },
    }
}

fn same_value(a: &Value, b: &Value) -> (same: bool)
    ensures
        same == (a@ == b@),
    decreases *a, 2nat,
{
    match a {
        Value::Null => matches!(b, Value::Null),
        Value::Bool(mine) => match b {
            Value::Bool(theirs) => *mine == *theirs,
            _ => false,
        },
        Value::I32(mine) => match b {
            Value::I32(theirs) => *mine == *theirs,
            _ => false,
        },
        Value::F32(mine) => match b {
            Value::F32(theirs) => *mine == *theirs,
            _ => false,
        },
        Value::Str(mine) => match b {
            Value::Str(theirs) => *mine == *theirs,
            _ => false,
        },
        Value::Array(mine) => match b {
            Value::Array(theirs) => same_items(mine, theirs),
            _ => false,
        },
        Value::Dict(mine) => match b {
            Value::Dict(theirs) => same_entries(mine, theirs),
            _ => false,
        },
        Value::EnumVariant(tag, payload) => match b {
            Value::EnumVariant(their_tag, their_payload) => {
                let mine: &Value = payload;
                let theirs: &Value = their_payload;
                *tag == *their_tag && same_value(mine, theirs)
            },
            _ => false,
        },
        Value::Node(mine) => match b {
            Value::Node(theirs) => same_node(mine, theirs),
            _ => false,
        },
    }
}

impl PartialEq for Node {
    /// Two nodes are equal where they denote the same tree.
    fn eq(&self, other: &Node) -> (same: bool) {
        same_node(self, other)
    }
}

impl vstd::std_specs::cmp::PartialEqSpecImpl for Node {
    open spec fn obeys_eq_spec() -> bool {
        true
    }

    open spec fn eq_spec(&self, other: &Node) -> bool {
        Value::Node(*self)@ == Value::Node(*other)@
    }
}

impl PartialEq for Value {
    /// Two values are equal where they denote the same tree.
    fn eq(&self, other: &Value) -> (same: bool) {
        same_value(self, other)
    }
}

impl vstd::std_specs::cmp::PartialEqSpecImpl for Value {
    open spec fn obeys_eq_spec() -> bool {
        true
    }

    open spec fn eq_spec(&self, other: &Value) -> bool {
        self@ == other@
    }
}

/// The texts of a sequence of strings, one for one.
pub open spec fn texts(strings: Seq<String>) -> Seq<Seq<char>> {
    Seq::new(strings.len(), |i: int| strings[i]@)
}

impl Shape {
    /// Whether a tree is a node of this shape.
    pub open spec fn admits(self, t: Tree) -> bool {
        match self {
            Shape::Tuple(n) => t matches Tree::Tuple(items) && items.len() == n,
            Shape::Record(n) => t matches Tree::Record(entries) && entries.len() == n,
        }
    }
}

/// `trees` of a sequence with one more value at its end.
pub proof fn lemma_trees_push(items: Seq<Value>, v: Value)
    ensures
        trees(items.push(v)) == trees(items).push(v@),
{
    assert(trees(items.push(v)) =~= trees(items).push(v@));
}

/// `pairs` of a sequence with one more entry at its end.
pub proof fn lemma_pairs_push(entries: Seq<(Value, Value)>, k: Value, v: Value)
    ensures
        pairs(entries.push((k, v))) == pairs(entries).push((k@, v@)),
{
    assert(pairs(entries.push((k, v))) =~= pairs(entries).push((k@, v@)));
}

} // verus!
