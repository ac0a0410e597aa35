//! The configuration tree and its mathematical model.
use vstd::prelude::*;
use crate::path::{first_key, lemma_first_key_absent, lemma_first_key_found, promote};
use crate::text::index_of;

verus! {

broadcast use vstd::std_specs::vec::group_vec_axioms, vstd::seq::group_seq_axioms;

/// The mathematical shape of a [`Value`]: a scalar text, an ordered list of
/// nodes, or a list of key bindings in which the first binding of a key wins.
pub enum Node {
    Text(Seq<char>),
    List(Seq<Node>),
    Dict(Seq<(Seq<char>, Node)>),
}

/// A leaf: the canonical text of one scalar.
#[derive(Debug, PartialEq)]
pub struct Entry(pub String);

/// An ordered, zero-based sequence of values.
#[derive(Debug, PartialEq)]
pub struct Array(pub Vec<Value>);

/// Values keyed by text.
#[derive(Debug, PartialEq)]
pub struct Table(pub Vec<(String, Value)>);

/// A node of the configuration tree.
#[derive(Debug, PartialEq)]
pub enum Value {
    Entry(Entry),
    Array(Array),
    Table(Table),
}

/// The model of a value.
pub open spec fn node_of(v: Value) -> Node
    decreases v,
{
    match v {
        Value::Entry(e) => Node::Text(e.0@),
        Value::Array(a) => Node::List(nodes_of(a.0@)),
        Value::Table(t) => Node::Dict(bindings_of(t.0@)),
    }
}

/// The models of a sequence of values, in order.
pub open spec fn nodes_of(s: Seq<Value>) -> Seq<Node>
    decreases s,
{
    if s.len() == 0 {
        Seq::empty()
    } else {
        nodes_of(s.drop_last()).push(node_of(s.last()))
    }
}

/// The models of a sequence of bindings, in order.
pub open spec fn bindings_of(s: Seq<(String, Value)>) -> Seq<(Seq<char>, Node)>
    decreases s,
{
    if s.len() == 0 {
        Seq::empty()
    } else {
        bindings_of(s.drop_last()).push((s.last().0@, node_of(s.last().1)))
    }
}

/// The model of a sequence of values is taken item by item.
pub proof fn lemma_nodes_of(s: Seq<Value>)
    ensures
        nodes_of(s).len() == s.len(),
        forall|i: int| 0 <= i < s.len() ==> #[trigger] nodes_of(s)[i] == node_of(s[i]),
    decreases s.len(),
{
    if s.len() > 0 {
        lemma_nodes_of(s.drop_last());
    }
}

/// The model of a sequence of bindings is taken binding by binding.
pub proof fn lemma_bindings_of(s: Seq<(String, Value)>)
    ensures
        bindings_of(s).len() == s.len(),
        forall|i: int|
            0 <= i < s.len() ==> #[trigger] bindings_of(s)[i] == (s[i].0@, node_of(s[i].1)),
    decreases s.len(),
{
    if s.len() > 0 {
        lemma_bindings_of(s.drop_last());
    }
}

impl View for Value {
    type V = Node;

    open spec fn view(&self) -> Node {
        node_of(*self)
    }
}

impl View for Array {
    type V = Seq<Node>;

    open spec fn view(&self) -> Seq<Node> {
        nodes_of(self.0@)
    }
}

impl View for Table {
    type V = Seq<(Seq<char>, Node)>;

    open spec fn view(&self) -> Seq<(Seq<char>, Node)> {
        bindings_of(self.0@)
    }
}

impl Value {
    /// A fresh, empty entry.
    pub fn entry() -> (r: Value)
        ensures
            r@ == Node::Text(Seq::empty()),
    {
        Value::Entry(Entry(String::new()))
    }

    /// A fresh, empty table.
    pub fn table() -> (r: Value)
        ensures
            r@ == Node::Dict(Seq::empty()),
    {
        let r = Value::Table(Table(Vec::new()));
        assert(bindings_of(Seq::<(String, Value)>::empty()) =~= Seq::empty());
        r
    }

    /// A fresh, empty array.
    pub fn array() -> (r: Value)
        ensures
            r@ == Node::List(Seq::empty()),
    {
        let r = Value::Array(Array(Vec::new()));
        assert(nodes_of(Seq::<Value>::empty()) =~= Seq::empty());
        r
    }

    /// Gives this node the shape that a write of key `k` below it needs.
    pub(crate) fn promote(&mut self, k: &str)
        ensures
            final(self)@ == promote(old(self)@, k@),
    {
        let idx = index_of(k).is_some();
        let mut cur = Value::entry();
        std::mem::swap(self, &mut cur);
        let next = match cur {
            Value::Entry(_) => if idx {
                Value::array()
            } else {
                Value::table()
            },
            Value::Array(a) => if idx {
                Value::Array(a)
            } else {
                Value::Table(Table::indexed(a.0))
            },
            Value::Table(t) => Value::Table(t),
        };
        *self = next;
    }
}

impl Value {
    /// A deep copy of this node.
    pub fn copy(&self) -> (r: Value)
        ensures
            r@ == self@,
        decreases self@, 1int,
    {
        match self {
            Value::Entry(e) => Value::Entry(Entry(e.0.clone())),
            Value::Array(a) => {
                let ghost s = nodes_of(a.0@);
                proof {
                    lemma_nodes_of(a.0@);
                }
                let mut out: Vec<Value> = Vec::new();
                let mut i: usize = 0;
                while i < a.0.len()
                    invariant
                        0 <= i <= a.0@.len(),
                        out@.len() == i,
                        self@ == Node::List(s),
                        s == nodes_of(a.0@),
                        s.len() == a.0@.len(),
                        forall|m: int| 0 <= m < s.len() ==> #[trigger] s[m] == node_of(a.0@[m]),
                        forall|m: int| 0 <= m < i ==> #[trigger] node_of(out@[m]) == node_of(a.0@[m]),
                    decreases a.0@.len() - i,
                {
                    let ghost n = self@;
                    assert(decreases_to!(n => n->List_0));
                    assert(decreases_to!(n->List_0 => n->List_0[i as int]));
                    let c = a.0[i].copy();
                    out.push(c);
                    i = i + 1;
                }
                proof {
                    lemma_nodes_of(out@);
                    assert(nodes_of(out@) =~= nodes_of(a.0@));
                }
                Value::Array(Array(out))
            },
            Value::Table(t) => Value::Table(t.copy()),
        }
    }
}

impl Table {
    /// A deep copy of this table.
    pub fn copy(&self) -> (r: Table)
        ensures
            r@ == self@,
        decreases Node::Dict(self@), 0int,
    {
        let ghost s = bindings_of(self.0@);
        proof {
            lemma_bindings_of(self.0@);
        }
        let mut out: Vec<(String, Value)> = Vec::new();
        let mut i: usize = 0;
        while i < self.0.len()
            invariant
                0 <= i <= self.0@.len(),
                out@.len() == i,
                s == bindings_of(self.0@),
                s.len() == self.0@.len(),
                forall|m: int|
                    0 <= m < s.len() ==> #[trigger] s[m] == (self.0@[m].0@, node_of(self.0@[m].1)),
                forall|m: int|
                    0 <= m < i ==> #[trigger] out@[m].0@ == self.0@[m].0@ && node_of(out@[m].1)
                        == node_of(self.0@[m].1),
            decreases self.0@.len() - i,
        {
            let ghost n = Node::Dict(s);
            assert(decreases_to!(n => n->Dict_0));
            assert(decreases_to!(n->Dict_0 => n->Dict_0[i as int]));
            assert(decreases_to!(n->Dict_0[i as int] => n->Dict_0[i as int].1));
            let c = self.0[i].1.copy();
            let name = self.0[i].0.clone();
            out.push((name, c));
            i = i + 1;
        }
        proof {
            lemma_bindings_of(out@);
            assert(bindings_of(out@) =~= bindings_of(self.0@));
        }
        Table(out)
    }
}

impl Entry {
    /// An empty entry.
    pub fn new() -> (r: Entry)
        ensures
            r.0@ == Seq::<char>::empty(),
    {
        Entry(String::new())
    }

    /// An entry holding `text`.
    pub fn text(text: &str) -> (r: Entry)
        ensures
            r.0@ == text@,
    {
        Entry(String::from_str(text))
    }

    /// The text held.
    pub fn value(&self) -> (r: &str)
        ensures
            r@ == self.0@,
    {
        self.0.as_str()
    }
}

impl From<String> for Entry {
    fn from(text: String) -> (r: Entry) {
        Entry(text)
    }
}

impl vstd::std_specs::convert::FromSpecImpl<String> for Entry {
    open spec fn obeys_from_spec() -> bool {
        true
    }

    open spec fn from_spec(text: String) -> Entry {
        Entry(text)
    }
}

impl From<Entry> for Value {
    fn from(e: Entry) -> (r: Value) {
        Value::Entry(e)
    }
}

impl vstd::std_specs::convert::FromSpecImpl<Entry> for Value {
    open spec fn obeys_from_spec() -> bool {
        true
    }

    open spec fn from_spec(e: Entry) -> Value {
        Value::Entry(e)
    }
}

impl From<Array> for Value {
    fn from(a: Array) -> (r: Value) {
        Value::Array(a)
    }
}

impl vstd::std_specs::convert::FromSpecImpl<Array> for Value {
    open spec fn obeys_from_spec() -> bool {
        true
    }

    open spec fn from_spec(a: Array) -> Value {
        Value::Array(a)
    }
}

impl From<Table> for Value {
    fn from(t: Table) -> (r: Value) {
        Value::Table(t)
    }
}

impl vstd::std_specs::convert::FromSpecImpl<Table> for Value {
    open spec fn obeys_from_spec() -> bool {
        true
    }

    open spec fn from_spec(t: Table) -> Value {
        Value::Table(t)
    }
}

impl From<String> for Value {
    fn from(text: String) -> (r: Value) {
        Value::Entry(Entry(text))
    }
}

impl vstd::std_specs::convert::FromSpecImpl<String> for Value {
    open spec fn obeys_from_spec() -> bool {
        true
    }

    open spec fn from_spec(text: String) -> Value {
        Value::Entry(Entry(text))
    }
}

impl From<Vec<Value>> for Value {
    fn from(items: Vec<Value>) -> (r: Value) {
        Value::Array(Array(items))
    }
}

impl vstd::std_specs::convert::FromSpecImpl<Vec<Value>> for Value {
    open spec fn obeys_from_spec() -> bool {
        true
    }

    open spec fn from_spec(items: Vec<Value>) -> Value {
        Value::Array(Array(items))
    }
}

impl Value {
    /// An entry holding `text`.
    pub fn text(text: &str) -> (r: Value)
        ensures
            r@ == Node::Text(text@),
    {
        Value::Entry(Entry::text(text))
    }

    pub fn is_entry(&self) -> (r: bool)
        ensures
            r == self@ is Text,
    {
        match self {
            Value::Entry(_) => true,
            _ => false,
        }
    }

    pub fn as_entry(&self) -> (r: Option<&Entry>)
        ensures
            match self {
                Value::Entry(e) => r == Some(e),
                _ => r is None,
            },
    {
        match self {
            Value::Entry(e) => Some(e),
            _ => None,
        }
    }

    pub fn is_array(&self) -> (r: bool)
        ensures
            r == self@ is List,
    {
        match self {
            Value::Array(_) => true,
            _ => false,
        }
    }

    pub fn as_array(&self) -> (r: Option<&Array>)
        ensures
            match self {
                Value::Array(a) => r == Some(a),
                _ => r is None,
            },
    {
        match self {
            Value::Array(a) => Some(a),
            _ => None,
        }
    }

    pub fn is_table(&self) -> (r: bool)
        ensures
            r == self@ is Dict,
    {
        match self {
            Value::Table(_) => true,
            _ => false,
        }
    }

    pub fn as_table(&self) -> (r: Option<&Table>)
        ensures
            match self {
                Value::Table(t) => r == Some(t),
                _ => r is None,
            },
    {
        match self {
            Value::Table(t) => Some(t),
            _ => None,
        }
    }
}

impl Array {
    /// The items, in order.
    pub fn items(&self) -> (r: &Vec<Value>)
        ensures
            r == &self.0,
    {
        &self.0
    }
}

impl Table {
    /// The bindings, in the order they were made.
    pub fn bindings(&self) -> (r: &Vec<(String, Value)>)
        ensures
            r == &self.0,
    {
        &self.0
    }
}

impl Table {
    /// Binds `key` itself, dots and all, to `value`: the first binding of
    /// `key` is replaced, or a new binding is made at the end.
    pub fn insert(&mut self, key: String, value: Value)
        ensures
            final(self)@ == match first_key(old(self)@, key@) {
                Some(j) => old(self)@.update(j, (key@, value@)),
                None => old(self)@.push((key@, value@)),
            },
            distinct_keys(old(self)@) ==> distinct_keys(final(self)@),
    {
        proof {
            lemma_bindings_of(self.0@);
        }
        let ghost b = self.0@;
        let ghost v = value@;
        match self.position(key.as_str()) {
            Some(j) => {
                proof {
                    lemma_first_key_found(bindings_of(self.0@), key@);
                }
                let _ = self.0.remove(j);
                self.0.insert(j, (key, value));
                proof {
                    lemma_bindings_of(self.0@);
                    let ob = bindings_of(b);
                    let r = ob.update(j as int, (key@, v));
                    assert(bindings_of(self.0@) =~= r);
                    if distinct_keys(ob) {
                        assert forall|x: int, y: int| 0 <= x < y < r.len() implies r[x].0 != r[y].0 by {
                            assert(r[x].0 == ob[x].0);
                            assert(r[y].0 == ob[y].0);
                        }
                    }
                }
            },
            None => {
                let ghost k = key@;
                self.0.push((key, value));
                proof {
                    lemma_bindings_of(self.0@);
                    let ob = bindings_of(b);
                    let r = ob.push((k, v));
                    assert(bindings_of(self.0@) =~= r);
                    lemma_first_key_absent(ob, k);
                    if distinct_keys(ob) {
                        assert forall|x: int, y: int| 0 <= x < y < r.len() implies r[x].0 != r[y].0 by {
                            if y == ob.len() {
                                assert(r[x].0 == ob[x].0);
                            } else {
                                assert(r[x] == ob[x]);
                                assert(r[y] == ob[y]);
                            }
                        }
                    }
                }
            },
        }
    }
}

/// No key is bound twice.
pub open spec fn distinct_keys(b: Seq<(Seq<char>, Node)>) -> bool {
    forall|i: int, j: int| 0 <= i < j < b.len() ==> b[i].0 != b[j].0
}

/// Every table in the tree binds each of its keys once.
pub open spec fn well_formed(n: Node) -> bool
    decreases n,
{
    match n {
        Node::Text(_) => true,
        Node::List(items) => forall|i: int| 0 <= i < items.len() ==> well_formed(#[trigger] items[i]),
        Node::Dict(b) => distinct_keys(b) && forall|i: int|
            0 <= i < b.len() ==> well_formed(#[trigger] b[i].1),
    }
}

} // verus!
