//! How enum-like values are stored: a variant without payload is an entry
//! holding its name; one with a payload is a table with a single binding from
//! the name to the payload (a value, an array of values, or a table of fields).
use vstd::prelude::*;
use crate::error::Error;
use crate::path::{lemma_first_key_single, lookup};
use crate::value::{bindings_of, lemma_bindings_of, nodes_of, Array, Entry, Node, Table, Value};

verus! {

broadcast use vstd::std_specs::vec::group_vec_axioms, vstd::seq::group_seq_axioms;

/// The node that stores a variant named `name` with an optional payload.
pub open spec fn variant_node(name: Seq<char>, payload: Option<Node>) -> Node {
    match payload {
        None => Node::Text(name),
        Some(p) => Node::Dict(seq![(name, p)]),
    }
}

/// The name and payload that node `n` stores, when it stores a variant.
pub open spec fn variant_of(n: Node) -> Option<(Seq<char>, Option<Node>)> {
    match n {
        Node::Text(t) => Some((t, None)),
        Node::Dict(b) => if b.len() == 1 {
            Some((b[0].0, Some(b[0].1)))
        } else {
            None
        },
        Node::List(_) => None,
    }
}

/// Reading back a stored variant gives its name and payload.
pub proof fn lemma_variant_round_trip(name: Seq<char>, payload: Option<Node>)
    ensures
        variant_of(variant_node(name, payload)) == Some((name, payload)),
{
}

/// A path that starts with a variant's name reaches into its payload.
pub proof fn lemma_variant_path(name: Seq<char>, payload: Node, rest: Seq<Seq<char>>)
    requires
        rest.len() > 0,
    ensures
        lookup(variant_node(name, Some(payload)), seq![name] + rest) == lookup(payload, rest),
{
    let b = seq![(name, payload)];
    let p = seq![name] + rest;
    assert(p[0] == name);
    assert(p.drop_first() =~= rest);
    lemma_first_key_single(name, payload);
}

impl Value {
    /// A variant without payload: an entry holding its name.
    pub fn unit_variant(name: &str) -> (r: Value)
        ensures
            r@ == variant_node(name@, None),
    {
        Value::Entry(Entry(String::from_str(name)))
    }

    /// A variant with one payload value.
    pub fn newtype_variant(name: &str, payload: Value) -> (r: Value)
        ensures
            r@ == variant_node(name@, Some(payload@)),
    {
        let ghost p = payload@;
        let mut b: Vec<(String, Value)> = Vec::new();
        b.push((String::from_str(name), payload));
        proof {
            lemma_bindings_of(b@);
            assert(bindings_of(b@) =~= seq![(name@, p)]);
        }
        Value::Table(Table(b))
    }

    /// A variant whose payload is an ordered list of values.
    pub fn tuple_variant(name: &str, items: Vec<Value>) -> (r: Value)
        ensures
            r@ == variant_node(name@, Some(Node::List(nodes_of(items@)))),
    {
        Value::newtype_variant(name, Value::Array(Array(items)))
    }

    /// A variant whose payload is a table of named fields.
    pub fn struct_variant(name: &str, fields: Table) -> (r: Value)
        ensures
            r@ == variant_node(name@, Some(Node::Dict(fields@))),
    {
        Value::newtype_variant(name, Value::Table(fields))
    }

    /// The name of the variant stored here, and its payload if any.
    pub fn variant(&self) -> (r: Result<(&str, Option<&Value>), Error>)
        ensures
            match variant_of(self@) {
                Some((name, payload)) => r is Ok && r->Ok_0.0@ == name && match payload {
                    None => r->Ok_0.1 is None,
                    Some(p) => r->Ok_0.1 is Some && r->Ok_0.1->Some_0@ == p,
                },
                None => r is Err,
            },
    {
        match self {
            Value::Entry(e) => Ok((e.0.as_str(), None)),
            Value::Table(t) => {
                proof {
                    lemma_bindings_of(t.0@);
                }
                if t.0.len() == 1 {
                    Ok((t.0[0].0.as_str(), Some(&t.0[0].1)))
                } else {
                    Err(Error::custom("invalid value: map, expected map with a single key"))
                }
            },
            Value::Array(_) => Err(Error::custom("invalid type: sequence, expected string or map")),
        }
    }
}

/// Checks that a variant carries no payload.
pub fn unit_payload(payload: Option<&Value>) -> (r: Result<(), Error>)
    ensures
        r is Ok <==> payload is None,
{
    match payload {
        None => Ok(()),
        Some(_) => Err(Error::custom("invalid type: expected unit variant")),
    }
}

/// The single payload value of a variant.
pub fn newtype_payload(payload: Option<&Value>) -> (r: Result<&Value, Error>)
    ensures
        match payload {
            Some(p) => r is Ok && r->Ok_0 == p,
            None => r is Err,
        },
{
    match payload {
        Some(p) => Ok(p),
        None => Err(Error::custom("invalid type: unit variant, expected newtype variant")),
    }
}

/// The payload items of a variant that carries an ordered list.
pub fn tuple_payload(payload: Option<&Value>) -> (r: Result<&Array, Error>)
    ensures
        match payload {
            Some(p) => match p@ {
                Node::List(items) => r is Ok && r->Ok_0@ == items,
                _ => r is Err,
            },
            None => r is Err,
        },
{
    match payload {
        Some(Value::Array(a)) => Ok(a),
        Some(Value::Entry(_)) => Err(Error::custom("invalid type: string, expected tuple variant")),
        Some(Value::Table(_)) => Err(Error::custom("invalid type: map, expected tuple variant")),
        None => Err(Error::custom("invalid type: unit variant, expected tuple variant")),
    }
}

/// The payload fields of a variant that carries named fields.
pub fn struct_payload(payload: Option<&Value>) -> (r: Result<&Table, Error>)
    ensures
        match payload {
            Some(p) => match p@ {
                Node::Dict(b) => r is Ok && r->Ok_0@ == b,
                _ => r is Err,
            },
            None => r is Err,
        },
{
    match payload {
        Some(Value::Table(t)) => Ok(t),
        Some(Value::Entry(_)) => Err(Error::custom("invalid type: string, expected struct variant")),
        Some(Value::Array(_)) => Err(Error::custom("invalid type: sequence, expected struct variant")),
        None => Err(Error::custom("invalid type: unit variant, expected struct variant")),
    }
}

} // verus!
