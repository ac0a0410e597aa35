//! The bridge between typed values and the tree: [`Encode`] turns a value
//! into a [`Value`], [`Decode`] reads one back as a requested type.
use vstd::prelude::*;
use crate::error::Error;
use crate::text::{
    bool_in, bool_of, bool_str, bool_text, char_in, char_of, char_text, decimal, integer_in,
    signed_in, signed_text, unsigned_in, unsigned_text,
};
use crate::text::lemma_decimal_round_trip;
use crate::path::{lemma_put_then_lookup, lookup, put, Fault};
use crate::value::{lemma_nodes_of, node_of, nodes_of, Array, Entry, Node, Table, Value};

verus! {

broadcast use vstd::std_specs::vec::group_vec_axioms, vstd::seq::group_seq_axioms;

/// A value that can be stored in the tree.
///
/// Verified implementations state `encoding`; its default describes a value
/// that cannot be stored, and an implementation written outside verified
/// code that keeps it is not held to the contract.
pub trait Encode {
    /// The node that this value is stored as, or `None` when it carries no content.
    open spec fn encoding(&self) -> Option<Node> {
        None
    }

    fn encode(&self) -> (r: Result<Value, Error>)
        ensures
            match self.encoding() {
                Some(n) => r is Ok && r->Ok_0@ == n,
                None => r is Err,
            },
    ;
}

/// A value that can be read from the tree.
///
/// Verified implementations state `decodable` and `decodes_to`; their
/// defaults describe a type that no node reads as, and an implementation
/// written outside verified code that keeps them is not held to the contract.
pub trait Decode: Sized {
    /// Whether node `n` can be read as this type.
    open spec fn decodable(n: Node) -> bool {
        false
    }

    /// Whether `x` is what node `n` reads as.
    open spec fn decodes_to(n: Node, x: Self) -> bool {
        false
    }

    fn decode(v: &Value) -> (r: Result<Self, Error>)
        ensures
            r is Ok <==> Self::decodable(v@),
            r is Ok ==> Self::decodes_to(v@, r->Ok_0),
    ;
}

/// The text of an entry, or the error for reading a container as `what`.
pub fn entry_text<'a>(v: &'a Value, what: &str) -> (r: Result<&'a str, Error>)
    ensures
        match v@ {
            Node::Text(t) => r is Ok && r->Ok_0@ == t,
            Node::List(_) => r is Err && r->Err_0@ == "cannot deserialize array variant as "@ + what@,
            Node::Dict(_) => r is Err && r->Err_0@ == "cannot deserialize table variant as "@ + what@,
        },
{
    match v {
        Value::Entry(e) => Ok(e.0.as_str()),
        Value::Array(_) => {
            let mut m = String::from_str("cannot deserialize array variant as ");
            m.append(what);
            Err(Error::from_message(m))
        },
        Value::Table(_) => {
            let mut m = String::from_str("cannot deserialize table variant as ");
            m.append(what);
            Err(Error::from_message(m))
        },
    }
}

fn text_value(s: String) -> (r: Value)
    ensures
        r@ == Node::Text(s@),
{
    Value::Entry(Entry(s))
}


impl Encode for i8 {
    open spec fn encoding(&self) -> Option<Node> {
        Some(Node::Text(decimal(*self as int)))
    }

    fn encode(&self) -> (r: Result<Value, Error>) {
        Ok(text_value(signed_text(*self as i128)))
    }
}

impl Decode for i8 {
    open spec fn decodable(n: Node) -> bool {
        n is Text && integer_in(n->Text_0, i8::MIN as int, i8::MAX as int) is Some
    }

    open spec fn decodes_to(n: Node, x: i8) -> bool {
        n is Text && integer_in(n->Text_0, i8::MIN as int, i8::MAX as int) == Some(x as int)
    }

    fn decode(v: &Value) -> (r: Result<i8, Error>) {
        match entry_text(v, "i8") {
            Err(e) => Err(e),
            Ok(s) => match signed_in(s, i8::MIN as i128, i8::MAX as i128) {
                Ok(x) => Ok(x as i8),
                Err(f) => Err(Error::custom(f.describe())),
            },
        }
    }
}

impl Encode for i16 {
    open spec fn encoding(&self) -> Option<Node> {
        Some(Node::Text(decimal(*self as int)))
    }

    fn encode(&self) -> (r: Result<Value, Error>) {
        Ok(text_value(signed_text(*self as i128)))
    }
}

impl Decode for i16 {
    open spec fn decodable(n: Node) -> bool {
        n is Text && integer_in(n->Text_0, i16::MIN as int, i16::MAX as int) is Some
    }

    open spec fn decodes_to(n: Node, x: i16) -> bool {
        n is Text && integer_in(n->Text_0, i16::MIN as int, i16::MAX as int) == Some(x as int)
    }

    fn decode(v: &Value) -> (r: Result<i16, Error>) {
        match entry_text(v, "i16") {
            Err(e) => Err(e),
            Ok(s) => match signed_in(s, i16::MIN as i128, i16::MAX as i128) {
                Ok(x) => Ok(x as i16),
                Err(f) => Err(Error::custom(f.describe())),
            },
        }
    }
}

impl Encode for i32 {
    open spec fn encoding(&self) -> Option<Node> {
        Some(Node::Text(decimal(*self as int)))
    }

    fn encode(&self) -> (r: Result<Value, Error>) {
        Ok(text_value(signed_text(*self as i128)))
    }
}

impl Decode for i32 {
    open spec fn decodable(n: Node) -> bool {
        n is Text && integer_in(n->Text_0, i32::MIN as int, i32::MAX as int) is Some
    }

    open spec fn decodes_to(n: Node, x: i32) -> bool {
        n is Text && integer_in(n->Text_0, i32::MIN as int, i32::MAX as int) == Some(x as int)
    }

    fn decode(v: &Value) -> (r: Result<i32, Error>) {
        match entry_text(v, "i32") {
            Err(e) => Err(e),
            Ok(s) => match signed_in(s, i32::MIN as i128, i32::MAX as i128) {
                Ok(x) => Ok(x as i32),
                Err(f) => Err(Error::custom(f.describe())),
            },
        }
    }
}

impl Encode for i64 {
    open spec fn encoding(&self) -> Option<Node> {
        Some(Node::Text(decimal(*self as int)))
    }

    fn encode(&self) -> (r: Result<Value, Error>) {
        Ok(text_value(signed_text(*self as i128)))
    }
}

impl Decode for i64 {
    open spec fn decodable(n: Node) -> bool {
        n is Text && integer_in(n->Text_0, i64::MIN as int, i64::MAX as int) is Some
    }

    open spec fn decodes_to(n: Node, x: i64) -> bool {
        n is Text && integer_in(n->Text_0, i64::MIN as int, i64::MAX as int) == Some(x as int)
    }

    fn decode(v: &Value) -> (r: Result<i64, Error>) {
        match entry_text(v, "i64") {
            Err(e) => Err(e),
            Ok(s) => match signed_in(s, i64::MIN as i128, i64::MAX as i128) {
                Ok(x) => Ok(x as i64),
                Err(f) => Err(Error::custom(f.describe())),
            },
        }
    }
}

impl Encode for i128 {
    open spec fn encoding(&self) -> Option<Node> {
        Some(Node::Text(decimal(*self as int)))
    }

    fn encode(&self) -> (r: Result<Value, Error>) {
        Ok(text_value(signed_text(*self as i128)))
    }
}

impl Decode for i128 {
    open spec fn decodable(n: Node) -> bool {
        n is Text && integer_in(n->Text_0, i128::MIN as int, i128::MAX as int) is Some
    }

    open spec fn decodes_to(n: Node, x: i128) -> bool {
        n is Text && integer_in(n->Text_0, i128::MIN as int, i128::MAX as int) == Some(x as int)
    }

    fn decode(v: &Value) -> (r: Result<i128, Error>) {
        match entry_text(v, "i128") {
            Err(e) => Err(e),
            Ok(s) => match signed_in(s, i128::MIN as i128, i128::MAX as i128) {
                Ok(x) => Ok(x as i128),
                Err(f) => Err(Error::custom(f.describe())),
            },
        }
    }
}

impl Encode for isize {
    open spec fn encoding(&self) -> Option<Node> {
        Some(Node::Text(decimal(*self as int)))
    }

    fn encode(&self) -> (r: Result<Value, Error>) {
        Ok(text_value(signed_text(*self as i128)))
    }
}

impl Decode for isize {
    open spec fn decodable(n: Node) -> bool {
        n is Text && integer_in(n->Text_0, isize::MIN as int, isize::MAX as int) is Some
    }

    open spec fn decodes_to(n: Node, x: isize) -> bool {
        n is Text && integer_in(n->Text_0, isize::MIN as int, isize::MAX as int) == Some(x as int)
    }

    fn decode(v: &Value) -> (r: Result<isize, Error>) {
        match entry_text(v, "isize") {
            Err(e) => Err(e),
            Ok(s) => match signed_in(s, isize::MIN as i128, isize::MAX as i128) {
                Ok(x) => Ok(x as isize),
                Err(f) => Err(Error::custom(f.describe())),
            },
        }
    }
}

impl Encode for u8 {
    open spec fn encoding(&self) -> Option<Node> {
        Some(Node::Text(decimal(*self as int)))
    }

    fn encode(&self) -> (r: Result<Value, Error>) {
        Ok(text_value(unsigned_text(*self as u128)))
    }
}

impl Decode for u8 {
    open spec fn decodable(n: Node) -> bool {
        n is Text && integer_in(n->Text_0, 0, u8::MAX as int) is Some
    }

    open spec fn decodes_to(n: Node, x: u8) -> bool {
        n is Text && integer_in(n->Text_0, 0, u8::MAX as int) == Some(x as int)
    }

    fn decode(v: &Value) -> (r: Result<u8, Error>) {
        match entry_text(v, "u8") {
            Err(e) => Err(e),
            Ok(s) => match unsigned_in(s, u8::MAX as u128) {
                Ok(x) => Ok(x as u8),
                Err(f) => Err(Error::custom(f.describe())),
            },
        }
    }
}

impl Encode for u16 {
    open spec fn encoding(&self) -> Option<Node> {
        Some(Node::Text(decimal(*self as int)))
    }

    fn encode(&self) -> (r: Result<Value, Error>) {
        Ok(text_value(unsigned_text(*self as u128)))
    }
}

impl Decode for u16 {
    open spec fn decodable(n: Node) -> bool {
        n is Text && integer_in(n->Text_0, 0, u16::MAX as int) is Some
    }

    open spec fn decodes_to(n: Node, x: u16) -> bool {
        n is Text && integer_in(n->Text_0, 0, u16::MAX as int) == Some(x as int)
    }

    fn decode(v: &Value) -> (r: Result<u16, Error>) {
        match entry_text(v, "u16") {
            Err(e) => Err(e),
            Ok(s) => match unsigned_in(s, u16::MAX as u128) {
                Ok(x) => Ok(x as u16),
                Err(f) => Err(Error::custom(f.describe())),
            },
        }
    }
}

impl Encode for u32 {
    open spec fn encoding(&self) -> Option<Node> {
        Some(Node::Text(decimal(*self as int)))
    }

    fn encode(&self) -> (r: Result<Value, Error>) {
        Ok(text_value(unsigned_text(*self as u128)))
    }
}

impl Decode for u32 {
    open spec fn decodable(n: Node) -> bool {
        n is Text && integer_in(n->Text_0, 0, u32::MAX as int) is Some
    }

    open spec fn decodes_to(n: Node, x: u32) -> bool {
        n is Text && integer_in(n->Text_0, 0, u32::MAX as int) == Some(x as int)
    }

    fn decode(v: &Value) -> (r: Result<u32, Error>) {
        match entry_text(v, "u32") {
            Err(e) => Err(e),
            Ok(s) => match unsigned_in(s, u32::MAX as u128) {
                Ok(x) => Ok(x as u32),
                Err(f) => Err(Error::custom(f.describe())),
            },
        }
    }
}

impl Encode for u64 {
    open spec fn encoding(&self) -> Option<Node> {
        Some(Node::Text(decimal(*self as int)))
    }

    fn encode(&self) -> (r: Result<Value, Error>) {
        Ok(text_value(unsigned_text(*self as u128)))
    }
}

impl Decode for u64 {
    open spec fn decodable(n: Node) -> bool {
        n is Text && integer_in(n->Text_0, 0, u64::MAX as int) is Some
    }

    open spec fn decodes_to(n: Node, x: u64) -> bool {
        n is Text && integer_in(n->Text_0, 0, u64::MAX as int) == Some(x as int)
    }

    fn decode(v: &Value) -> (r: Result<u64, Error>) {
        match entry_text(v, "u64") {
            Err(e) => Err(e),
            Ok(s) => match unsigned_in(s, u64::MAX as u128) {
                Ok(x) => Ok(x as u64),
                Err(f) => Err(Error::custom(f.describe())),
            },
        }
    }
}

impl Encode for u128 {
    open spec fn encoding(&self) -> Option<Node> {
        Some(Node::Text(decimal(*self as int)))
    }

    fn encode(&self) -> (r: Result<Value, Error>) {
        Ok(text_value(unsigned_text(*self as u128)))
    }
}

impl Decode for u128 {
    open spec fn decodable(n: Node) -> bool {
        n is Text && integer_in(n->Text_0, 0, u128::MAX as int) is Some
    }

    open spec fn decodes_to(n: Node, x: u128) -> bool {
        n is Text && integer_in(n->Text_0, 0, u128::MAX as int) == Some(x as int)
    }

    fn decode(v: &Value) -> (r: Result<u128, Error>) {
        match entry_text(v, "u128") {
            Err(e) => Err(e),
            Ok(s) => match unsigned_in(s, u128::MAX as u128) {
                Ok(x) => Ok(x as u128),
                Err(f) => Err(Error::custom(f.describe())),
            },
        }
    }
}

impl Encode for usize {
    open spec fn encoding(&self) -> Option<Node> {
        Some(Node::Text(decimal(*self as int)))
    }

    fn encode(&self) -> (r: Result<Value, Error>) {
        Ok(text_value(unsigned_text(*self as u128)))
    }
}

impl Decode for usize {
    open spec fn decodable(n: Node) -> bool {
        n is Text && integer_in(n->Text_0, 0, usize::MAX as int) is Some
    }

    open spec fn decodes_to(n: Node, x: usize) -> bool {
        n is Text && integer_in(n->Text_0, 0, usize::MAX as int) == Some(x as int)
    }

    fn decode(v: &Value) -> (r: Result<usize, Error>) {
        match entry_text(v, "usize") {
            Err(e) => Err(e),
            Ok(s) => match unsigned_in(s, usize::MAX as u128) {
                Ok(x) => Ok(x as usize),
                Err(f) => Err(Error::custom(f.describe())),
            },
        }
    }
}

impl Encode for bool {
    open spec fn encoding(&self) -> Option<Node> {
        Some(Node::Text(bool_text(*self)))
    }

    fn encode(&self) -> (r: Result<Value, Error>) {
        Ok(text_value(String::from_str(bool_str(*self))))
    }
}

impl Decode for bool {
    open spec fn decodable(n: Node) -> bool {
        n is Text && bool_of(n->Text_0) is Some
    }

    open spec fn decodes_to(n: Node, x: bool) -> bool {
        n is Text && bool_of(n->Text_0) == Some(x)
    }

    fn decode(v: &Value) -> (r: Result<bool, Error>) {
        match entry_text(v, "bool") {
            Err(e) => Err(e),
            Ok(s) => match bool_in(s) {
                Some(b) => Ok(b),
                None => Err(Error::custom("provided string was not `true` or `false`")),
            },
        }
    }
}

impl Encode for char {
    open spec fn encoding(&self) -> Option<Node> {
        Some(Node::Text(seq![*self]))
    }

    fn encode(&self) -> (r: Result<Value, Error>) {
        Ok(text_value(char_text(*self)))
    }
}

impl Decode for char {
    open spec fn decodable(n: Node) -> bool {
        n is Text && char_of(n->Text_0) is Some
    }

    open spec fn decodes_to(n: Node, x: char) -> bool {
        n is Text && char_of(n->Text_0) == Some(x)
    }

    fn decode(v: &Value) -> (r: Result<char, Error>) {
        match entry_text(v, "char") {
            Err(e) => Err(e),
            Ok(s) => match char_in(s) {
                Some(c) => Ok(c),
                None => Err(Error::custom("expected a string of exactly one character")),
            },
        }
    }
}

impl Encode for String {
    open spec fn encoding(&self) -> Option<Node> {
        Some(Node::Text(self@))
    }

    fn encode(&self) -> (r: Result<Value, Error>) {
        Ok(text_value(self.clone()))
    }
}

impl<'a> Encode for &'a str {
    open spec fn encoding(&self) -> Option<Node> {
        Some(Node::Text((*self)@))
    }

    fn encode(&self) -> (r: Result<Value, Error>) {
        Ok(text_value(String::from_str(*self)))
    }
}

impl Decode for String {
    open spec fn decodable(n: Node) -> bool {
        n is Text
    }

    open spec fn decodes_to(n: Node, x: String) -> bool {
        n == Node::Text(x@)
    }

    fn decode(v: &Value) -> (r: Result<String, Error>) {
        match entry_text(v, "string") {
            Err(e) => Err(e),
            Ok(s) => Ok(String::from_str(s)),
        }
    }
}

/// The unit value carries no content, so it cannot be stored.
impl Encode for () {
    open spec fn encoding(&self) -> Option<Node> {
        None
    }

    fn encode(&self) -> (r: Result<Value, Error>) {
        Err(Error::custom("unsupported value: a unit carries no content"))
    }
}


/// A subtree is stored as itself.
impl Encode for Value {
    open spec fn encoding(&self) -> Option<Node> {
        Some(self@)
    }

    fn encode(&self) -> (r: Result<Value, Error>) {
        Ok(self.copy())
    }
}

/// Any node reads as a copy of itself.
impl Decode for Value {
    open spec fn decodable(n: Node) -> bool {
        true
    }

    open spec fn decodes_to(n: Node, x: Value) -> bool {
        x@ == n
    }

    fn decode(v: &Value) -> (r: Result<Value, Error>) {
        Ok(v.copy())
    }
}

/// A table is stored as itself.
impl Encode for Table {
    open spec fn encoding(&self) -> Option<Node> {
        Some(Node::Dict(self@))
    }

    fn encode(&self) -> (r: Result<Value, Error>) {
        Ok(Value::Table(self.copy()))
    }
}

/// A table node reads as a copy of its bindings.
impl Decode for Table {
    open spec fn decodable(n: Node) -> bool {
        n is Dict
    }

    open spec fn decodes_to(n: Node, x: Table) -> bool {
        n == Node::Dict(x@)
    }

    fn decode(v: &Value) -> (r: Result<Table, Error>) {
        match v {
            Value::Table(t) => Ok(t.copy()),
            Value::Entry(_) => Err(Error::custom("invalid type: string, expected a map")),
            Value::Array(_) => Err(Error::custom("invalid type: sequence, expected a map")),
        }
    }
}

impl<T: Encode> Encode for Vec<T> {
    open spec fn encoding(&self) -> Option<Node> {
        if forall|i: int| 0 <= i < self@.len() ==> (#[trigger] self@[i]).encoding() is Some {
            Some(Node::List(Seq::new(self@.len(), |i: int| self@[i].encoding()->Some_0)))
        } else {
            None
        }
    }

    fn encode(&self) -> (r: Result<Value, Error>) {
        let mut out: Vec<Value> = Vec::new();
        let mut i: usize = 0;
        while i < self.len()
            invariant
                0 <= i <= self@.len(),
                out@.len() == i,
                forall|m: int|
                    0 <= m < i ==> (#[trigger] self@[m]).encoding() is Some && node_of(out@[m])
                        == self@[m].encoding()->Some_0,
            decreases self@.len() - i,
        {
            match self[i].encode() {
                Err(e) => {
                    return Err(e);
                },
                Ok(v) => {
                    out.push(v);
                },
            }
            i = i + 1;
        }
        proof {
            lemma_nodes_of(out@);
            assert(nodes_of(out@) =~= Seq::new(self@.len(), |i: int| self@[i].encoding()->Some_0));
        }
        Ok(Value::Array(Array(out)))
    }
}

impl<T: Decode> Decode for Vec<T> {
    open spec fn decodable(n: Node) -> bool {
        n is List && forall|i: int| 0 <= i < n->List_0.len() ==> T::decodable(#[trigger] n->List_0[i])
    }

    open spec fn decodes_to(n: Node, x: Vec<T>) -> bool {
        &&& n is List
        &&& x@.len() == n->List_0.len()
        &&& forall|i: int| 0 <= i < x@.len() ==> T::decodes_to(#[trigger] n->List_0[i], x@[i])
    }

    fn decode(v: &Value) -> (r: Result<Vec<T>, Error>) {
        match v {
            Value::Array(a) => {
                proof {
                    lemma_nodes_of(a.0@);
                }
                let ghost items = nodes_of(a.0@);
                let mut out: Vec<T> = Vec::new();
                let mut i: usize = 0;
                while i < a.0.len()
                    invariant
                        0 <= i <= a.0@.len(),
                        v@ == Node::List(items),
                        items.len() == a.0@.len(),
                        forall|m: int| 0 <= m < items.len() ==> #[trigger] items[m] == node_of(a.0@[m]),
                        out@.len() == i,
                        forall|m: int| 0 <= m < i ==> T::decodable(#[trigger] items[m]),
                        forall|m: int| 0 <= m < i ==> T::decodes_to(#[trigger] items[m], out@[m]),
                    decreases a.0@.len() - i,
                {
                    match T::decode(&a.0[i]) {
                        Err(e) => {
                            assert(!T::decodable(v@->List_0[i as int]));
                            return Err(e);
                        },
                        Ok(x) => {
                            out.push(x);
                        },
                    }
                    i = i + 1;
                }
                Ok(out)
            },
            Value::Entry(_) => Err(Error::custom("invalid type: string, expected a sequence")),
            Value::Table(_) => Err(Error::custom("invalid type: map, expected a sequence")),
        }
    }
}

/// A fixed-length sequence read: the items of an array of exactly `len` items.
pub fn items_of<'a>(v: &'a Value, len: usize) -> (r: Result<&'a Vec<Value>, Error>)
    ensures
        match r {
            Ok(items) => v@ == Node::List(nodes_of(items@)) && items@.len() == len,
            Err(_) => !(v@ is List && v@->List_0.len() == len),
        },
{
    match v {
        Value::Array(a) => {
            proof {
                lemma_nodes_of(a.0@);
            }
            if a.0.len() == len {
                Ok(&a.0)
            } else {
                Err(Error::custom("invalid length: unexpected number of items"))
            }
        },
        Value::Entry(_) => Err(Error::custom("invalid type: string, expected a sequence")),
        Value::Table(_) => Err(Error::custom("invalid type: map, expected a sequence")),
    }
}

impl<A: Encode, B: Encode> Encode for (A, B) {
    open spec fn encoding(&self) -> Option<Node> {
        if self.0.encoding() is Some && self.1.encoding() is Some {
            Some(Node::List(seq![self.0.encoding()->Some_0, self.1.encoding()->Some_0]))
        } else {
            None
        }
    }

    fn encode(&self) -> (r: Result<Value, Error>) {
        let mut out: Vec<Value> = Vec::new();
        let v0 = match self.0.encode() {
            Ok(v) => v,
            Err(e) => {
                return Err(e);
            },
        };
        out.push(v0);
        let v1 = match self.1.encode() {
            Ok(v) => v,
            Err(e) => {
                return Err(e);
            },
        };
        out.push(v1);
        proof {
            lemma_nodes_of(out@);
            assert(nodes_of(out@) =~= seq![self.0.encoding()->Some_0, self.1.encoding()->Some_0]);
        }
        Ok(Value::Array(Array(out)))
    }
}

impl<A: Decode, B: Decode> Decode for (A, B) {
    open spec fn decodable(n: Node) -> bool {
        n is List && n->List_0.len() == 2 && A::decodable(n->List_0[0]) && B::decodable(n->List_0[1])
    }

    open spec fn decodes_to(n: Node, x: (A, B)) -> bool {
        n is List && n->List_0.len() == 2 && A::decodes_to(n->List_0[0], x.0) && B::decodes_to(n->List_0[1], x.1)
    }

    fn decode(v: &Value) -> (r: Result<(A, B), Error>) {
        match items_of(v, 2) {
            Err(e) => Err(e),
            Ok(items) => {
                proof {
                    lemma_nodes_of(items@);
                }
                let x0 = match A::decode(&items[0]) {
                    Ok(x) => x,
                    Err(e) => {
                        return Err(e);
                    },
                };
                let x1 = match B::decode(&items[1]) {
                    Ok(x) => x,
                    Err(e) => {
                        return Err(e);
                    },
                };
                Ok((x0, x1))
            },
        }
    }
}

impl<A: Encode, B: Encode, C: Encode> Encode for (A, B, C) {
    open spec fn encoding(&self) -> Option<Node> {
        if self.0.encoding() is Some && self.1.encoding() is Some && self.2.encoding() is Some {
            Some(Node::List(seq![self.0.encoding()->Some_0, self.1.encoding()->Some_0, self.2.encoding()->Some_0]))
        } else {
            None
        }
    }

    fn encode(&self) -> (r: Result<Value, Error>) {
        let mut out: Vec<Value> = Vec::new();
        let v0 = match self.0.encode() {
            Ok(v) => v,
            Err(e) => {
                return Err(e);
            },
        };
        out.push(v0);
        let v1 = match self.1.encode() {
            Ok(v) => v,
            Err(e) => {
                return Err(e);
            },
        };
        out.push(v1);
        let v2 = match self.2.encode() {
            Ok(v) => v,
            Err(e) => {
                return Err(e);
            },
        };
        out.push(v2);
        proof {
            lemma_nodes_of(out@);
            assert(nodes_of(out@) =~= seq![self.0.encoding()->Some_0, self.1.encoding()->Some_0, self.2.encoding()->Some_0]);
        }
        Ok(Value::Array(Array(out)))
    }
}

impl<A: Decode, B: Decode, C: Decode> Decode for (A, B, C) {
    open spec fn decodable(n: Node) -> bool {
        n is List && n->List_0.len() == 3 && A::decodable(n->List_0[0]) && B::decodable(n->List_0[1]) && C::decodable(n->List_0[2])
    }

    open spec fn decodes_to(n: Node, x: (A, B, C)) -> bool {
        n is List && n->List_0.len() == 3 && A::decodes_to(n->List_0[0], x.0) && B::decodes_to(n->List_0[1], x.1) && C::decodes_to(n->List_0[2], x.2)
    }

    fn decode(v: &Value) -> (r: Result<(A, B, C), Error>) {
        match items_of(v, 3) {
            Err(e) => Err(e),
            Ok(items) => {
                proof {
                    lemma_nodes_of(items@);
                }
                let x0 = match A::decode(&items[0]) {
                    Ok(x) => x,
                    Err(e) => {
                        return Err(e);
                    },
                };
                let x1 = match B::decode(&items[1]) {
                    Ok(x) => x,
                    Err(e) => {
                        return Err(e);
                    },
                };
                let x2 = match C::decode(&items[2]) {
                    Ok(x) => x,
                    Err(e) => {
                        return Err(e);
                    },
                };
                Ok((x0, x1, x2))
            },
        }
    }
}

impl<A: Encode, B: Encode, C: Encode, D: Encode> Encode for (A, B, C, D) {
    open spec fn encoding(&self) -> Option<Node> {
        if self.0.encoding() is Some && self.1.encoding() is Some && self.2.encoding() is Some && self.3.encoding() is Some {
            Some(Node::List(seq![self.0.encoding()->Some_0, self.1.encoding()->Some_0, self.2.encoding()->Some_0, self.3.encoding()->Some_0]))
        } else {
            None
        }
    }

    fn encode(&self) -> (r: Result<Value, Error>) {
        let mut out: Vec<Value> = Vec::new();
        let v0 = match self.0.encode() {
            Ok(v) => v,
            Err(e) => {
                return Err(e);
            },
        };
        out.push(v0);
        let v1 = match self.1.encode() {
            Ok(v) => v,
            Err(e) => {
                return Err(e);
            },
        };
        out.push(v1);
        let v2 = match self.2.encode() {
            Ok(v) => v,
            Err(e) => {
                return Err(e);
            },
        };
        out.push(v2);
        let v3 = match self.3.encode() {
            Ok(v) => v,
            Err(e) => {
                return Err(e);
            },
        };
        out.push(v3);
        proof {
            lemma_nodes_of(out@);
            assert(nodes_of(out@) =~= seq![self.0.encoding()->Some_0, self.1.encoding()->Some_0, self.2.encoding()->Some_0, self.3.encoding()->Some_0]);
        }
        Ok(Value::Array(Array(out)))
    }
}

impl<A: Decode, B: Decode, C: Decode, D: Decode> Decode for (A, B, C, D) {
    open spec fn decodable(n: Node) -> bool {
        n is List && n->List_0.len() == 4 && A::decodable(n->List_0[0]) && B::decodable(n->List_0[1]) && C::decodable(n->List_0[2]) && D::decodable(n->List_0[3])
    }

    open spec fn decodes_to(n: Node, x: (A, B, C, D)) -> bool {
        n is List && n->List_0.len() == 4 && A::decodes_to(n->List_0[0], x.0) && B::decodes_to(n->List_0[1], x.1) && C::decodes_to(n->List_0[2], x.2) && D::decodes_to(n->List_0[3], x.3)
    }

    fn decode(v: &Value) -> (r: Result<(A, B, C, D), Error>) {
        match items_of(v, 4) {
            Err(e) => Err(e),
            Ok(items) => {
                proof {
                    lemma_nodes_of(items@);
                }
                let x0 = match A::decode(&items[0]) {
                    Ok(x) => x,
                    Err(e) => {
                        return Err(e);
                    },
                };
                let x1 = match B::decode(&items[1]) {
                    Ok(x) => x,
                    Err(e) => {
                        return Err(e);
                    },
                };
                let x2 = match C::decode(&items[2]) {
                    Ok(x) => x,
                    Err(e) => {
                        return Err(e);
                    },
                };
                let x3 = match D::decode(&items[3]) {
                    Ok(x) => x,
                    Err(e) => {
                        return Err(e);
                    },
                };
                Ok((x0, x1, x2, x3))
            },
        }
    }
}


/// Reads a whole tree as a `T`.
pub fn from_value<T: Decode>(value: Value) -> (r: Result<T, Error>)
    ensures
        r is Ok <==> T::decodable(value@),
        r is Ok ==> T::decodes_to(value@, r->Ok_0),
{
    T::decode(&value)
}

/// Turns a `T` into a tree.
pub fn to_value<T: Encode>(value: T) -> (r: Result<Value, Error>)
    ensures
        match value.encoding() {
            Some(n) => r is Ok && r->Ok_0@ == n,
            None => r is Err,
        },
{
    value.encode()
}

/// Storing an `i8` and reading it back gives its canonical text when read as
/// text, and the same `i8` when read as `i8`.
pub proof fn lemma_i8_round_trip(root: Node, p: Seq<Seq<char>>, v: i8)
    requires
        put(root, p, v.encoding()->Some_0) is Ok,
    ensures
        ({
            let stored = lookup(put(root, p, v.encoding()->Some_0)->Ok_0, p);
            &&& stored == Ok::<Node, Fault>(Node::Text(decimal(v as int)))
            &&& i8::decodable(stored->Ok_0)
            &&& forall|x: i8| i8::decodes_to(stored->Ok_0, x) <==> x == v
            &&& forall|s: String| String::decodes_to(stored->Ok_0, s) <==> s@ == decimal(v as int)
        }),
{
    lemma_put_then_lookup(root, p, v.encoding()->Some_0);
    lemma_decimal_round_trip(v as int, i8::MIN as int, i8::MAX as int);
}

/// Storing an `i16` and reading it back gives its canonical text when read as
/// text, and the same `i16` when read as `i16`.
pub proof fn lemma_i16_round_trip(root: Node, p: Seq<Seq<char>>, v: i16)
    requires
        put(root, p, v.encoding()->Some_0) is Ok,
    ensures
        ({
            let stored = lookup(put(root, p, v.encoding()->Some_0)->Ok_0, p);
            &&& stored == Ok::<Node, Fault>(Node::Text(decimal(v as int)))
            &&& i16::decodable(stored->Ok_0)
            &&& forall|x: i16| i16::decodes_to(stored->Ok_0, x) <==> x == v
            &&& forall|s: String| String::decodes_to(stored->Ok_0, s) <==> s@ == decimal(v as int)
        }),
{
    lemma_put_then_lookup(root, p, v.encoding()->Some_0);
    lemma_decimal_round_trip(v as int, i16::MIN as int, i16::MAX as int);
}

/// Storing an `i32` and reading it back gives its canonical text when read as
/// text, and the same `i32` when read as `i32`.
pub proof fn lemma_i32_round_trip(root: Node, p: Seq<Seq<char>>, v: i32)
    requires
        put(root, p, v.encoding()->Some_0) is Ok,
    ensures
        ({
            let stored = lookup(put(root, p, v.encoding()->Some_0)->Ok_0, p);
            &&& stored == Ok::<Node, Fault>(Node::Text(decimal(v as int)))
            &&& i32::decodable(stored->Ok_0)
            &&& forall|x: i32| i32::decodes_to(stored->Ok_0, x) <==> x == v
            &&& forall|s: String| String::decodes_to(stored->Ok_0, s) <==> s@ == decimal(v as int)
        }),
{
    lemma_put_then_lookup(root, p, v.encoding()->Some_0);
    lemma_decimal_round_trip(v as int, i32::MIN as int, i32::MAX as int);
}

/// Storing an `i64` and reading it back gives its canonical text when read as
/// text, and the same `i64` when read as `i64`.
pub proof fn lemma_i64_round_trip(root: Node, p: Seq<Seq<char>>, v: i64)
    requires
        put(root, p, v.encoding()->Some_0) is Ok,
    ensures
        ({
            let stored = lookup(put(root, p, v.encoding()->Some_0)->Ok_0, p);
            &&& stored == Ok::<Node, Fault>(Node::Text(decimal(v as int)))
            &&& i64::decodable(stored->Ok_0)
            &&& forall|x: i64| i64::decodes_to(stored->Ok_0, x) <==> x == v
            &&& forall|s: String| String::decodes_to(stored->Ok_0, s) <==> s@ == decimal(v as int)
        }),
{
    lemma_put_then_lookup(root, p, v.encoding()->Some_0);
    lemma_decimal_round_trip(v as int, i64::MIN as int, i64::MAX as int);
}

/// Storing an `i128` and reading it back gives its canonical text when read as
/// text, and the same `i128` when read as `i128`.
pub proof fn lemma_i128_round_trip(root: Node, p: Seq<Seq<char>>, v: i128)
    requires
        put(root, p, v.encoding()->Some_0) is Ok,
    ensures
        ({
            let stored = lookup(put(root, p, v.encoding()->Some_0)->Ok_0, p);
            &&& stored == Ok::<Node, Fault>(Node::Text(decimal(v as int)))
            &&& i128::decodable(stored->Ok_0)
            &&& forall|x: i128| i128::decodes_to(stored->Ok_0, x) <==> x == v
            &&& forall|s: String| String::decodes_to(stored->Ok_0, s) <==> s@ == decimal(v as int)
        }),
{
    lemma_put_then_lookup(root, p, v.encoding()->Some_0);
    lemma_decimal_round_trip(v as int, i128::MIN as int, i128::MAX as int);
}

/// Storing an `isize` and reading it back gives its canonical text when read as
/// text, and the same `isize` when read as `isize`.
pub proof fn lemma_isize_round_trip(root: Node, p: Seq<Seq<char>>, v: isize)
    requires
        put(root, p, v.encoding()->Some_0) is Ok,
    ensures
        ({
            let stored = lookup(put(root, p, v.encoding()->Some_0)->Ok_0, p);
            &&& stored == Ok::<Node, Fault>(Node::Text(decimal(v as int)))
            &&& isize::decodable(stored->Ok_0)
            &&& forall|x: isize| isize::decodes_to(stored->Ok_0, x) <==> x == v
            &&& forall|s: String| String::decodes_to(stored->Ok_0, s) <==> s@ == decimal(v as int)
        }),
{
    lemma_put_then_lookup(root, p, v.encoding()->Some_0);
    lemma_decimal_round_trip(v as int, isize::MIN as int, isize::MAX as int);
}

/// Storing an `u8` and reading it back gives its canonical text when read as
/// text, and the same `u8` when read as `u8`.
pub proof fn lemma_u8_round_trip(root: Node, p: Seq<Seq<char>>, v: u8)
    requires
        put(root, p, v.encoding()->Some_0) is Ok,
    ensures
        ({
            let stored = lookup(put(root, p, v.encoding()->Some_0)->Ok_0, p);
            &&& stored == Ok::<Node, Fault>(Node::Text(decimal(v as int)))
            &&& u8::decodable(stored->Ok_0)
            &&& forall|x: u8| u8::decodes_to(stored->Ok_0, x) <==> x == v
            &&& forall|s: String| String::decodes_to(stored->Ok_0, s) <==> s@ == decimal(v as int)
        }),
{
    lemma_put_then_lookup(root, p, v.encoding()->Some_0);
    lemma_decimal_round_trip(v as int, 0, u8::MAX as int);
}

/// Storing an `u16` and reading it back gives its canonical text when read as
/// text, and the same `u16` when read as `u16`.
pub proof fn lemma_u16_round_trip(root: Node, p: Seq<Seq<char>>, v: u16)
    requires
        put(root, p, v.encoding()->Some_0) is Ok,
    ensures
        ({
            let stored = lookup(put(root, p, v.encoding()->Some_0)->Ok_0, p);
            &&& stored == Ok::<Node, Fault>(Node::Text(decimal(v as int)))
            &&& u16::decodable(stored->Ok_0)
            &&& forall|x: u16| u16::decodes_to(stored->Ok_0, x) <==> x == v
            &&& forall|s: String| String::decodes_to(stored->Ok_0, s) <==> s@ == decimal(v as int)
        }),
{
    lemma_put_then_lookup(root, p, v.encoding()->Some_0);
    lemma_decimal_round_trip(v as int, 0, u16::MAX as int);
}

/// Storing an `u32` and reading it back gives its canonical text when read as
/// text, and the same `u32` when read as `u32`.
pub proof fn lemma_u32_round_trip(root: Node, p: Seq<Seq<char>>, v: u32)
    requires
        put(root, p, v.encoding()->Some_0) is Ok,
    ensures
        ({
            let stored = lookup(put(root, p, v.encoding()->Some_0)->Ok_0, p);
            &&& stored == Ok::<Node, Fault>(Node::Text(decimal(v as int)))
            &&& u32::decodable(stored->Ok_0)
            &&& forall|x: u32| u32::decodes_to(stored->Ok_0, x) <==> x == v
            &&& forall|s: String| String::decodes_to(stored->Ok_0, s) <==> s@ == decimal(v as int)
        }),
{
    lemma_put_then_lookup(root, p, v.encoding()->Some_0);
    lemma_decimal_round_trip(v as int, 0, u32::MAX as int);
}

/// Storing an `u64` and reading it back gives its canonical text when read as
/// text, and the same `u64` when read as `u64`.
pub proof fn lemma_u64_round_trip(root: Node, p: Seq<Seq<char>>, v: u64)
    requires
        put(root, p, v.encoding()->Some_0) is Ok,
    ensures
        ({
            let stored = lookup(put(root, p, v.encoding()->Some_0)->Ok_0, p);
            &&& stored == Ok::<Node, Fault>(Node::Text(decimal(v as int)))
            &&& u64::decodable(stored->Ok_0)
            &&& forall|x: u64| u64::decodes_to(stored->Ok_0, x) <==> x == v
            &&& forall|s: String| String::decodes_to(stored->Ok_0, s) <==> s@ == decimal(v as int)
        }),
{
    lemma_put_then_lookup(root, p, v.encoding()->Some_0);
    lemma_decimal_round_trip(v as int, 0, u64::MAX as int);
}

/// Storing an `u128` and reading it back gives its canonical text when read as
/// text, and the same `u128` when read as `u128`.
pub proof fn lemma_u128_round_trip(root: Node, p: Seq<Seq<char>>, v: u128)
    requires
        put(root, p, v.encoding()->Some_0) is Ok,
    ensures
        ({
            let stored = lookup(put(root, p, v.encoding()->Some_0)->Ok_0, p);
            &&& stored == Ok::<Node, Fault>(Node::Text(decimal(v as int)))
            &&& u128::decodable(stored->Ok_0)
            &&& forall|x: u128| u128::decodes_to(stored->Ok_0, x) <==> x == v
            &&& forall|s: String| String::decodes_to(stored->Ok_0, s) <==> s@ == decimal(v as int)
        }),
{
    lemma_put_then_lookup(root, p, v.encoding()->Some_0);
    lemma_decimal_round_trip(v as int, 0, u128::MAX as int);
}

/// Storing an `usize` and reading it back gives its canonical text when read as
/// text, and the same `usize` when read as `usize`.
pub proof fn lemma_usize_round_trip(root: Node, p: Seq<Seq<char>>, v: usize)
    requires
        put(root, p, v.encoding()->Some_0) is Ok,
    ensures
        ({
            let stored = lookup(put(root, p, v.encoding()->Some_0)->Ok_0, p);
            &&& stored == Ok::<Node, Fault>(Node::Text(decimal(v as int)))
            &&& usize::decodable(stored->Ok_0)
            &&& forall|x: usize| usize::decodes_to(stored->Ok_0, x) <==> x == v
            &&& forall|s: String| String::decodes_to(stored->Ok_0, s) <==> s@ == decimal(v as int)
        }),
{
    lemma_put_then_lookup(root, p, v.encoding()->Some_0);
    lemma_decimal_round_trip(v as int, 0, usize::MAX as int);
}

/// Storing a `bool` and reading it back gives `true` or `false` as text, and
/// the same `bool`.
pub proof fn lemma_bool_round_trip(root: Node, p: Seq<Seq<char>>, v: bool)
    requires
        put(root, p, v.encoding()->Some_0) is Ok,
    ensures
        ({
            let stored = lookup(put(root, p, v.encoding()->Some_0)->Ok_0, p);
            &&& stored == Ok::<Node, Fault>(Node::Text(bool_text(v)))
            &&& bool::decodable(stored->Ok_0)
            &&& forall|x: bool| bool::decodes_to(stored->Ok_0, x) <==> x == v
            &&& forall|s: String| String::decodes_to(stored->Ok_0, s) <==> s@ == bool_text(v)
        }),
{
    lemma_put_then_lookup(root, p, v.encoding()->Some_0);
    assert(bool_text(true) != bool_text(false)) by {
        assert(bool_text(true).len() != bool_text(false).len());
    }
}

/// Storing a `char` and reading it back gives the one-character text, and the
/// same `char`.
pub proof fn lemma_char_round_trip(root: Node, p: Seq<Seq<char>>, v: char)
    requires
        put(root, p, v.encoding()->Some_0) is Ok,
    ensures
        ({
            let stored = lookup(put(root, p, v.encoding()->Some_0)->Ok_0, p);
            &&& stored == Ok::<Node, Fault>(Node::Text(seq![v]))
            &&& char::decodable(stored->Ok_0)
            &&& forall|x: char| char::decodes_to(stored->Ok_0, x) <==> x == v
            &&& forall|s: String| String::decodes_to(stored->Ok_0, s) <==> s@ == seq![v]
        }),
{
    lemma_put_then_lookup(root, p, v.encoding()->Some_0);
}

/// Storing a string and reading it back gives the same text.
pub proof fn lemma_string_round_trip(root: Node, p: Seq<Seq<char>>, v: String)
    requires
        put(root, p, v.encoding()->Some_0) is Ok,
    ensures
        ({
            let stored = lookup(put(root, p, v.encoding()->Some_0)->Ok_0, p);
            &&& stored == Ok::<Node, Fault>(Node::Text(v@))
            &&& forall|s: String| String::decodes_to(stored->Ok_0, s) <==> s@ == v@
        }),
{
    lemma_put_then_lookup(root, p, v.encoding()->Some_0);
}

} // verus!
