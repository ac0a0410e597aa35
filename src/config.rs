//! The root of a configuration: a table addressed by dotted paths.
use vstd::prelude::*;
use crate::codec::{Decode, Encode};
use crate::error::Error;
use crate::key::PathLike;
use crate::path::{put, read_result};
use crate::value::{well_formed, Node, Table};

verus! {

/// A configuration tree whose root is a table.
#[derive(Debug, PartialEq)]
pub struct Config(pub Table);

impl View for Config {
    type V = Seq<(Seq<char>, Node)>;

    open spec fn view(&self) -> Seq<(Seq<char>, Node)> {
        self.0@
    }
}

impl Config {
    /// An empty configuration.
    pub fn new() -> (r: Config)
        ensures
            r@ == Seq::<(Seq<char>, Node)>::empty(),
    {
        Config(Table::new())
    }

    /// A configuration whose root is `table`.
    pub fn from_table(table: Table) -> (r: Config)
        ensures
            r@ == table@,
    {
        Config(table)
    }

    /// The root table.
    pub fn table(&self) -> (r: &Table)
        ensures
            r@ == self@,
    {
        &self.0
    }

    /// Reads the node at `key` as a `V`.
    pub fn get<K: PathLike, V: Decode>(&self, key: K) -> (r: Result<V, Error>)
        ensures
            read_result(Node::Dict(self@), key.segments(), r),
    {
        self.0.get(key)
    }

    /// Stores `value` at `key`, creating and promoting containers on the way,
    /// and hands the configuration back for further writes.  Nothing changes
    /// when the write fails.
    pub fn set<K: PathLike, V: Encode>(&mut self, key: K, value: V) -> (r: Result<&mut Config, Error>)
        ensures
            match value.encoding() {
                None => r is Err && final(self)@ == old(self)@,
                Some(e) => match put(Node::Dict(old(self)@), key.segments(), e) {
                    Ok(t) => r is Ok && Node::Dict((*r->Ok_0)@) == t && *final(self) == *final(r->Ok_0),
                    Err(f) => r is Err && r->Err_0@ == f.message() && final(self)@ == old(self)@,
                },
            },
            r is Ok && well_formed(Node::Dict(old(self)@)) && value.encoding() is Some
                && well_formed(value.encoding()->Some_0) ==> well_formed(Node::Dict((*r->Ok_0)@)),
    {
        match self.0.set(key, value) {
            Ok(_) => Ok(self),
            Err(e) => Err(e),
        }
    }
}

} // verus!
