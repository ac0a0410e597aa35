//! Reading and writing the tree by path.
use vstd::prelude::*;
use crate::codec::{Decode, Encode};
use crate::error::Error;
use crate::key::{Key, PathLike};
use crate::path::{
    array_put, first_key, indexed, lemma_first_key, lemma_first_key_found, lemma_indexed_keys, lookup,
    lemma_put_well_formed, promote, put, read_result,
};
use crate::text::{decimal, index_of, unsigned_text};
use crate::value::{
    bindings_of, lemma_bindings_of, lemma_nodes_of, node_of, nodes_of, well_formed, Array, Node, Table,
    Value,
};

verus! {

broadcast use vstd::std_specs::vec::group_vec_axioms, vstd::seq::group_seq_axioms;

fn quoted(prefix: &str, k: &str) -> (e: Error)
    ensures
        e@ == prefix@ + k@ + "'"@,
{
    let mut m = String::from_str(prefix);
    m.append(k);
    m.append("'");
    Error::from_message(m)
}

/// Text equality, character by character.
fn str_eq(a: &str, b: &str) -> (r: bool)
    ensures
        r == (a@ == b@),
{
    let n = a.unicode_len();
    if n != b.unicode_len() {
        return false;
    }
    let mut i: usize = 0;
    while i < n
        invariant
            n == a@.len(),
            n == b@.len(),
            0 <= i <= n,
            forall|m: int| 0 <= m < i ==> a@[m] == b@[m],
        decreases n - i,
    {
        if a.get_char(i) != b.get_char(i) {
            return false;
        }
        i = i + 1;
    }
    assert(a@ =~= b@);
    true
}

impl Table {
    /// The position of the first binding of `k`.
    pub fn position(&self, k: &str) -> (r: Option<usize>)
        ensures
            match r {
                Some(j) => first_key(bindings_of(self.0@), k@) == Some(j as int),
                None => first_key(bindings_of(self.0@), k@) is None,
            },
    {
        proof {
            lemma_bindings_of(self.0@);
        }
        let ghost b = bindings_of(self.0@);
        let mut i: usize = 0;
        while i < self.0.len()
            invariant
                0 <= i <= self.0@.len(),
                b == bindings_of(self.0@),
                b.len() == self.0@.len(),
                forall|m: int| 0 <= m < i ==> b[m].0 != k@,
            decreases self.0@.len() - i,
        {
            proof {
                lemma_bindings_of(self.0@);
            }
            if str_eq(self.0[i].0.as_str(), k) {
                proof {
                    lemma_first_key(b, k@, i as int);
                }
                return Some(i);
            }
            i = i + 1;
        }
        None
    }

    /// Turns the items of an array into bindings, each under its index.
    pub(crate) fn indexed(items: Vec<Value>) -> (t: Table)
        ensures
            bindings_of(t.0@) == indexed(nodes_of(items@)),
    {
        proof {
            lemma_nodes_of(items@);
        }
        let ghost all = items@;
        let mut rest = items;
        let total = rest.len();
        let mut out: Vec<(String, Value)> = Vec::new();
        let mut i: usize = 0;
        while rest.len() > 0
            invariant
                total == all.len(),
                i + rest@.len() == all.len(),
                rest@ == all.subrange(i as int, all.len() as int),
                out@.len() == i,
                forall|m: int|
                    0 <= m < i ==> #[trigger] out@[m].0@ == decimal(m) && node_of(out@[m].1)
                        == node_of(all[m]),
            decreases rest@.len(),
        {
            let item = rest.remove(0);
            out.push((unsigned_text(i as u128), item));
            i = i + 1;
        }
        proof {
            lemma_bindings_of(out@);
            assert(bindings_of(out@) =~= indexed(nodes_of(all)));
        }
        Table(out)
    }
}

impl Value {
    /// The node that `key` reaches from segment `at` on.
    fn find_from(&self, key: &Key, at: usize) -> (r: Result<&Value, Error>)
        requires
            at <= key@.len(),
        ensures
            match lookup(self@, key@.subrange(at as int, key@.len() as int)) {
                Ok(n) => r is Ok && r->Ok_0@ == n,
                Err(f) => r is Err && r->Err_0@ == f.message(),
            },
        decreases key@.len() - at,
    {
        let ghost p = key@.subrange(at as int, key@.len() as int);
        if at == key.len() {
            return Err(Error::custom("empty key"));
        }
        let k = key.segment(at);
        let last = at + 1 == key.len();
        assert(p[0] == k@);
        assert(p.drop_first() =~= key@.subrange(at + 1, key@.len() as int));
        match self {
            Value::Entry(_) => {
                return Err(quoted("missing value for key '", k));
            },
            Value::Array(a) => {
                proof {
                    lemma_nodes_of(a.0@);
                }
                match index_of(k) {
                    None => {
                        return Err(quoted("invalid key '", k));
                    },
                    Some(i) => {
                        if i >= a.0.len() {
                            return Err(quoted("missing value for key '", k));
                        } else if last {
                            return Ok(&a.0[i]);
                        } else {
                            return a.0[i].find_from(key, at + 1);
                        }
                    },
                }
            },
            Value::Table(t) => {
                proof {
                    lemma_bindings_of(t.0@);
                }
                match t.position(k) {
                    None => {
                        return Err(quoted("missing value for key '", k));
                    },
                    Some(j) => {
                        proof {
                            lemma_first_key_found(bindings_of(t.0@), k@);
                        }
                        if last {
                            return Ok(&t.0[j].1);
                        } else {
                            return t.0[j].1.find_from(key, at + 1);
                        }
                    },
                }
            },
        }
    }

    /// The node that `key` reaches.
    pub fn find(&self, key: &Key) -> (r: Result<&Value, Error>)
        ensures
            match lookup(self@, key@) {
                Ok(n) => r is Ok && r->Ok_0@ == n,
                Err(f) => r is Err && r->Err_0@ == f.message(),
            },
    {
        assert(key@.subrange(0, key@.len() as int) =~= key@);
        self.find_from(key, 0)
    }

    /// Whether writing below this node along `key` from segment `at` on succeeds.
    fn fits(&self, key: &Key, at: usize, Ghost(new): Ghost<Node>) -> (r: Result<(), Error>)
        requires
            at < key@.len(),
        ensures
            match put(self@, key@.subrange(at as int, key@.len() as int), new) {
                Ok(_) => r is Ok,
                Err(f) => r is Err && r->Err_0@ == f.message(),
            },
        decreases key@.len() - at,
    {
        let ghost p = key@.subrange(at as int, key@.len() as int);
        let n = key.len();
        let k = key.segment(at);
        let last = at + 1 == n;
        assert(p[0] == k@);
        assert(p.drop_first() =~= key@.subrange(at + 1, key@.len() as int));
        let idx = index_of(k);
        match self {
            Value::Entry(_) => {
                match idx {
                    Some(i) => if i > 0 {
                        return Err(quoted("invalid index '", k));
                    },
                    None => {},
                }
                if last {
                    Ok(())
                } else {
                    let fresh = Value::entry();
                    fresh.fits(key, at + 1, Ghost(new))
                }
            },
            Value::Array(a) => {
                proof {
                    lemma_nodes_of(a.0@);
                }
                let len = a.0.len();
                match idx {
                    Some(i) => if i > len {
                        return Err(quoted("invalid index '", k));
                    },
                    None => {
                        proof {
                            lemma_indexed_keys(nodes_of(a.0@), k@);
                        }
                    },
                }
                if last {
                    Ok(())
                } else {
                    let fresh = Value::entry();
                    fresh.fits(key, at + 1, Ghost(new))
                }
            },
            Value::Table(t) => {
                proof {
                    lemma_bindings_of(t.0@);
                }
                match t.position(k) {
                    Some(j) => {
                        proof {
                            lemma_first_key_found(bindings_of(t.0@), k@);
                        }
                        if last {
                            Ok(())
                        } else {
                            t.0[j].1.fits(key, at + 1, Ghost(new))
                        }
                    },
                    None => {
                        if last {
                            Ok(())
                        } else {
                            let fresh = Value::entry();
                            fresh.fits(key, at + 1, Ghost(new))
                        }
                    },
                }
            },
        }
    }
}

impl Value {
    /// Writes `new` below this node along `key` from segment `at` on, when
    /// that write is known to succeed.
    fn put_at(&mut self, key: &Key, at: usize, new: Value)
        requires
            at < key@.len(),
            put(old(self)@, key@.subrange(at as int, key@.len() as int), new@) is Ok,
        ensures
            final(self)@ == put(old(self)@, key@.subrange(at as int, key@.len() as int), new@)->Ok_0,
        decreases key@.len() - at,
    {
        let ghost p = key@.subrange(at as int, key@.len() as int);
        let ghost before = self@;
        let n = key.len();
        let k = key.segment(at);
        let last = at + 1 == n;
        assert(p[0] == k@);
        assert(p.drop_first() =~= key@.subrange(at + 1, key@.len() as int));
        self.promote(k);
        assert(self@ == promote(before, k@));
        match self {
            Value::Array(a) => {
                proof {
                    lemma_nodes_of(a.0@);
                }
                let i = index_of(k).unwrap();
                let child = if last {
                    new
                } else {
                    let mut c = Value::entry();
                    c.put_at(key, at + 1, new);
                    c
                };
                let ghost items = a.0@;
                a.0.insert(i, child);
                proof {
                    lemma_nodes_of(a.0@);
                    assert(nodes_of(a.0@) =~= nodes_of(items).insert(i as int, node_of(child)));
                }
            },
            Value::Table(t) => {
                proof {
                    lemma_bindings_of(t.0@);
                }
                let ghost b = t.0@;
                match t.position(k) {
                    Some(j) => {
                        proof {
                            lemma_first_key_found(bindings_of(t.0@), k@);
                        }
                        let (name, old_child) = t.0.remove(j);
                        let child = if last {
                            new
                        } else {
                            let mut c = old_child;
                            c.put_at(key, at + 1, new);
                            c
                        };
                        t.0.insert(j, (name, child));
                        proof {
                            lemma_bindings_of(t.0@);
                            assert(bindings_of(t.0@) =~= bindings_of(b).update(
                                j as int,
                                (k@, node_of(child)),
                            ));
                        }
                    },
                    None => {
                        let child = if last {
                            new
                        } else {
                            let mut c = Value::entry();
                            c.put_at(key, at + 1, new);
                            c
                        };
                        t.0.push((String::from_str(k), child));
                        proof {
                            lemma_bindings_of(t.0@);
                            assert(bindings_of(t.0@) =~= bindings_of(b).push((k@, node_of(child))));
                        }
                    },
                }
            },
            Value::Entry(_) => {},
        }
    }

    /// Writes `new` at path `key` below this node.  Nothing changes when the
    /// write fails.
    pub fn put(&mut self, key: &Key, new: Value) -> (r: Result<(), Error>)
        ensures
            match put(old(self)@, key@, new@) {
                Ok(n) => r is Ok && final(self)@ == n,
                Err(f) => r is Err && r->Err_0@ == f.message() && final(self)@ == old(self)@,
            },
    {
        if key.len() == 0 {
            return Err(Error::custom("empty key"));
        }
        assert(key@.subrange(0, key@.len() as int) =~= key@);
        match self.fits(key, 0, Ghost(new@)) {
            Err(e) => Err(e),
            Ok(()) => {
                self.put_at(key, 0, new);
                Ok(())
            },
        }
    }
}

impl Value {
    /// Reads the node at `key` as a `V`.
    pub fn get<K: PathLike, V: Decode>(&self, key: K) -> (r: Result<V, Error>)
        ensures
            read_result(self@, key.segments(), r),
    {
        let k = key.into_key();
        match self.find(&k) {
            Err(e) => Err(e),
            Ok(v) => V::decode(v),
        }
    }

    /// Stores `value` at `key`, creating and promoting containers on the way,
    /// and hands the node back for further writes.  Nothing changes when the
    /// write fails.
    pub fn set<K: PathLike, V: Encode>(&mut self, key: K, value: V) -> (r: Result<&mut Value, Error>)
        ensures
            match value.encoding() {
                None => r is Err && final(self)@ == old(self)@,
                Some(e) => match put(old(self)@, key.segments(), e) {
                    Ok(t) => r is Ok && (*r->Ok_0)@ == t && *final(self) == *final(r->Ok_0),
                    Err(f) => r is Err && r->Err_0@ == f.message() && final(self)@ == old(self)@,
                },
            },
            r is Ok && well_formed(old(self)@) && value.encoding() is Some
                && well_formed(value.encoding()->Some_0) ==> well_formed((*r->Ok_0)@),
    {
        let k = key.into_key();
        let new = match value.encode() {
            Err(e) => {
                return Err(e);
            },
            Ok(v) => v,
        };
        proof {
            if well_formed(self@) && well_formed(new@) && put(self@, k@, new@) is Ok {
                lemma_put_well_formed(self@, k@, new@);
            }
        }
        match self.put(&k, new) {
            Ok(()) => Ok(self),
            Err(e) => Err(e),
        }
    }
}

impl Array {
    /// An empty array.
    pub fn new() -> (r: Array)
        ensures
            r@ == Seq::<Node>::empty(),
    {
        let r = Array(Vec::new());
        assert(nodes_of(Seq::<Value>::empty()) =~= Seq::empty());
        r
    }

    /// The number of items.
    pub fn len(&self) -> (r: usize)
        ensures
            r == self@.len(),
    {
        proof {
            lemma_nodes_of(self.0@);
        }
        self.0.len()
    }

    /// Reads the node at `key` as a `V`.
    pub fn get<K: PathLike, V: Decode>(&self, key: K) -> (r: Result<V, Error>)
        ensures
            read_result(Node::List(self@), key.segments(), r),
    {
        let k = key.into_key();
        let found = match self.find_in(&k) {
            Err(e) => {
                return Err(e);
            },
            Ok(v) => v,
        };
        V::decode(found)
    }

    fn find_in(&self, key: &Key) -> (r: Result<&Value, Error>)
        ensures
            match lookup(Node::List(self@), key@) {
                Ok(n) => r is Ok && r->Ok_0@ == n,
                Err(f) => r is Err && r->Err_0@ == f.message(),
            },
    {
        if key.len() == 0 {
            return Err(Error::custom("empty key"));
        }
        let k = key.segment(0);
        proof {
            lemma_nodes_of(self.0@);
        }
        match index_of(k) {
            None => {
                return Err(quoted("invalid key '", k));
            },
            Some(i) => {
                if i >= self.0.len() {
                    return Err(quoted("missing value for key '", k));
                } else if key.len() == 1 {
                    return Ok(&self.0[i]);
                } else {
                    assert(key@.drop_first() =~= key@.subrange(1, key@.len() as int));
                    return self.0[i].find_from(key, 1);
                }
            },
        }
    }

    /// Stores `value` at `key`, whose first segment must be an index no
    /// greater than the current length.
    pub fn set<K: PathLike, V: Encode>(&mut self, key: K, value: V) -> (r: Result<&mut Array, Error>)
        ensures
            match value.encoding() {
                None => r is Err && final(self)@ == old(self)@,
                Some(e) => match array_put(old(self)@, key.segments(), e) {
                    Ok(t) => r is Ok && Node::List((*r->Ok_0)@) == t && *final(self) == *final(r->Ok_0),
                    Err(f) => r is Err && r->Err_0@ == f.message() && final(self)@ == old(self)@,
                },
            },
    {
        let k = key.into_key();
        let new = match value.encode() {
            Err(e) => {
                return Err(e);
            },
            Ok(v) => v,
        };
        if k.len() > 0 {
            let head = k.segment(0);
            if index_of(head).is_none() {
                return Err(quoted("invalid key '", head));
            }
        }
        let mut items: Vec<Value> = Vec::new();
        std::mem::swap(&mut items, &mut self.0);
        let mut v = Value::Array(Array(items));
        let r = v.put(&k, new);
        match v {
            Value::Array(a) => {
                *self = a;
            },
            _ => {},
        }
        match r {
            Ok(()) => Ok(self),
            Err(e) => Err(e),
        }
    }
}

impl Table {
    /// An empty table.
    pub fn new() -> (r: Table)
        ensures
            r@ == Seq::<(Seq<char>, Node)>::empty(),
    {
        let r = Table(Vec::new());
        assert(bindings_of(Seq::<(String, Value)>::empty()) =~= Seq::empty());
        r
    }

    /// The number of bindings.
    pub fn len(&self) -> (r: usize)
        ensures
            r == self@.len(),
    {
        proof {
            lemma_bindings_of(self.0@);
        }
        self.0.len()
    }

    fn find_in(&self, key: &Key) -> (r: Result<&Value, Error>)
        ensures
            match lookup(Node::Dict(self@), key@) {
                Ok(n) => r is Ok && r->Ok_0@ == n,
                Err(f) => r is Err && r->Err_0@ == f.message(),
            },
    {
        if key.len() == 0 {
            return Err(Error::custom("empty key"));
        }
        let k = key.segment(0);
        proof {
            lemma_bindings_of(self.0@);
        }
        match self.position(k) {
            None => {
                return Err(quoted("missing value for key '", k));
            },
            Some(j) => {
                proof {
                    lemma_first_key_found(bindings_of(self.0@), k@);
                }
                if key.len() == 1 {
                    return Ok(&self.0[j].1);
                } else {
                    assert(key@.drop_first() =~= key@.subrange(1, key@.len() as int));
                    return self.0[j].1.find_from(key, 1);
                }
            },
        }
    }

    /// Reads the node at `key` as a `V`.
    pub fn get<K: PathLike, V: Decode>(&self, key: K) -> (r: Result<V, Error>)
        ensures
            read_result(Node::Dict(self@), key.segments(), r),
    {
        let k = key.into_key();
        match self.find_in(&k) {
            Err(e) => Err(e),
            Ok(v) => V::decode(v),
        }
    }

    /// Stores `value` at `key`, creating and promoting containers below.
    pub fn set<K: PathLike, V: Encode>(&mut self, key: K, value: V) -> (r: Result<&mut Table, Error>)
        ensures
            match value.encoding() {
                None => r is Err && final(self)@ == old(self)@,
                Some(e) => match put(Node::Dict(old(self)@), key.segments(), e) {
                    Ok(t) => r is Ok && Node::Dict((*r->Ok_0)@) == t && *final(self) == *final(r->Ok_0),
                    Err(f) => r is Err && r->Err_0@ == f.message() && final(self)@ == old(self)@,
                },
            },
            r is Ok && well_formed(Node::Dict(old(self)@)) && value.encoding() is Some
                && well_formed(value.encoding()->Some_0) ==> well_formed(Node::Dict((*r->Ok_0)@)),
    {
        let k = key.into_key();
        let new = match value.encode() {
            Err(e) => {
                return Err(e);
            },
            Ok(v) => v,
        };
        proof {
            let d = Node::Dict(self@);
            if well_formed(d) && well_formed(new@) && put(d, k@, new@) is Ok {
                lemma_put_well_formed(d, k@, new@);
            }
        }
        let mut items: Vec<(String, Value)> = Vec::new();
        std::mem::swap(&mut items, &mut self.0);
        let mut v = Value::Table(Table(items));
        let r = v.put(&k, new);
        match v {
            Value::Table(t) => {
                *self = t;
            },
            _ => {},
        }
        match r {
            Ok(()) => Ok(self),
            Err(e) => Err(e),
        }
    }
}

} // verus!
