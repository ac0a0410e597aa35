//! Paths through the tree: what a read finds and what a write makes, stated
//! over the model, with the laws that relate them.
use vstd::prelude::*;
use crate::codec::Decode;
use crate::error::Error;
use crate::text::{decimal, integer_in};
use crate::value::{distinct_keys, well_formed, Node};

verus! {

broadcast use vstd::std_specs::vec::group_vec_axioms, vstd::seq::group_seq_axioms;

/// What can go wrong when a path is followed or written.
pub enum Fault {
    EmptyPath,
    MissingKey(Seq<char>),
    InvalidKey(Seq<char>),
    InvalidIndex(Seq<char>),
}

impl Fault {
    /// The text of the error that reports this fault.
    pub open spec fn message(self) -> Seq<char> {
        match self {
            Fault::EmptyPath => "empty key"@,
            Fault::MissingKey(k) => "missing value for key '"@ + k + "'"@,
            Fault::InvalidKey(k) => "invalid key '"@ + k + "'"@,
            Fault::InvalidIndex(k) => "invalid index '"@ + k + "'"@,
        }
    }
}

/// Whether a segment addresses an array slot.
pub open spec fn is_index(k: Seq<char>) -> bool {
    integer_in(k, 0, usize::MAX as int) is Some
}

/// The array slot that an index segment addresses.
pub open spec fn index_value(k: Seq<char>) -> int {
    integer_in(k, 0, usize::MAX as int)->Some_0
}

/// The position of the first binding of `k`.
pub open spec fn first_key(b: Seq<(Seq<char>, Node)>, k: Seq<char>) -> Option<int> {
    if exists|j: int|
        0 <= j < b.len() && b[j].0 == k && forall|m: int| 0 <= m < j ==> b[m].0 != k {
        Some(
            choose|j: int|
                0 <= j < b.len() && b[j].0 == k && forall|m: int| 0 <= m < j ==> b[m].0 != k,
        )
    } else {
        None
    }
}

pub(crate) proof fn lemma_first_key(b: Seq<(Seq<char>, Node)>, k: Seq<char>, j: int)
    requires
        0 <= j < b.len(),
        b[j].0 == k,
        forall|m: int| 0 <= m < j ==> b[m].0 != k,
    ensures
        first_key(b, k) == Some(j),
{
    let c = choose|c: int|
        0 <= c < b.len() && b[c].0 == k && forall|m: int| 0 <= m < c ==> b[m].0 != k;
    assert(0 <= c < b.len() && b[c].0 == k && forall|m: int| 0 <= m < c ==> b[m].0 != k);
    if c < j {
        assert(b[c].0 != k);
    } else if c > j {
        assert(b[j].0 != k);
    }
}

pub(crate) proof fn lemma_first_key_found(b: Seq<(Seq<char>, Node)>, k: Seq<char>)
    requires
        first_key(b, k) is Some,
    ensures
        0 <= first_key(b, k)->Some_0 < b.len(),
        b[first_key(b, k)->Some_0].0 == k,
{
}

pub(crate) proof fn lemma_indexed_keys(items: Seq<Node>, k: Seq<char>)
    requires
        !is_index(k),
        items.len() <= usize::MAX,
    ensures
        first_key(indexed(items), k) is None,
{
    let b = indexed(items);
    if exists|j: int|
        0 <= j < b.len() && b[j].0 == k && forall|m: int| 0 <= m < j ==> b[m].0 != k {
        let j = choose|j: int|
            0 <= j < b.len() && b[j].0 == k && forall|m: int| 0 <= m < j ==> b[m].0 != k;
        crate::text::lemma_decimal_round_trip(j, 0, usize::MAX as int);
    }
}

/// The one binding of a single-binding table is found.
pub(crate) proof fn lemma_first_key_single(k: Seq<char>, n: Node)
    ensures
        first_key(seq![(k, n)], k) == Some(0int),
{
    lemma_first_key(seq![(k, n)], k, 0);
}

pub(crate) proof fn lemma_first_key_exists(b: Seq<(Seq<char>, Node)>, k: Seq<char>, j: int)
    requires
        0 <= j < b.len(),
        b[j].0 == k,
    ensures
        first_key(b, k) is Some,
    decreases j,
{
    if forall|m: int| 0 <= m < j ==> b[m].0 != k {
        lemma_first_key(b, k, j);
    } else {
        let m = choose|m: int| 0 <= m < j && b[m].0 == k;
        lemma_first_key_exists(b, k, m);
    }
}

pub(crate) proof fn lemma_first_key_absent(b: Seq<(Seq<char>, Node)>, k: Seq<char>)
    requires
        first_key(b, k) is None,
    ensures
        forall|m: int| 0 <= m < b.len() ==> b[m].0 != k,
{
    assert forall|m: int| 0 <= m < b.len() implies b[m].0 != k by {
        if b[m].0 == k {
            lemma_first_key_exists(b, k, m);
        }
    }
}

/// The node that path `p` reaches from `n`.
pub open spec fn lookup(n: Node, p: Seq<Seq<char>>) -> Result<Node, Fault>
    decreases p.len(),
{
    if p.len() == 0 {
        Err(Fault::EmptyPath)
    } else {
        let k = p[0];
        match n {
            Node::Text(_) => Err(Fault::MissingKey(k)),
            Node::List(items) => if !is_index(k) {
                Err(Fault::InvalidKey(k))
            } else if index_value(k) >= items.len() {
                Err(Fault::MissingKey(k))
            } else if p.len() == 1 {
                Ok(items[index_value(k)])
            } else {
                lookup(items[index_value(k)], p.drop_first())
            },
            Node::Dict(b) => match first_key(b, k) {
                None => Err(Fault::MissingKey(k)),
                Some(j) => if p.len() == 1 {
                    Ok(b[j].1)
                } else {
                    lookup(b[j].1, p.drop_first())
                },
            },
        }
    }
}

/// The bindings of an array turned into a table: each item under its index.
pub open spec fn indexed(items: Seq<Node>) -> Seq<(Seq<char>, Node)> {
    Seq::new(items.len(), |i: int| (decimal(i), items[i]))
}

/// The shape that a node takes before key `k` is written below it: an entry
/// becomes an empty array for an index and an empty table otherwise; an
/// array becomes a table, each item under its index, for a non-index key.
pub open spec fn promote(n: Node, k: Seq<char>) -> Node {
    match n {
        Node::Text(_) => if is_index(k) {
            Node::List(Seq::empty())
        } else {
            Node::Dict(Seq::empty())
        },
        Node::List(items) => if is_index(k) {
            n
        } else {
            Node::Dict(indexed(items))
        },
        Node::Dict(_) => n,
    }
}

/// The tree after `new` is written at path `p` below `n`.
///
/// Each segment first promotes the node it is written below.  In an array,
/// an index no greater than the length inserts there, shifting the items at
/// and after it one place on (a write at an existing index does not replace
/// that item); the inserted item is `new` itself at the last segment, or a
/// fresh entry written below with the rest of the path.  In a table, the
/// first binding of the key is replaced at the last segment or written below
/// otherwise; a missing key is bound at the end, to `new` or to a fresh entry
/// written below.  An index past the end of an array fails the whole write.
pub open spec fn put(n: Node, p: Seq<Seq<char>>, new: Node) -> Result<Node, Fault>
    decreases p.len(),
{
    if p.len() == 0 {
        Err(Fault::EmptyPath)
    } else {
        let k = p[0];
        let rest = p.drop_first();
        match promote(n, k) {
            Node::List(items) => {
                let i = index_value(k);
                if i > items.len() {
                    Err(Fault::InvalidIndex(k))
                } else if rest.len() == 0 {
                    Ok(Node::List(items.insert(i, new)))
                } else {
                    match put(Node::Text(Seq::empty()), rest, new) {
                        Ok(c) => Ok(Node::List(items.insert(i, c))),
                        Err(f) => Err(f),
                    }
                }
            },
            Node::Dict(b) => match first_key(b, k) {
                Some(j) => if rest.len() == 0 {
                    Ok(Node::Dict(b.update(j, (k, new))))
                } else {
                    match put(b[j].1, rest, new) {
                        Ok(c) => Ok(Node::Dict(b.update(j, (k, c)))),
                        Err(f) => Err(f),
                    }
                },
                None => if rest.len() == 0 {
                    Ok(Node::Dict(b.push((k, new))))
                } else {
                    match put(Node::Text(Seq::empty()), rest, new) {
                        Ok(c) => Ok(Node::Dict(b.push((k, c)))),
                        Err(f) => Err(f),
                    }
                },
            },
            Node::Text(_) => Err(Fault::EmptyPath),
        }
    }
}

/// What a read of path `p` below `n` as type `V` gives: the fault of the
/// path, or the node there read as `V`.
pub open spec fn read_result<V: Decode>(n: Node, p: Seq<Seq<char>>, r: Result<V, Error>) -> bool {
    match lookup(n, p) {
        Err(f) => r is Err && r->Err_0@ == f.message(),
        Ok(m) => (r is Ok <==> V::decodable(m)) && (r is Ok ==> V::decodes_to(m, r->Ok_0)),
    }
}

/// The path rule of an array: its first segment must be an index.
pub open spec fn array_put(items: Seq<Node>, p: Seq<Seq<char>>, new: Node) -> Result<Node, Fault> {
    if p.len() > 0 && !is_index(p[0]) {
        Err(Fault::InvalidKey(p[0]))
    } else {
        put(Node::List(items), p, new)
    }
}

/// A successful write is seen by a read of the same path: after `new` is
/// written at `p`, reading `p` gives `new`.
pub proof fn lemma_put_then_lookup(n: Node, p: Seq<Seq<char>>, new: Node)
    requires
        put(n, p, new) is Ok,
    ensures
        lookup(put(n, p, new)->Ok_0, p) == Ok::<Node, Fault>(new),
    decreases p.len(),
{
    let k = p[0];
    let rest = p.drop_first();
    match promote(n, k) {
        Node::List(items) => {
            let i = index_value(k);
            if rest.len() > 0 {
                lemma_put_then_lookup(Node::Text(Seq::empty()), rest, new);
            }
        },
        Node::Dict(b) => {
            match first_key(b, k) {
                Some(j) => {
                    lemma_first_key_found(b, k);
                    let c = if rest.len() == 0 {
                        new
                    } else {
                        put(b[j].1, rest, new)->Ok_0
                    };
                    if rest.len() > 0 {
                        lemma_put_then_lookup(b[j].1, rest, new);
                    }
                    lemma_first_key(b.update(j, (k, c)), k, j);
                },
                None => {
                    lemma_first_key_absent(b, k);
                    let c = if rest.len() == 0 {
                        new
                    } else {
                        put(Node::Text(Seq::empty()), rest, new)->Ok_0
                    };
                    if rest.len() > 0 {
                        lemma_put_then_lookup(Node::Text(Seq::empty()), rest, new);
                    }
                    lemma_first_key(b.push((k, c)), k, b.len() as int);
                },
            }
        },
        Node::Text(_) => {},
    }
}

/// Arrays grow one slot at a time: writing index `i` of an array of `len`
/// items succeeds exactly when `i <= len`, and inserts there, shifting the
/// items at `i` and after one place on.
pub proof fn lemma_array_growth(items: Seq<Node>, k: Seq<char>, new: Node)
    requires
        is_index(k),
    ensures
        put(Node::List(items), seq![k], new) == if index_value(k) <= items.len() {
            Ok::<Node, Fault>(Node::List(items.insert(index_value(k), new)))
        } else {
            Err(Fault::InvalidIndex(k))
        },
{
    assert(seq![k].drop_first().len() == 0);
}

/// Promotion: an entry written below becomes an array for an index key (whose
/// only writable slot is 0) and a table for any other key; an array written
/// below with a non-index key becomes a table keyed by the items' indices.
pub proof fn lemma_promotion(n: Node, k: Seq<char>, new: Node)
    ensures
        n is Text ==> put(n, seq![k], new) == if !is_index(k) {
            Ok::<Node, Fault>(Node::Dict(seq![(k, new)]))
        } else if index_value(k) == 0 {
            Ok(Node::List(seq![new]))
        } else {
            Err(Fault::InvalidIndex(k))
        },
        n is List && !is_index(k) && n->List_0.len() <= usize::MAX ==> put(n, seq![k], new) == Ok::<
            Node,
            Fault,
        >(Node::Dict(indexed(n->List_0).push((k, new)))),
{
    assert(seq![k].drop_first().len() == 0);
    if n is Text {
        assert(Seq::<(Seq<char>, Node)>::empty().push((k, new)) =~= seq![(k, new)]);
        assert(Seq::<Node>::empty().insert(0, new) =~= seq![new]);
    }
    if n is List && !is_index(k) && n->List_0.len() <= usize::MAX {
        lemma_indexed_keys(n->List_0, k);
    }
}

/// Writing along a path of non-index keys below a fresh entry creates a table
/// at every level and succeeds.
pub proof fn lemma_nested_creation(p: Seq<Seq<char>>, new: Node)
    requires
        p.len() > 0,
        forall|i: int| 0 <= i < p.len() ==> !is_index(#[trigger] p[i]),
    ensures
        put(Node::Text(Seq::empty()), p, new) is Ok,
        put(Node::Dict(Seq::empty()), p, new) == put(Node::Text(Seq::empty()), p, new),
        forall|m: int|
            0 < m < p.len() ==> #[trigger] lookup(
                put(Node::Text(Seq::empty()), p, new)->Ok_0,
                p.subrange(0, m),
            ) matches Ok(Node::Dict(_)),
    decreases p.len(),
{
    let k = p[0];
    let rest = p.drop_first();
    assert(!is_index(k));
    let b = Seq::<(Seq<char>, Node)>::empty();
    assert(first_key(b, k) is None);
    if rest.len() > 0 {
        assert forall|i: int| 0 <= i < rest.len() implies !is_index(#[trigger] rest[i]) by {
            assert(rest[i] == p[i + 1]);
        }
        lemma_nested_creation(rest, new);
    }
    let c = if rest.len() == 0 {
        new
    } else {
        put(Node::Text(Seq::empty()), rest, new)->Ok_0
    };
    let t = put(Node::Text(Seq::empty()), p, new)->Ok_0;
    assert(t == Node::Dict(b.push((k, c))));
    lemma_first_key(b.push((k, c)), k, 0);
    assert forall|m: int| 0 < m < p.len() implies #[trigger] lookup(
        t,
        p.subrange(0, m),
    ) matches Ok(Node::Dict(_)) by {
        let q = p.subrange(0, m);
        assert(q[0] == k);
        if m > 1 {
            assert(q.drop_first() =~= rest.subrange(0, m - 1));
            assert(lookup(t, q) == lookup(c, rest.subrange(0, m - 1)));
        } else {
            assert(lookup(t, q) == Ok::<Node, Fault>(c));
            assert(rest.len() > 0);
            assert(rest[0] == p[1]);
            assert(!is_index(rest[0]));
        }
    }
}

/// A read or a write with no path segments fails, and so does a read of a
/// key that a table does not bind.
pub proof fn lemma_empty_and_missing(n: Node, new: Node, b: Seq<(Seq<char>, Node)>, k: Seq<char>)
    ensures
        lookup(n, Seq::empty()) == Err::<Node, Fault>(Fault::EmptyPath),
        put(n, Seq::empty(), new) == Err::<Node, Fault>(Fault::EmptyPath),
        first_key(b, k) is None ==> lookup(Node::Dict(b), seq![k]) == Err::<Node, Fault>(
            Fault::MissingKey(k),
        ),
{
}

proof fn lemma_decimal_injective(i: int, j: int)
    requires
        0 <= i,
        0 <= j,
        decimal(i) == decimal(j),
    ensures
        i == j,
{
    let hi = if i < j {
        j
    } else {
        i
    };
    crate::text::lemma_decimal_round_trip(i, 0, hi);
    crate::text::lemma_decimal_round_trip(j, 0, hi);
}

proof fn lemma_promote_well_formed(n: Node, k: Seq<char>)
    requires
        well_formed(n),
    ensures
        well_formed(promote(n, k)),
{
    match n {
        Node::List(items) => {
            if !is_index(k) {
                let b = indexed(items);
                assert forall|i: int, j: int| 0 <= i < j < b.len() implies b[i].0 != b[j].0 by {
                    if b[i].0 == b[j].0 {
                        lemma_decimal_injective(i, j);
                    }
                }
                assert forall|i: int| 0 <= i < b.len() implies well_formed(#[trigger] b[i].1) by {
                    assert(b[i].1 == items[i]);
                }
            }
        },
        Node::Text(_) => {
            assert(distinct_keys(Seq::<(Seq<char>, Node)>::empty()));
        },
        Node::Dict(_) => {},
    }
}

/// Writes keep every table's keys distinct: writing a well-formed value into
/// a well-formed tree gives a well-formed tree.
pub proof fn lemma_put_well_formed(n: Node, p: Seq<Seq<char>>, new: Node)
    requires
        well_formed(n),
        well_formed(new),
        put(n, p, new) is Ok,
    ensures
        well_formed(put(n, p, new)->Ok_0),
    decreases p.len(),
{
    let k = p[0];
    let rest = p.drop_first();
    lemma_promote_well_formed(n, k);
    match promote(n, k) {
        Node::List(items) => {
            let i = index_value(k);
            let c = if rest.len() == 0 {
                new
            } else {
                put(Node::Text(Seq::empty()), rest, new)->Ok_0
            };
            if rest.len() > 0 {
                lemma_put_well_formed(Node::Text(Seq::empty()), rest, new);
            }
            let r = items.insert(i, c);
            assert forall|m: int| 0 <= m < r.len() implies well_formed(#[trigger] r[m]) by {
                if m < i {
                    assert(r[m] == items[m]);
                } else if m > i {
                    assert(r[m] == items[m - 1]);
                }
            }
        },
        Node::Dict(b) => {
            match first_key(b, k) {
                Some(j) => {
                    lemma_first_key_found(b, k);
                    let c = if rest.len() == 0 {
                        new
                    } else {
                        put(b[j].1, rest, new)->Ok_0
                    };
                    if rest.len() > 0 {
                        lemma_put_well_formed(b[j].1, rest, new);
                    }
                    let r = b.update(j, (k, c));
                    assert forall|x: int, y: int| 0 <= x < y < r.len() implies r[x].0 != r[y].0 by {
                        assert(r[x].0 == b[x].0);
                        assert(r[y].0 == b[y].0);
                    }
                    assert forall|m: int| 0 <= m < r.len() implies well_formed(#[trigger] r[m].1) by {
                        if m != j {
                            assert(r[m] == b[m]);
                        }
                    }
                },
                None => {
                    lemma_first_key_absent(b, k);
                    let c = if rest.len() == 0 {
                        new
                    } else {
                        put(Node::Text(Seq::empty()), rest, new)->Ok_0
                    };
                    if rest.len() > 0 {
                        lemma_put_well_formed(Node::Text(Seq::empty()), rest, new);
                    }
                    let r = b.push((k, c));
                    assert forall|x: int, y: int| 0 <= x < y < r.len() implies r[x].0 != r[y].0 by {
                        if y == b.len() {
                            assert(r[x].0 == b[x].0);
                        } else {
                            assert(r[x] == b[x]);
                            assert(r[y] == b[y]);
                        }
                    }
                    assert forall|m: int| 0 <= m < r.len() implies well_formed(#[trigger] r[m].1) by {
                        if m < b.len() {
                            assert(r[m] == b[m]);
                        }
                    }
                },
            }
        },
        Node::Text(_) => {},
    }
}

} // verus!
