//! Dotted paths: the addresses of locations in a configuration tree.
use vstd::prelude::*;
use crate::text::{decimal, push_char, unsigned_text};

verus! {

broadcast use vstd::std_specs::vec::group_vec_axioms, vstd::seq::group_seq_axioms;

/// Scanning `s` left to right: the non-empty segments already closed by a
/// dot, and the characters of the segment still open.
pub open spec fn scan_path(s: Seq<char>) -> (Seq<Seq<char>>, Seq<char>)
    decreases s.len(),
{
    if s.len() == 0 {
        (Seq::empty(), Seq::empty())
    } else {
        let (done, open) = scan_path(s.drop_last());
        if s.last() == '.' {
            (if open.len() > 0 {
                done.push(open)
            } else {
                done
            }, Seq::empty())
        } else {
            (done, open.push(s.last()))
        }
    }
}

/// The segments of a dotted address: the non-empty pieces between dots, in order.
pub open spec fn split_path(s: Seq<char>) -> Seq<Seq<char>> {
    let (done, open) = scan_path(s);
    if open.len() > 0 {
        done.push(open)
    } else {
        done
    }
}

pub open spec fn texts(v: Seq<String>) -> Seq<Seq<char>> {
    v.map_values(|x: String| x@)
}

/// An ordered, consumable sequence of path segments.
#[derive(Debug, PartialEq)]
pub struct Key(Vec<String>);

impl View for Key {
    type V = Seq<Seq<char>>;

    closed spec fn view(&self) -> Seq<Seq<char>> {
        texts(self.0@)
    }
}

impl Key {
    /// Splits a dotted address into its non-empty segments.
    pub fn parse(s: &str) -> (k: Key)
        ensures
            k@ == split_path(s@),
    {
        let n = s.unicode_len();
        let mut segs: Vec<String> = Vec::new();
        let mut open = String::new();
        let mut open_len: usize = 0;
        let mut i: usize = 0;
        while i < n
            invariant
                n == s@.len(),
                0 <= i <= n,
                open_len == open@.len(),
                open_len <= i,
                (texts(segs@), open@) == scan_path(s@.subrange(0, i as int)),
            decreases n - i,
        {
            let c = s.get_char(i);
            let ghost pre = s@.subrange(0, i as int);
            assert(s@.subrange(0, i + 1).drop_last() =~= pre);
            if c == '.' {
                if open_len > 0 {
                    let mut seg = String::new();
                    std::mem::swap(&mut seg, &mut open);
                    segs.push(seg);
                    assert(texts(segs@) =~= scan_path(pre).0.push(scan_path(pre).1));
                    open_len = 0;
                }
            } else {
                push_char(&mut open, c);
                open_len = open_len + 1;
            }
            i = i + 1;
        }
        assert(s@.subrange(0, n as int) =~= s@);
        if open_len > 0 {
            segs.push(open);
            assert(texts(segs@) =~= split_path(s@));
        }
        Key(segs)
    }

    /// The one-segment path made of an index's decimal text.
    pub fn index(i: usize) -> (k: Key)
        ensures
            k@ == seq![decimal(i as int)],
    {
        let mut segs: Vec<String> = Vec::new();
        segs.push(unsigned_text(i as u128));
        assert(texts(segs@) =~= seq![decimal(i as int)]);
        Key(segs)
    }

    /// The number of segments left.
    pub fn len(&self) -> (r: usize)
        ensures
            r == self@.len(),
    {
        self.0.len()
    }

    /// The segment at position `i`.
    pub fn segment(&self, i: usize) -> (r: &str)
        requires
            i < self@.len(),
        ensures
            r@ == self@[i as int],
    {
        self.0[i].as_str()
    }

    /// The first segment, without consuming it.
    pub fn peek(&self) -> (r: Option<&str>)
        ensures
            self@.len() == 0 ==> r is None,
            self@.len() > 0 ==> r is Some && r->Some_0@ == self@[0],
    {
        if self.0.len() == 0 {
            None
        } else {
            Some(self.0[0].as_str())
        }
    }

    /// Consumes and returns the first segment.
    pub fn next(&mut self) -> (r: Option<String>)
        ensures
            old(self)@.len() == 0 ==> r is None && final(self)@ == old(self)@,
            old(self)@.len() > 0 ==> r is Some && r->Some_0@ == old(self)@[0] && final(self)@
                == old(self)@.drop_first(),
    {
        if self.0.len() == 0 {
            None
        } else {
            let head = self.0.remove(0);
            assert(texts(self.0@) =~= texts(old(self).0@).drop_first());
            Some(head)
        }
    }
}

/// Anything that can name a location: a dotted address, an index, or a [`Key`].
pub trait PathLike {
    /// The segments that this address names.
    spec fn segments(&self) -> Seq<Seq<char>>;

    fn into_key(self) -> (k: Key)
        ensures
            k@ == self.segments(),
    ;
}

impl<'a> PathLike for &'a str {
    open spec fn segments(&self) -> Seq<Seq<char>> {
        split_path((*self)@)
    }

    fn into_key(self) -> (k: Key) {
        Key::parse(self)
    }
}

impl PathLike for String {
    open spec fn segments(&self) -> Seq<Seq<char>> {
        split_path(self@)
    }

    fn into_key(self) -> (k: Key) {
        Key::parse(self.as_str())
    }
}

impl PathLike for usize {
    open spec fn segments(&self) -> Seq<Seq<char>> {
        seq![decimal(*self as int)]
    }

    fn into_key(self) -> (k: Key) {
        Key::index(self)
    }
}

impl PathLike for Key {
    open spec fn segments(&self) -> Seq<Seq<char>> {
        self@
    }

    fn into_key(self) -> (k: Key) {
        self
    }
}

} // verus!
