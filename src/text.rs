//! Canonical text of scalars: how integers, booleans and characters are
//! written into an [`Entry`](crate::Entry) and read back from one.
use vstd::prelude::*;

verus! {

broadcast use vstd::seq::group_seq_axioms;

/// Relies on `String::push`: appends one character.
#[verifier::external_body]
pub(crate) fn push_char(s: &mut String, c: char)
    ensures
        final(s)@ == old(s)@.push(c),
{
    s.push(c)
}

pub open spec fn digit_char(d: nat) -> char {
    if d == 0 {
        '0'
    } else if d == 1 {
        '1'
    } else if d == 2 {
        '2'
    } else if d == 3 {
        '3'
    } else if d == 4 {
        '4'
    } else if d == 5 {
        '5'
    } else if d == 6 {
        '6'
    } else if d == 7 {
        '7'
    } else if d == 8 {
        '8'
    } else {
        '9'
    }
}

pub open spec fn is_digit(c: char) -> bool {
    '0' <= c && c <= '9'
}

pub open spec fn digit_value(c: char) -> nat {
    ((c as u32) - ('0' as u32)) as nat
}

pub open spec fn all_digits(s: Seq<char>) -> bool {
    forall|i: int| 0 <= i < s.len() ==> is_digit(#[trigger] s[i])
}

/// The decimal digits of `n`, most significant first, without leading zeros.
pub open spec fn digits(n: nat) -> Seq<char>
    decreases n,
{
    if n < 10 {
        seq![digit_char(n)]
    } else {
        digits(n / 10).push(digit_char(n % 10))
    }
}

/// The canonical text of an integer: its decimal digits, after a `-` when negative.
pub open spec fn decimal(v: int) -> Seq<char> {
    if v < 0 {
        seq!['-'] + digits((-v) as nat)
    } else {
        digits(v as nat)
    }
}

/// The number that a string of decimal digits denotes.
pub open spec fn digits_value(s: Seq<char>) -> nat
    decreases s.len(),
{
    if s.len() == 0 {
        0
    } else {
        digits_value(s.drop_last()) * 10 + digit_value(s.last())
    }
}

/// The integer that `s` spells: an optional sign (`-` only when `signed`)
/// followed by at least one decimal digit.
pub open spec fn integer_of(s: Seq<char>, signed: bool) -> Option<int> {
    if s.len() > 0 && s[0] == '+' {
        let d = s.drop_first();
        if d.len() > 0 && all_digits(d) {
            Some(digits_value(d) as int)
        } else {
            None
        }
    } else if signed && s.len() > 0 && s[0] == '-' {
        let d = s.drop_first();
        if d.len() > 0 && all_digits(d) {
            Some(-(digits_value(d) as int))
        } else {
            None
        }
    } else if s.len() > 0 && all_digits(s) {
        Some(digits_value(s) as int)
    } else {
        None
    }
}

/// The integer that `s` spells, when it lies in `lo..=hi`.
pub open spec fn integer_in(s: Seq<char>, lo: int, hi: int) -> Option<int> {
    match integer_of(s, lo < 0) {
        Some(v) => if lo <= v && v <= hi {
            Some(v)
        } else {
            None
        },
        None => None,
    }
}

pub open spec fn bool_text(b: bool) -> Seq<char> {
    if b {
        seq!['t', 'r', 'u', 'e']
    } else {
        seq!['f', 'a', 'l', 's', 'e']
    }
}

pub open spec fn bool_of(s: Seq<char>) -> Option<bool> {
    if s == bool_text(true) {
        Some(true)
    } else if s == bool_text(false) {
        Some(false)
    } else {
        None
    }
}

pub open spec fn char_of(s: Seq<char>) -> Option<char> {
    if s.len() == 1 {
        Some(s[0])
    } else {
        None
    }
}

proof fn lemma_digit_char(d: nat)
    requires
        d < 10,
    ensures
        is_digit(digit_char(d)),
        digit_value(digit_char(d)) == d,
{
}

proof fn lemma_digits(n: nat)
    ensures
        digits(n).len() > 0,
        all_digits(digits(n)),
        digits_value(digits(n)) == n,
    decreases n,
{
    lemma_digit_char(n % 10);
    let d = digits(n);
    if n >= 10 {
        lemma_digits(n / 10);
        assert(d.drop_last() =~= digits(n / 10));
        assert(d.last() == digit_char(n % 10));
        assert(digits_value(d) == digits_value(digits(n / 10)) * 10 + n % 10);
        assert(n == (n / 10) * 10 + n % 10);
    } else {
        assert(d.drop_last() =~= Seq::<char>::empty());
        assert(digits_value(d) == digits_value(Seq::<char>::empty()) * 10 + n);
    }
}

/// Reading back the canonical text of an integer gives the integer, under
/// every width whose range holds it.
pub proof fn lemma_decimal_round_trip(v: int, lo: int, hi: int)
    requires
        lo <= v <= hi,
    ensures
        integer_in(decimal(v), lo, hi) == Some(v),
{
    if v < 0 {
        lemma_digits((-v) as nat);
        let s = decimal(v);
        assert(s.drop_first() =~= digits((-v) as nat));
    } else {
        lemma_digits(v as nat);
    }
}

fn digit_of(d: u8) -> (c: char)
    requires
        d < 10,
    ensures
        c == digit_char(d as nat),
{
    if d == 0 {
        '0'
    } else if d == 1 {
        '1'
    } else if d == 2 {
        '2'
    } else if d == 3 {
        '3'
    } else if d == 4 {
        '4'
    } else if d == 5 {
        '5'
    } else if d == 6 {
        '6'
    } else if d == 7 {
        '7'
    } else if d == 8 {
        '8'
    } else {
        '9'
    }
}

fn write_digits(n: u128, out: &mut String)
    ensures
        final(out)@ == old(out)@ + digits(n as nat),
    decreases n,
{
    if n >= 10 {
        write_digits(n / 10, out);
    }
    let c = digit_of((n % 10) as u8);
    push_char(out, c);
    proof {
        if n >= 10 {
            assert(final(out)@ =~= old(out)@ + digits(n as nat));
        }
    }
}

/// The canonical text of an unsigned integer.
pub fn unsigned_text(n: u128) -> (s: String)
    ensures
        s@ == decimal(n as int),
{
    let mut s = String::new();
    write_digits(n, &mut s);
    assert(s@ =~= decimal(n as int));
    s
}

/// The canonical text of a signed integer.
pub fn signed_text(v: i128) -> (s: String)
    ensures
        s@ == decimal(v as int),
{
    let mut s = String::new();
    if v < 0 {
        push_char(&mut s, '-');
        let m: u128 = ((-(v + 1)) as u128) + 1;
        write_digits(m, &mut s);
    } else {
        write_digits(v as u128, &mut s);
    }
    assert(s@ =~= decimal(v as int));
    s
}

/// Why a text is not an integer of the requested width.
pub enum IntegerFault {
    Empty,
    InvalidDigit,
    TooLarge,
    TooSmall,
}

pub open spec fn integer_fault(s: Seq<char>, lo: int, hi: int) -> IntegerFault {
    if s.len() == 0 {
        IntegerFault::Empty
    } else {
        match integer_of(s, lo < 0) {
            None => IntegerFault::InvalidDigit,
            Some(v) => if v > hi {
                IntegerFault::TooLarge
            } else {
                IntegerFault::TooSmall
            },
        }
    }
}

impl IntegerFault {
    pub open spec fn message(self) -> Seq<char> {
        match self {
            IntegerFault::Empty => "cannot parse integer from empty string"@,
            IntegerFault::InvalidDigit => "invalid digit found in string"@,
            IntegerFault::TooLarge => "number too large to fit in target type"@,
            IntegerFault::TooSmall => "number too small to fit in target type"@,
        }
    }

    /// The message of this fault.
    pub fn describe(&self) -> (r: &'static str)
        ensures
            r@ == self.message(),
    {
        match self {
            IntegerFault::Empty => "cannot parse integer from empty string",
            IntegerFault::InvalidDigit => "invalid digit found in string",
            IntegerFault::TooLarge => "number too large to fit in target type",
            IntegerFault::TooSmall => "number too small to fit in target type",
        }
    }
}

pub const U128_MAX: u128 = 340282366920938463463374607431768211455;

/// Reads the optional sign and the digits of `s`: whether the sign was `-`,
/// and the magnitude, or `None` for a magnitude beyond `u128`.
fn scan_integer(s: &str, signed: bool) -> (r: Result<(bool, Option<u128>), IntegerFault>)
    ensures
        match r {
            Ok((neg, mag)) => match integer_of(s@, signed) {
                Some(v) => {
                    &&& neg == (v < 0 || (s@[0] == '-'))
                    &&& (neg ==> v == -(digits_value(s@.drop_first()) as int))
                    &&& (!neg ==> v >= 0)
                    &&& match mag {
                        Some(m) => m as int == if neg { -v } else { v },
                        None => (if neg { -v } else { v }) > U128_MAX,
                    }
                },
                None => false,
            },
            Err(f) => integer_of(s@, signed) is None && f == (if s@.len() == 0 {
                IntegerFault::Empty
            } else {
                IntegerFault::InvalidDigit
            }),
        },
{
    let n = s.unicode_len();
    if n == 0 {
        return Err(IntegerFault::Empty);
    }
    let first = s.get_char(0);
    let mut neg = false;
    let mut start: usize = 0;
    if first == '+' {
        start = 1;
    } else if first == '-' && signed {
        neg = true;
        start = 1;
    }
    if start == n {
        return Err(IntegerFault::InvalidDigit);
    }
    let ghost d = s@.subrange(start as int, n as int);
    let mut acc: u128 = 0;
    let mut big = false;
    let mut i: usize = start;
    while i < n
        invariant
            n == s@.len(),
            start <= i <= n,
            start < n,
            start <= 1,
            n > 0,
            first == s@[0],
            start == 1 <==> (first == '+' || (signed && first == '-')),
            neg <==> (signed && first == '-'),
            d == s@.subrange(start as int, n as int),
            all_digits(s@.subrange(start as int, i as int)),
            big ==> digits_value(s@.subrange(start as int, i as int)) > U128_MAX,
            !big ==> acc as int == digits_value(s@.subrange(start as int, i as int)),
        decreases n - i,
    {
        let c = s.get_char(i);
        if !('0' <= c && c <= '9') {
            assert(d[i - start] == c);
            assert(!all_digits(d));
            proof {
                if start == 0 {
                    assert(d =~= s@);
                } else {
                    assert(d =~= s@.drop_first());
                }
            }
            return Err(IntegerFault::InvalidDigit);
        }
        let dv: u128 = ((c as u32) - ('0' as u32)) as u128;
        let ghost pre = s@.subrange(start as int, i as int);
        let ghost next = s@.subrange(start as int, i + 1);
        assert(next.drop_last() =~= pre);
        assert(digits_value(next) == digits_value(pre) * 10 + dv);
        if !big {
            if acc > (U128_MAX - dv) / 10 {
                big = true;
                assert(acc * 10 + dv > U128_MAX) by (nonlinear_arith)
                    requires
                        acc > (U128_MAX - dv) / 10,
                        dv <= 9,
                ;
            } else {
                assert(acc * 10 + dv <= U128_MAX) by (nonlinear_arith)
                    requires
                        acc <= (U128_MAX - dv) / 10,
                        dv <= 9,
                ;
                acc = acc * 10 + dv;
            }
        } else {
            assert(digits_value(pre) * 10 + dv > U128_MAX) by (nonlinear_arith)
                requires
                    digits_value(pre) > U128_MAX,
            ;
        }
        i = i + 1;
    }
    assert(s@.subrange(start as int, n as int) == d);
    proof {
        if start == 0 {
            assert(d =~= s@);
        } else {
            assert(d =~= s@.drop_first());
        }
    }
    Ok((neg, if big { None } else { Some(acc) }))
}

/// Reads `s` as a signed integer in `lo..=hi`.
pub fn signed_in(s: &str, lo: i128, hi: i128) -> (r: Result<i128, IntegerFault>)
    requires
        lo < 0 <= hi,
    ensures
        match r {
            Ok(v) => integer_in(s@, lo as int, hi as int) == Some(v as int),
            Err(f) => integer_in(s@, lo as int, hi as int) is None && f == integer_fault(
                s@,
                lo as int,
                hi as int,
            ),
        },
{
    match scan_integer(s, true) {
        Err(f) => Err(f),
        Ok((neg, None)) => if neg {
            Err(IntegerFault::TooSmall)
        } else {
            Err(IntegerFault::TooLarge)
        },
        Ok((neg, Some(m))) => {
            if neg {
                let lo_mag: u128 = ((-(lo + 1)) as u128) + 1;
                if m > lo_mag {
                    Err(IntegerFault::TooSmall)
                } else if m == lo_mag {
                    Ok(lo)
                } else {
                    Ok(-(m as i128))
                }
            } else {
                if m > hi as u128 {
                    Err(IntegerFault::TooLarge)
                } else {
                    Ok(m as i128)
                }
            }
        },
    }
}

/// Reads `s` as an unsigned integer in `0..=hi`.
pub fn unsigned_in(s: &str, hi: u128) -> (r: Result<u128, IntegerFault>)
    ensures
        match r {
            Ok(v) => integer_in(s@, 0, hi as int) == Some(v as int),
            Err(f) => integer_in(s@, 0, hi as int) is None && f == integer_fault(
                s@,
                0,
                hi as int,
            ),
        },
{
    match scan_integer(s, false) {
        Err(f) => Err(f),
        Ok((_, None)) => Err(IntegerFault::TooLarge),
        Ok((_, Some(m))) => {
            if m > hi {
                Err(IntegerFault::TooLarge)
            } else {
                Ok(m)
            }
        },
    }
}

/// Reads `s` as an array index: the digits of a `usize`, optionally after `+`.
pub fn index_of(s: &str) -> (r: Option<usize>)
    ensures
        match r {
            Some(i) => integer_in(s@, 0, usize::MAX as int) == Some(i as int),
            None => integer_in(s@, 0, usize::MAX as int) is None,
        },
{
    match unsigned_in(s, usize::MAX as u128) {
        Ok(v) => Some(v as usize),
        Err(_) => None,
    }
}

/// Reads `s` as `true` or `false`.
pub fn bool_in(s: &str) -> (r: Option<bool>)
    ensures
        r == bool_of(s@),
{
    proof {
        reveal_strlit("true");
        reveal_strlit("false");
    }
    let n = s.unicode_len();
    if n == 4 && s.get_char(0) == 't' && s.get_char(1) == 'r' && s.get_char(2) == 'u'
        && s.get_char(3) == 'e' {
        assert(s@ =~= bool_text(true));
        Some(true)
    } else if n == 5 && s.get_char(0) == 'f' && s.get_char(1) == 'a' && s.get_char(2) == 'l'
        && s.get_char(3) == 's' && s.get_char(4) == 'e' {
        assert(s@ =~= bool_text(false));
        Some(false)
    } else {
        assert(s@ != bool_text(true));
        assert(s@ != bool_text(false));
        None
    }
}

/// The canonical text of a boolean.
pub fn bool_str(b: bool) -> (r: &'static str)
    ensures
        r@ == bool_text(b),
{
    proof {
        reveal_strlit("true");
        reveal_strlit("false");
    }
    if b {
        "true"
    } else {
        "false"
    }
}

/// The canonical text of a character: the character alone.
pub fn char_text(c: char) -> (r: String)
    ensures
        r@ == seq![c],
{
    let mut s = String::new();
    push_char(&mut s, c);
    assert(s@ =~= seq![c]);
    s
}

/// Reads `s` as exactly one character.
pub fn char_in(s: &str) -> (r: Option<char>)
    ensures
        r == char_of(s@),
{
    if s.unicode_len() == 1 {
        Some(s.get_char(0))
    } else {
        None
    }
}

} // verus!
