//! Decimal text of integers as ASCII bytes: rendering, parsing, and
//! replacement of every occurrence of a pattern.

use vstd::prelude::*;

use crate::op::{in_range, OpError};

verus! {

/// ASCII `0`.
pub const ZERO: u8 = 48;

/// ASCII `9`.
pub const NINE: u8 = 57;

/// ASCII `-`.
pub const MINUS: u8 = 45;

pub open spec fn is_digit(c: u8) -> bool {
    ZERO <= c <= NINE
}

pub open spec fn all_digits(s: Seq<u8>) -> bool {
    forall|i: int| 0 <= i < s.len() ==> is_digit(#[trigger] s[i])
}

/// The digits of `n`, most significant first, without leading zeros.
pub open spec fn nat_digits(n: nat) -> Seq<u8>
    decreases n,
{
    if n < 10 {
        seq![(ZERO + n) as u8]
    } else {
        nat_digits(n / 10).push((ZERO + n % 10) as u8)
    }
}

/// The canonical base-10 text of `v`, with a leading `-` when it is negative.
pub open spec fn decimal_of(v: int) -> Seq<u8> {
    if v < 0 {
        seq![MINUS] + nat_digits((-v) as nat)
    } else {
        nat_digits(v as nat)
    }
}

/// The number that a run of digits denotes.
pub open spec fn digits_value(s: Seq<u8>) -> int
    decreases s.len(),
{
    if s.len() == 0 {
        0
    } else {
        digits_value(s.drop_last()) * 10 + (s.last() - ZERO)
    }
}

/// The value of a well-formed literal, which is valid only within `i32`.
pub open spec fn literal_value(x: int) -> Result<i32, OpError> {
    if in_range(x) {
        Ok(x as i32)
    } else {
        Err(OpError::InvalidLiteral)
    }
}

/// An optional `-` followed by one or more digits is an integer literal; it
/// reads as an `i32` only when its value lies in range, and every other text
/// is an `InvalidLiteral`.
pub open spec fn parse_spec(s: Seq<u8>) -> Result<i32, OpError> {
    if s.len() > 0 && s[0] == MINUS {
        let d = s.drop_first();
        if d.len() > 0 && all_digits(d) {
            literal_value(-digits_value(d))
        } else {
            Err(OpError::InvalidLiteral)
        }
    } else if s.len() > 0 && all_digits(s) {
        literal_value(digits_value(s))
    } else {
        Err(OpError::InvalidLiteral)
    }
}

/// `s` with every occurrence of `from`, scanned left to right without
/// overlap, replaced by `to`. An empty pattern leaves `s` as it is.
pub open spec fn replace_all_spec(s: Seq<u8>, from: Seq<u8>, to: Seq<u8>) -> Seq<u8>
    decreases s.len(),
{
    if s.len() == 0 || from.len() == 0 {
        s
    } else if from.len() <= s.len() && s.subrange(0, from.len() as int) == from {
        to + replace_all_spec(s.subrange(from.len() as int, s.len() as int), from, to)
    } else {
        seq![s[0]] + replace_all_spec(s.drop_first(), from, to)
    }
}

fn nat_to_digits(n: u32) -> (r: Vec<u8>)
    ensures
        r@ == nat_digits(n as nat),
    decreases n,
{
    if n < 10 {
        vec![(ZERO as u32 + n) as u8]
    } else {
        let mut r = nat_to_digits(n / 10);
        r.push((ZERO as u32 + n % 10) as u8);
        r
    }
}

/// The decimal text of `v`.
pub fn to_decimal(v: i32) -> (r: Vec<u8>)
    ensures
        r@ == decimal_of(v as int),
{
    if v < 0 {
        let mut r = vec![MINUS];
        let mut d = nat_to_digits((-(v as i64)) as u32);
        r.append(&mut d);
        r
    } else {
        nat_to_digits(v as u32)
    }
}

proof fn lemma_digits_value_prefix(s: Seq<u8>, k: int)
    requires
        all_digits(s),
        0 <= k <= s.len(),
    ensures
        0 <= digits_value(s.subrange(0, k)) <= digits_value(s),
    decreases s.len(),
{
    if s.len() == 0 {
        assert(s.subrange(0, k) =~= s);
    } else {
        let t = s.drop_last();
        assert(all_digits(t)) by {
            assert forall|i: int| 0 <= i < t.len() implies is_digit(#[trigger] t[i]) by {
                assert(t[i] == s[i]);
            }
        }
        assert(is_digit(s[s.len() - 1]));
        if k < s.len() {
            lemma_digits_value_prefix(t, k);
            assert(t.subrange(0, k) =~= s.subrange(0, k));
        } else {
            lemma_digits_value_prefix(t, t.len() as int);
            assert(t.subrange(0, t.len() as int) =~= t);
            assert(s.subrange(0, k) =~= s);
        }
    }
}

/// Whether every byte of `s` from `start` on is a digit.
fn digits_only(s: &Vec<u8>, start: usize) -> (r: bool)
    requires
        start <= s@.len(),
    ensures
        r == all_digits(s@.subrange(start as int, s@.len() as int)),
{
    let n = s.len();
    let ghost d = s@.subrange(start as int, n as int);
    let mut i: usize = start;
    while i < n
        invariant
            start <= i <= n,
            n == s@.len(),
            d == s@.subrange(start as int, n as int),
            forall|j: int| start <= j < i ==> is_digit(#[trigger] s@[j]),
        decreases n - i,
    {
        if !(ZERO <= s[i] && s[i] <= NINE) {
            assert(d[i - start] == s@[i as int]);
            return false;
        }
        i = i + 1;
    }
    assert forall|j: int| 0 <= j < d.len() implies is_digit(#[trigger] d[j]) by {
        assert(d[j] == s@[start + j]);
    }
    true
}

/// Reads an integer literal: an optional `-` and one or more digits.
pub fn parse_decimal(s: &Vec<u8>) -> (r: Result<i32, OpError>)
    ensures
        r == parse_spec(s@),
{
    let n = s.len();
    if n == 0 {
        return Err(OpError::InvalidLiteral);
    }
    let negative = s[0] == MINUS;
    let start: usize = if negative { 1 } else { 0 };
    let ghost d = s@.subrange(start as int, n as int);
    assert(negative ==> d =~= s@.drop_first());
    assert(!negative ==> d =~= s@);
    if start == n {
        return Err(OpError::InvalidLiteral);
    }
    if !digits_only(s, start) {
        return Err(OpError::InvalidLiteral);
    }
    let mut acc: u64 = 0;
    let mut i: usize = start;
    while i < n
        invariant
            start <= i <= n,
            n == s@.len(),
            d == s@.subrange(start as int, n as int),
            negative == (s@[0] == MINUS),
            negative ==> d == s@.drop_first(),
            !negative ==> d == s@,
            all_digits(d),
            acc == digits_value(s@.subrange(start as int, i as int)),
            acc <= 0x8000_0000,
        decreases n - i,
    {
        let ghost p = s@.subrange(start as int, i as int + 1);
        assert(p.drop_last() =~= s@.subrange(start as int, i as int));
        assert(p.last() == s@[i as int]);
        assert(d[i - start] == s@[i as int]);
        assert(is_digit(d[i - start]));
        acc = acc * 10 + (s[i] - ZERO) as u64;
        assert(acc == digits_value(p));
        assert(p =~= d.subrange(0, i - start + 1));
        proof {
            lemma_digits_value_prefix(d, i - start + 1);
        }
        if acc > 0x8000_0000 {
            return Err(OpError::InvalidLiteral);
        }
        i = i + 1;
    }
    assert(s@.subrange(start as int, n as int) =~= d);
    if negative {
        Ok((-(acc as i64)) as i32)
    } else if acc <= 0x7fff_ffff {
        Ok(acc as i32)
    } else {
        Err(OpError::InvalidLiteral)
    }
}

fn matches_at(s: &Vec<u8>, i: usize, pat: &Vec<u8>) -> (r: bool)
    requires
        i <= s@.len(),
    ensures
        r == (i + pat@.len() <= s@.len() && s@.subrange(i as int, i + pat@.len()) == pat@),
{
    let n = s.len();
    if pat.len() > n - i {
        return false;
    }
    let mut j: usize = 0;
    while j < pat.len()
        invariant
            n == s@.len(),
            i + pat@.len() <= s@.len(),
            j <= pat@.len(),
            forall|k: int| 0 <= k < j ==> s@[i + k] == pat@[k],
        decreases pat@.len() - j,
    {
        if s[i + j] != pat[j] {
            assert(s@.subrange(i as int, i + pat@.len())[j as int] != pat@[j as int]);
            return false;
        }
        j = j + 1;
    }
    assert(s@.subrange(i as int, i + pat@.len()) =~= pat@);
    true
}

/// `s` with every occurrence of `from` replaced by `to`, left to right.
pub fn replace_all(s: &Vec<u8>, from: &Vec<u8>, to: &Vec<u8>) -> (r: Vec<u8>)
    ensures
        r@ == replace_all_spec(s@, from@, to@),
{
    let n = s.len();
    let mut out: Vec<u8> = Vec::new();
    let mut i: usize = 0;
    assert(s@.subrange(0, n as int) =~= s@);
    while i < n
        invariant
            i <= n,
            n == s@.len(),
            out@ + replace_all_spec(s@.subrange(i as int, n as int), from@, to@)
                == replace_all_spec(s@, from@, to@),
        decreases n - i,
    {
        let ghost t = s@.subrange(i as int, n as int);
        if from.len() > 0 && matches_at(s, i, from) {
            assert(t.subrange(0, from@.len() as int) =~= s@.subrange(i as int, i + from@.len()));
            assert(t.subrange(from@.len() as int, t.len() as int) =~= s@.subrange(
                i + from@.len(),
                n as int,
            ));
            let mut k: usize = 0;
            let ghost out0 = out@;
            while k < to.len()
                invariant
                    k <= to@.len(),
                    out@ == out0 + to@.subrange(0, k as int),
                decreases to@.len() - k,
            {
                out.push(to[k]);
                assert(to@.subrange(0, k + 1) =~= to@.subrange(0, k as int).push(to@[k as int]));
                k = k + 1;
            }
            assert(to@.subrange(0, k as int) =~= to@);
            assert(out0 + (to@ + replace_all_spec(s@.subrange(i + from@.len(), n as int), from@, to@))
                =~= out@ + replace_all_spec(s@.subrange(i + from@.len(), n as int), from@, to@));
            i = i + from.len();
        } else {
            assert(from@.len() > 0 ==> !(from@.len() <= t.len() && t.subrange(0, from@.len() as int) == from@)) by {
                if from@.len() > 0 && from@.len() <= t.len() {
                    assert(t.subrange(0, from@.len() as int) =~= s@.subrange(i as int, i + from@.len()));
                }
            }
            assert(t.drop_first() =~= s@.subrange(i + 1, n as int));
            assert(from@.len() == 0 ==> replace_all_spec(t.drop_first(), from@, to@)
                == t.drop_first());
            let ghost out0 = out@;
            out.push(s[i]);
            assert(out0 + (seq![t[0]] + replace_all_spec(t.drop_first(), from@, to@))
                =~= out@ + replace_all_spec(t.drop_first(), from@, to@));
            i = i + 1;
        }
    }
    assert(s@.subrange(n as int, n as int) =~= Seq::<u8>::empty());
    assert(out@ + Seq::<u8>::empty() =~= out@);
    out
}

/// Whether `pat` occurs somewhere in `s`.
pub open spec fn occurs_in(pat: Seq<u8>, s: Seq<u8>) -> bool {
    exists|i: int| 0 <= i && i + pat.len() <= s.len() && #[trigger] s.subrange(i, i + pat.len()) == pat
}

/// The digits of a number are digits, and they denote the number.
pub proof fn lemma_nat_digits(n: nat)
    ensures
        nat_digits(n).len() > 0,
        all_digits(nat_digits(n)),
        digits_value(nat_digits(n)) == n,
    decreases n,
{
    if n < 10 {
        let s = nat_digits(n);
        assert(s.drop_last() =~= Seq::<u8>::empty());
        assert(s.last() - ZERO == n);
        assert(digits_value(s) == digits_value(s.drop_last()) * 10 + (s.last() - ZERO));
    } else {
        lemma_nat_digits(n / 10);
        let s = nat_digits(n);
        assert(s.drop_last() =~= nat_digits(n / 10));
        assert(s.last() - ZERO == n % 10);
        assert((n / 10) * 10 + n % 10 == n);
        assert(digits_value(s) == digits_value(s.drop_last()) * 10 + (s.last() - ZERO));
        assert forall|i: int| 0 <= i < s.len() implies is_digit(#[trigger] s[i]) by {
            if i < s.len() - 1 {
                assert(s[i] == nat_digits(n / 10)[i]);
            }
        }
    }
}

/// Reading the decimal text of a value gives the value back.
pub proof fn lemma_parse_decimal_of(v: i32)
    ensures
        parse_spec(decimal_of(v as int)) == Ok::<i32, OpError>(v),
{
    let s = decimal_of(v as int);
    if v < 0 {
        lemma_nat_digits((-v) as nat);
        assert(s.drop_first() =~= nat_digits((-v) as nat));
    } else {
        lemma_nat_digits(v as nat);
        assert(is_digit(s[0]));
    }
}

/// Replacing a pattern that does not occur leaves the text as it is.
pub proof fn lemma_replace_absent(s: Seq<u8>, from: Seq<u8>, to: Seq<u8>)
    requires
        !occurs_in(from, s),
    ensures
        replace_all_spec(s, from, to) == s,
    decreases s.len(),
{
    if s.len() > 0 && from.len() > 0 {
        if from.len() <= s.len() {
            assert(s.subrange(0, 0 + from.len() as int) == s.subrange(0, from.len() as int));
        }
        let t = s.drop_first();
        assert(!occurs_in(from, t)) by {
            if occurs_in(from, t) {
                let i = choose|i: int|
                    0 <= i && i + from.len() <= t.len() && #[trigger] t.subrange(i, i + from.len())
                        == from;
                assert(t.subrange(i, i + from.len()) =~= s.subrange(i + 1, i + 1 + from.len()));
            }
        }
        lemma_replace_absent(t, from, to);
        assert(seq![s[0]] + t =~= s);
    }
}

} // verus!
