//! Numbers and truth values as the format writes them.
//!
//! An integer is an optional sign, decimal digits and an optional unit letter
//! `k`, `m` or `g` (either case) that multiplies by a power of 1024.

use vstd::prelude::*;
use crate::bytes::{is_digit, lower, lower_seq, to_lower, MINUS, PLUS};

verus! {

/// Why a value cannot be read as the type that was asked for.
#[derive(Clone, Copy, Debug, PartialEq, Eq, Structural)]
pub enum TypeError {
    /// The directive is a bare name and has no value to read.
    NoValue,
    /// The value is not an integer of the format.
    NotInteger,
    /// The integer does not fit the type that was asked for.
    Overflow,
    /// A signed-negative integer where an unsigned one was asked for.
    Negative,
    /// The value is neither a truth word nor an integer.
    NotBoolean,
    /// The path starts with `~` and no home directory was given.
    NoHome,
}

/// The number that a run of decimal digits writes.
pub open spec fn digits_value(d: Seq<u8>) -> nat
    decreases d.len(),
{
    if d.len() == 0 {
        0
    } else {
        digits_value(d.drop_last()) * 10 + (d.last() - 48) as nat
    }
}

/// Every byte of `d` is a decimal digit.
pub open spec fn all_digits(d: Seq<u8>) -> bool {
    forall|i: int| 0 <= i < d.len() ==> is_digit(#[trigger] d[i])
}

/// A unit letter: `k`, `m` or `g`, in either case.
pub open spec fn is_unit(c: u8) -> bool {
    lower(c) == 107 || lower(c) == 109 || lower(c) == 103
}

/// What a unit letter multiplies by: 1024 for `k`, its square for `m`, its cube for `g`.
pub open spec fn unit_factor(c: u8) -> nat {
    if lower(c) == 107 {
        1024
    } else if lower(c) == 109 {
        1048576
    } else if lower(c) == 103 {
        1073741824
    } else {
        1
    }
}

/// An integer of the format, before any range is asked of it.
pub struct Literal {
    pub negative: bool,
    pub magnitude: nat,
}

/// Where the digits of `v` start: after a leading sign, if there is one.
pub open spec fn digits_start(v: Seq<u8>) -> int {
    if v.len() > 0 && (v[0] == PLUS || v[0] == MINUS) {
        1
    } else {
        0
    }
}

/// Where the digits of `v` end: before a final unit letter, if there is one.
pub open spec fn digits_end(v: Seq<u8>) -> int {
    if v.len() > 0 && is_unit(v.last()) {
        v.len() - 1
    } else {
        v.len() as int
    }
}

/// The integer that `v` writes, or `None` where `v` is not sign, digits, unit.
pub open spec fn literal(v: Seq<u8>) -> Option<Literal> {
    let from = digits_start(v);
    let to = digits_end(v);
    if from < to && all_digits(v.subrange(from, to)) {
        Some(
            Literal {
                negative: v[0] == MINUS,
                magnitude: digits_value(v.subrange(from, to)) * (if to < v.len() {
                    unit_factor(v.last())
                } else {
                    1
                }),
            },
        )
    } else {
        None
    }
}

/// `v` read as a signed 32-bit integer.
pub open spec fn int_of(v: Seq<u8>) -> Result<i32, TypeError> {
    match literal(v) {
        None => Err(TypeError::NotInteger),
        Some(l) => {
            let n = if l.negative {
                -(l.magnitude as int)
            } else {
                l.magnitude as int
            };
            if i32::MIN <= n <= i32::MAX {
                Ok(n as i32)
            } else {
                Err(TypeError::Overflow)
            }
        },
    }
}

/// `v` read as an unsigned 64-bit integer. A `-` sign is refused whatever follows it.
pub open spec fn ulong_of(v: Seq<u8>) -> Result<u64, TypeError> {
    match literal(v) {
        None => Err(TypeError::NotInteger),
        Some(l) => if l.negative {
            Err(TypeError::Negative)
        } else if l.magnitude <= u64::MAX {
            Ok(l.magnitude as u64)
        } else {
            Err(TypeError::Overflow)
        },
    }
}

/// `true`, `yes` or `on`, in any mix of cases.
pub open spec fn is_true_word(v: Seq<u8>) -> bool {
    let w = lower_seq(v);
    // t r u e, y e s, o n
    w == seq![116u8, 114u8, 117u8, 101u8] || w == seq![121u8, 101u8, 115u8] || w == seq![
        111u8,
        110u8,
    ]
}

/// `false`, `no` or `off`, in any mix of cases.
pub open spec fn is_false_word(v: Seq<u8>) -> bool {
    let w = lower_seq(v);
    // f a l s e, n o, o f f
    w == seq![102u8, 97u8, 108u8, 115u8, 101u8] || w == seq![110u8, 111u8] || w == seq![
        111u8,
        102u8,
        102u8,
    ]
}

/// `v` read as a truth value: a truth word, or an integer, which is true unless it is zero.
pub open spec fn bool_of(v: Seq<u8>) -> Result<bool, TypeError> {
    if is_true_word(v) {
        Ok(true)
    } else if is_false_word(v) {
        Ok(false)
    } else {
        match int_of(v) {
            Ok(n) => Ok(n != 0),
            Err(_) => Err(TypeError::NotBoolean),
        }
    }
}

/// An integer as it was read: `magnitude` is `None` where it is beyond 64 bits.
struct Number {
    negative: bool,
    magnitude: Option<u64>,
}

impl Number {
    spec fn stands_for(self, l: Literal) -> bool {
        &&& self.negative == l.negative
        &&& match self.magnitude {
            Some(m) => m == l.magnitude,
            None => l.magnitude > u64::MAX,
        }
    }
}

fn unit_of(c: u8) -> (r: Option<u64>)
    ensures
        r is Some == is_unit(c),
        r matches Some(f) ==> f == unit_factor(c),
{
    let l = to_lower(c);
    if l == 107 {
        Some(1024)
    } else if l == 109 {
        Some(1048576)
    } else if l == 103 {
        Some(1073741824)
    } else {
        None
    }
}

/// Reads the digits of `v` between `from` and `to`; `None` where one of them is no digit.
fn read_digits(v: &[u8], from: usize, to: usize) -> (r: Option<Option<u64>>)
    requires
        from <= to <= v.len(),
    ensures
        r is Some == all_digits(v@.subrange(from as int, to as int)),
        r matches Some(Some(n)) ==> n == digits_value(v@.subrange(from as int, to as int)),
        r matches Some(None) ==> digits_value(v@.subrange(from as int, to as int)) > u64::MAX,
{
    let mut acc: Option<u64> = Some(0);
    let mut i: usize = from;
    while i < to
        invariant
            from <= i <= to <= v.len(),
            all_digits(v@.subrange(from as int, i as int)),
            acc matches Some(n) ==> n == digits_value(v@.subrange(from as int, i as int)),
            acc is None ==> digits_value(v@.subrange(from as int, i as int)) > u64::MAX,
        decreases to - i,
    {
        let c = v[i];
        let ghost before = v@.subrange(from as int, i as int);
        let ghost after = v@.subrange(from as int, i + 1);
        proof {
            assert(after.drop_last() =~= before);
            assert(after.last() == c);
        }
        if !(48 <= c && c <= 57) {
            proof {
                let whole = v@.subrange(from as int, to as int);
                assert(whole[i - from] == c);
            }
            return None;
        }
        acc = match acc {
            Some(n) => match n.checked_mul(10) {
                Some(m) => m.checked_add((c - 48) as u64),
                None => None,
            },
            None => None,
        };
        proof {
            assert forall|k: int| 0 <= k < after.len() implies is_digit(#[trigger] after[k]) by {
                if k < before.len() {
                    assert(after[k] == before[k]);
                }
            }
        }
        i += 1;
    }
    Some(acc)
}

fn read_number(v: &[u8]) -> (r: Option<Number>)
    ensures
        r is Some == literal(v@) is Some,
        r matches Some(n) ==> n.stands_for(literal(v@).unwrap()),
{
    let len = v.len();
    if len == 0 {
        return None;
    }
    let negative = v[0] == MINUS;
    let from: usize = if v[0] == PLUS || v[0] == MINUS {
        1
    } else {
        0
    };
    let unit = unit_of(v[len - 1]);
    let to: usize = if unit.is_some() {
        len - 1
    } else {
        len
    };
    if from >= to {
        return None;
    }
    match read_digits(v, from, to) {
        None => None,
        Some(digits) => {
            let factor: u64 = match unit {
                Some(f) => f,
                None => 1,
            };
            let magnitude = match digits {
                Some(n) => n.checked_mul(factor),
                None => None,
            };
            proof {
                let d = digits_value(v@.subrange(from as int, to as int));
                assert(factor >= 1);
                assert(d * factor >= d) by (nonlinear_arith)
                    requires
                        factor >= 1,
                        d >= 0,
                ;
            }
            Some(Number { negative, magnitude })
        },
    }
}

/// Reads `v` as a signed 32-bit integer.
pub fn parse_int(v: &[u8]) -> (r: Result<i32, TypeError>)
    ensures
        r == int_of(v@),
{
    match read_number(v) {
        None => Err(TypeError::NotInteger),
        Some(n) => match n.magnitude {
            None => Err(TypeError::Overflow),
            Some(m) => if n.negative {
                if m <= 2147483648 {
                    Ok((0 - (m as i64)) as i32)
                } else {
                    Err(TypeError::Overflow)
                }
            } else if m <= 2147483647 {
                Ok(m as i32)
            } else {
                Err(TypeError::Overflow)
            },
        },
    }
}

/// Reads `v` as an unsigned 64-bit integer.
pub fn parse_ulong(v: &[u8]) -> (r: Result<u64, TypeError>)
    ensures
        r == ulong_of(v@),
{
    match read_number(v) {
        None => Err(TypeError::NotInteger),
        Some(n) => if n.negative {
            Err(TypeError::Negative)
        } else {
            match n.magnitude {
                Some(m) => Ok(m),
                None => Err(TypeError::Overflow),
            }
        },
    }
}

/// Whether `v`, folded to lower case, is `word`.
fn lower_is(v: &[u8], word: &[u8]) -> (r: bool)
    ensures
        r == (lower_seq(v@) == word@),
{
    if v.len() != word.len() {
        return false;
    }
    let mut i: usize = 0;
    while i < v.len()
        invariant
            i <= v.len() == word.len(),
            lower_seq(v@).take(i as int) == word@.take(i as int),
        decreases v.len() - i,
    {
        if to_lower(v[i]) != word[i] {
            assert(lower_seq(v@)[i as int] != word@[i as int]);
            return false;
        }
        proof {
            assert(lower_seq(v@).take(i + 1) =~= lower_seq(v@).take(i as int).push(lower(v@[i as int])));
            assert(word@.take(i + 1) =~= word@.take(i as int).push(word@[i as int]));
        }
        i += 1;
    }
    proof {
        assert(lower_seq(v@).take(v@.len() as int) =~= lower_seq(v@));
        assert(word@.take(word@.len() as int) =~= word@);
    }
    true
}

fn true_word(v: &[u8]) -> (r: bool)
    ensures
        r == is_true_word(v@),
{
    let t: [u8; 4] = [116, 114, 117, 101];
    let y: [u8; 3] = [121, 101, 115];
    let o: [u8; 2] = [111, 110];
    proof {
        assert(t@ =~= seq![116u8, 114u8, 117u8, 101u8]);
        assert(y@ =~= seq![121u8, 101u8, 115u8]);
        assert(o@ =~= seq![111u8, 110u8]);
    }
    lower_is(v, t.as_slice()) || lower_is(v, y.as_slice()) || lower_is(v, o.as_slice())
}

fn false_word(v: &[u8]) -> (r: bool)
    ensures
        r == is_false_word(v@),
{
    let f: [u8; 5] = [102, 97, 108, 115, 101];
    let n: [u8; 2] = [110, 111];
    let o: [u8; 3] = [111, 102, 102];
    proof {
        assert(f@ =~= seq![102u8, 97u8, 108u8, 115u8, 101u8]);
        assert(n@ =~= seq![110u8, 111u8]);
        assert(o@ =~= seq![111u8, 102u8, 102u8]);
    }
    lower_is(v, f.as_slice()) || lower_is(v, n.as_slice()) || lower_is(v, o.as_slice())
}

/// Reads `v` as a truth value.
pub fn parse_bool(v: &[u8]) -> (r: Result<bool, TypeError>)
    ensures
        r == bool_of(v@),
{
    if true_word(v) {
        Ok(true)
    } else if false_word(v) {
        Ok(false)
    } else {
        match parse_int(v) {
            Ok(n) => Ok(n != 0),
            Err(_) => Err(TypeError::NotBoolean),
        }
    }
}

} // verus!
