//! Decimal integers as they appear on the wire.
use vstd::prelude::*;

use crate::frame::crlf;

verus! {

pub open spec fn is_digit(b: u8) -> bool {
    48 <= b <= 57
}

/// The ASCII digit of `d`, for `d < 10`.
pub open spec fn digit_byte(d: nat) -> u8 {
    (48 + d) as u8
}

/// The shortest decimal digits of `n`: no leading zero, "0" for zero.
pub open spec fn digits_of(n: nat) -> Seq<u8>
    decreases n,
{
    if n < 10 {
        seq![digit_byte(n)]
    } else {
        digits_of(n / 10).push(digit_byte(n % 10))
    }
}

/// The canonical decimal form of `v`, with a leading `-` when negative.
pub open spec fn decimal(v: int) -> Seq<u8> {
    if v < 0 {
        seq![45u8] + digits_of((-v) as nat)
    } else {
        digits_of(v as nat)
    }
}

/// The number that a run of digits denotes (leading zeros allowed).
pub open spec fn value_of(s: Seq<u8>) -> nat
    decreases s.len(),
{
    if s.len() == 0 {
        0
    } else {
        value_of(s.drop_last()) * 10 + (s.last() - 48) as nat
    }
}

pub open spec fn all_digits(s: Seq<u8>) -> bool {
    forall|i: int| 0 <= i < s.len() ==> is_digit(#[trigger] s[i])
}

/// Length of the run of digits at the front of `s`.
pub open spec fn digit_run(s: Seq<u8>) -> nat
    decreases s.len(),
{
    if s.len() > 0 && is_digit(s[0]) {
        1 + digit_run(s.drop_first())
    } else {
        0
    }
}

pub open spec fn is_i64(v: int) -> bool {
    i64::MIN <= v <= i64::MAX
}

/// What `atoi::<i64>` reads from the front of `s`: an optional `+` or `-`,
/// then the longest run of digits. Nothing is read when neither a sign nor a
/// digit starts `s`, and a value outside `i64` is refused.
pub open spec fn leading_int(s: Seq<u8>) -> Option<int> {
    let k: int = if s.len() > 0 && (s[0] == 43u8 || s[0] == 45u8) {
        1
    } else {
        0
    };
    let body = s.subrange(k, s.len() as int);
    let n = digit_run(body);
    let mag = value_of(body.take(n as int)) as int;
    let v = if k == 1 && s[0] == 45u8 {
        -mag
    } else {
        mag
    };
    if k + n == 0 || !is_i64(v) {
        None
    } else {
        Some(v)
    }
}

/// Relies on `atoi::atoi::<i64>`: an optional sign, then the longest run of
/// ASCII digits, checked for overflow; `None` when nothing was read.
#[verifier::external_body]
pub(crate) fn atoi_i64(text: &[u8]) -> (r: Option<i64>)
    ensures
        match r {
            Some(v) => leading_int(text@) == Some(v as int),
            None => leading_int(text@) is None,
        },
{
    atoi::atoi::<i64>(text)
}

pub proof fn lemma_digits_of_shape(n: nat)
    ensures
        digits_of(n).len() >= 1,
        all_digits(digits_of(n)),
        n >= 10 ==> digits_of(n)[0] != 48u8,
        1 <= n < 10 ==> digits_of(n)[0] != 48u8,
        value_of(digits_of(n)) == n,
    decreases n,
{
    if n >= 10 {
        lemma_digits_of_shape(n / 10);
        let s = digits_of(n);
        assert(s.drop_last() =~= digits_of(n / 10));
        assert(s[0] == digits_of(n / 10)[0]);
        assert(n == (n / 10) * 10 + n % 10) by (nonlinear_arith);
        assert(value_of(s) == value_of(s.drop_last()) * 10 + (s.last() - 48) as nat);
    } else {
        let s = digits_of(n);
        assert(s.drop_last() =~= Seq::<u8>::empty());
        assert(value_of(s.drop_last()) == 0);
    }
}

proof fn lemma_value_positive(s: Seq<u8>)
    requires
        s.len() >= 1,
        all_digits(s),
        s[0] != 48u8,
    ensures
        value_of(s) >= 1,
    decreases s.len(),
{
    if s.len() > 1 {
        assert(s.drop_last()[0] == s[0]);
        lemma_value_positive(s.drop_last());
    }
}

/// A run of digits with no leading zero is the decimal form of its value.
pub proof fn lemma_canonical_digits(s: Seq<u8>)
    requires
        s.len() >= 1,
        all_digits(s),
        s.len() == 1 || s[0] != 48u8,
    ensures
        digits_of(value_of(s)) == s,
    decreases s.len(),
{
    if s.len() == 1 {
        assert(s.drop_last() =~= Seq::<u8>::empty());
        assert(value_of(s.drop_last()) == 0);
        assert(value_of(s) == (s[0] - 48) as nat);
        assert(digits_of(value_of(s)) =~= s);
    } else {
        let p = s.drop_last();
        assert(p[0] == s[0]);
        lemma_canonical_digits(p);
        lemma_value_positive(p);
        let n = value_of(s);
        let d = (s.last() - 48) as nat;
        assert(n / 10 == value_of(p) && n % 10 == d) by (nonlinear_arith)
            requires
                n == value_of(p) * 10 + d,
                d < 10,
        ;
        assert(digits_of(n) =~= p.push(s.last()));
        assert(p.push(s.last()) =~= s);
    }
}

proof fn lemma_digit_run_all(s: Seq<u8>)
    requires
        all_digits(s),
    ensures
        digit_run(s) == s.len(),
    decreases s.len(),
{
    if s.len() > 0 {
        lemma_digit_run_all(s.drop_first());
    }
}

/// The canonical form: an optional `-`, then digits with no leading zero
/// (a lone `0` aside), and no `-0`.
pub open spec fn is_canonical(s: Seq<u8>) -> bool {
    if s.len() > 0 && s[0] == 45u8 {
        let b = s.drop_first();
        b.len() >= 1 && all_digits(b) && b[0] != 48u8
    } else {
        s.len() >= 1 && all_digits(s) && (s.len() == 1 || s[0] != 48u8)
    }
}

pub proof fn lemma_decimal_canonical(v: int)
    ensures
        is_canonical(decimal(v)),
        leading_int(decimal(v)) == (if is_i64(v) {
            Some(v)
        } else {
            None::<int>
        }),
{
    let s = decimal(v);
    if v < 0 {
        let m = (-v) as nat;
        lemma_digits_of_shape(m);
        assert(s.drop_first() =~= digits_of(m));
        assert(s.subrange(1, s.len() as int) =~= digits_of(m));
        lemma_digit_run_all(digits_of(m));
        assert(digits_of(m).take(digits_of(m).len() as int) =~= digits_of(m));
    } else {
        lemma_digits_of_shape(v as nat);
        assert(s.subrange(0, s.len() as int) =~= s);
        lemma_digit_run_all(s);
        assert(s.take(s.len() as int) =~= s);
    }
}

/// A decimal form holds no line break, and tells its number apart.
pub proof fn lemma_decimal_facts(a: int, b: int)
    ensures
        decimal(a).len() >= 1,
        forall|i: int| 0 <= i < decimal(a).len() ==> #[trigger] decimal(a)[i] != 13u8 && decimal(a)[i] != 10u8,
        decimal(a)[0] == 45u8 <==> a < 0,
        decimal(a) == decimal(b) ==> a == b,
{
    if a < 0 {
        lemma_digits_of_shape((-a) as nat);
        assert forall|i: int| 1 <= i < decimal(a).len() implies #[trigger] decimal(a)[i] != 13u8 && decimal(a)[i] != 10u8 by {
            assert(decimal(a)[i] == digits_of((-a) as nat)[i - 1]);
        }
    } else {
        lemma_digits_of_shape(a as nat);
    }
    if b < 0 {
        lemma_digits_of_shape((-b) as nat);
    } else {
        lemma_digits_of_shape(b as nat);
    }
    if decimal(a) == decimal(b) {
        if a < 0 {
            assert(decimal(a).drop_first() =~= digits_of((-a) as nat));
            assert(decimal(b).drop_first() =~= digits_of((-b) as nat));
        }
    }
}

/// Reads the canonical decimal form of an `i64`; `None` for anything else.
pub fn parse_decimal(s: &[u8]) -> (r: Option<i64>)
    ensures
        match r {
            Some(v) => s@ == decimal(v as int),
            None => forall|v: i64| s@ != decimal(v as int),
        },
{
    let len = s.len();
    let neg = len > 0 && s[0] == 45u8;
    let start: usize = if neg {
        1
    } else {
        0
    };
    if start >= len {
        proof {
            assert forall|v: i64| s@ != decimal(v as int) by {
                lemma_decimal_canonical(v as int);
            }
        }
        return None;
    }
    let mut i: usize = start;
    while i < len
        invariant
            start <= i <= len,
            len == s@.len(),
            neg == (len > 0 && s@[0] == 45u8),
            start == (if neg {
                1usize
            } else {
                0usize
            }),
            forall|j: int| start <= j < i ==> is_digit(#[trigger] s@[j]),
        decreases len - i,
    {
        if s[i] < 48u8 || s[i] > 57u8 {
            proof {
                assert forall|v: i64| s@ != decimal(v as int) by {
                    lemma_decimal_canonical(v as int);
                    if s@ == decimal(v as int) {
                        if v < 0 {
                            lemma_digits_of_shape((-v) as nat);
                            assert(s@.drop_first()[i - 1] == s@[i as int]);
                        } else {
                            lemma_digits_of_shape(v as nat);
                        }
                    }
                }
            }
            return None;
        }
        i = i + 1;
    }
    if len - start > 1 && s[start] == 48u8 || neg && s[start] == 48u8 {
        proof {
            assert forall|v: i64| s@ != decimal(v as int) by {
                lemma_decimal_canonical(v as int);
                if s@ == decimal(v as int) && neg {
                    assert(s@.drop_first()[0] == s@[1]);
                }
            }
        }
        return None;
    }
    let r = atoi_i64(s);
    proof {
        let b = s@.subrange(start as int, len as int);
        assert(all_digits(b));
        lemma_digit_run_all(b);
        assert(b.take(b.len() as int) =~= b);
        assert(b[0] == s@[start as int]);
        lemma_canonical_digits(b);
        if neg {
            assert(s@ =~= seq![45u8] + b);
        } else {
            assert(s@ =~= b);
        }
        if r is None {
            assert forall|v: i64| s@ != decimal(v as int) by {
                lemma_decimal_canonical(v as int);
            }
        }
    }
    r
}

/// Appends the digits of `n`.
fn push_digits(dst: &mut Vec<u8>, n: u64)
    ensures
        final(dst)@ == old(dst)@ + digits_of(n as nat),
    decreases n,
{
    if n >= 10 {
        push_digits(dst, n / 10);
    }
    dst.push(48u8 + (n % 10) as u8);
    proof {
        if n >= 10 {
            assert(digits_of(n as nat) == digits_of((n / 10) as nat).push(digit_byte((n % 10) as nat)));
        }
    }
    assert(final(dst)@ =~= old(dst)@ + digits_of(n as nat)) by {
        if n < 10 {
            assert(digits_of(n as nat) =~= seq![digit_byte(n as nat)]);
        }
    }
}

proof fn lemma_digits_prefix(n: nat, k: int)
    requires
        1 <= k <= digits_of(n).len(),
    ensures
        exists|q: nat| q <= n && #[trigger] digits_of(q) == digits_of(n).take(k),
    decreases n,
{
    lemma_digits_of_shape(n);
    if k == digits_of(n).len() {
        assert(digits_of(n).take(k) =~= digits_of(n));
    } else {
        assert(n >= 10);
        lemma_digits_of_shape(n / 10);
        assert(digits_of(n).drop_last() =~= digits_of(n / 10));
        lemma_digits_prefix(n / 10, k);
        let q = choose|q: nat| q <= n / 10 && #[trigger] digits_of(q) == digits_of(n / 10).take(k);
        assert(digits_of(n / 10).take(k) =~= digits_of(n).take(k));
        assert(digits_of(q) == digits_of(n).take(k));
    }
}

/// A prefix of a canonical decimal, past a lone `-`, is the canonical
/// decimal of a number between it and zero.
pub proof fn lemma_decimal_prefix(m: int, k: int)
    requires
        is_i64(m),
        1 <= k <= decimal(m).len(),
        !(m < 0 && k == 1),
    ensures
        exists|m2: int|
            is_i64(m2) && (m >= 0 ==> 0 <= m2 <= m) && (m < 0 ==> m <= m2 <= -1) && #[trigger] decimal(m2)
                == decimal(m).take(k),
{
    if m >= 0 {
        lemma_digits_prefix(m as nat, k);
        let q = choose|q: nat| q <= m as nat && #[trigger] digits_of(q) == digits_of(m as nat).take(k);
        assert(decimal(q as int) == decimal(m).take(k));
    } else {
        let n = (-m) as nat;
        lemma_digits_of_shape(n);
        assert(decimal(m).drop_first() =~= digits_of(n));
        lemma_digits_prefix(n, k - 1);
        let q = choose|q: nat| q <= n && #[trigger] digits_of(q) == digits_of(n).take(k - 1);
        lemma_digits_of_shape(q);
        assert(digits_of(q)[0] == digits_of(n)[0]);
        if q == 0 {
            assert(digits_of(0) =~= seq![48u8]);
        }
        assert(decimal(-q) =~= seq![45u8] + digits_of(q));
        assert(decimal(m).take(k) =~= seq![45u8] + digits_of(n).take(k - 1));
        assert(decimal(-(q as int)) == decimal(m).take(k));
    }
}

/// Appends the canonical decimal form of `v`, then a line break.
pub fn write_decimal(dst: &mut Vec<u8>, v: i64)
    ensures
        final(dst)@ == old(dst)@ + decimal(v as int) + crlf(),
{
    if v < 0 {
        dst.push(45u8);
        let m: u64 = if v == i64::MIN {
            9223372036854775808u64
        } else {
            (-v) as u64
        };
        push_digits(dst, m);
    } else {
        push_digits(dst, v as u64);
    }
    dst.push(13u8);
    dst.push(10u8);
    assert(dst@ =~= old(dst)@ + decimal(v as int) + crlf());
}

/// Appends the decimal form of a length or a count, then a line break.
pub fn write_count(dst: &mut Vec<u8>, n: usize)
    ensures
        final(dst)@ == old(dst)@ + decimal(n as int) + crlf(),
{
    push_digits(dst, n as u64);
    dst.push(13u8);
    dst.push(10u8);
    assert(dst@ =~= old(dst)@ + decimal(n as int) + crlf());
}

} // verus!
