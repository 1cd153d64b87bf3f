//! Canonical decimal numerals over byte sequences, and the exec routines
//! that print and scan them.
//!
//! A numeral is canonical when it has no leading zero (`0` itself is the one
//! numeral that starts with the zero digit) and, for signed values, when a
//! minus sign stands only before a nonzero magnitude. The codec emits only
//! canonical numerals and accepts nothing else.

use vstd::prelude::*;
use vstd::arithmetic::div_mod::lemma_basic_div;
use vstd::arithmetic::div_mod::lemma_fundamental_div_mod;
use vstd::arithmetic::div_mod::lemma_fundamental_div_mod_converse;
use vstd::arithmetic::div_mod::lemma_small_mod;

verus! {

/// The byte is an ASCII decimal digit.
pub open spec fn is_digit(b: u8) -> bool {
    48 <= b && b <= 57
}

/// `t` occurs in `s` at position `i`.
pub open spec fn has_at(s: Seq<u8>, i: int, t: Seq<u8>) -> bool {
    &&& 0 <= i
    &&& i + t.len() <= s.len()
    &&& s.subrange(i, i + t.len()) == t
}

pub proof fn lemma_has_at_index(s: Seq<u8>, i: int, t: Seq<u8>, k: int)
    requires
        has_at(s, i, t),
        0 <= k < t.len(),
    ensures
        s[i + k] == t[k],
{
    assert(s.subrange(i, i + t.len())[k] == s[i + k]);
}

/// An occurrence of a concatenation is an occurrence of each part.
pub proof fn lemma_has_at_split(s: Seq<u8>, i: int, a: Seq<u8>, b: Seq<u8>)
    requires
        has_at(s, i, a + b),
    ensures
        has_at(s, i, a),
        has_at(s, i + a.len(), b),
{
    assert forall|k: int| 0 <= k < a.len() implies s.subrange(i, i + a.len())[k] == a[k] by {
        lemma_has_at_index(s, i, a + b, k);
        assert((a + b)[k] == a[k]);
    }
    assert(s.subrange(i, i + a.len()) =~= a);
    assert forall|k: int| 0 <= k < b.len() implies s.subrange(
        i + a.len(),
        i + a.len() + b.len(),
    )[k] == b[k] by {
        lemma_has_at_index(s, i, a + b, a.len() + k);
        assert((a + b)[a.len() + k] == b[k]);
    }
    assert(s.subrange(i + a.len(), i + a.len() + b.len()) =~= b);
}

/// Adjacent occurrences of two parts give an occurrence of their concatenation.
pub proof fn lemma_has_at_join(s: Seq<u8>, i: int, a: Seq<u8>, b: Seq<u8>)
    requires
        has_at(s, i, a),
        has_at(s, i + a.len(), b),
    ensures
        has_at(s, i, a + b),
{
    assert forall|k: int| 0 <= k < a.len() implies s[i + k] == a[k] by {
        lemma_has_at_index(s, i, a, k);
    }
    assert forall|k: int| 0 <= k < b.len() implies s[i + a.len() + k] == b[k] by {
        lemma_has_at_index(s, i + a.len(), b, k);
    }
    assert(s.subrange(i, i + (a + b).len()) =~= a + b);
}

/// Decimal digits of `n`, most significant first; empty for zero.
pub open spec fn digits_rec(n: nat) -> Seq<u8>
    decreases n,
{
    if n == 0 {
        Seq::<u8>::empty()
    } else {
        digits_rec(n / 10) + seq![(48 + n % 10) as u8]
    }
}

/// Canonical decimal numeral of `n`: `0` for zero, no leading zero otherwise.
pub open spec fn digits(n: nat) -> Seq<u8> {
    if n == 0 {
        seq![48u8]
    } else {
        digits_rec(n)
    }
}

/// Canonical decimal numeral of a signed value: a minus sign before the
/// magnitude for negative values.
pub open spec fn digits_i(x: int) -> Seq<u8> {
    if x < 0 {
        seq![45u8] + digits((-x) as nat)
    } else {
        digits(x as nat)
    }
}

/// Numeric value of a digit string, most significant digit first.
pub open spec fn val_of(s: Seq<u8>) -> nat
    decreases s.len(),
{
    if s.len() == 0 {
        0
    } else {
        val_of(s.drop_last()) * 10 + (s.last() - 48) as nat
    }
}

pub proof fn lemma_digits_rec_shape(n: nat)
    ensures
        n == 0 ==> digits_rec(n).len() == 0,
        n > 0 ==> digits_rec(n).len() >= 1 && digits_rec(n)[0] != 48,
        forall|k: int| 0 <= k < digits_rec(n).len() ==> is_digit(#[trigger] digits_rec(n)[k]),
        val_of(digits_rec(n)) == n,
    decreases n,
{
    if n > 0 {
        lemma_digits_rec_shape(n / 10);
        lemma_fundamental_div_mod(n as int, 10);
        let p = digits_rec(n / 10);
        let d = (48 + n % 10) as u8;
        assert(digits_rec(n) == p + seq![d]);
        assert forall|k: int| 0 <= k < digits_rec(n).len() implies is_digit(
            digits_rec(n)[k],
        ) by {
            if k < p.len() {
                assert(digits_rec(n)[k] == p[k]);
            } else {
                assert(digits_rec(n)[k] == d);
            }
        }
        if n / 10 == 0 {
            assert(n % 10 == n);
            assert(digits_rec(n)[0] == d);
        } else {
            assert(digits_rec(n)[0] == p[0]);
        }
        assert(digits_rec(n).drop_last() =~= p);
        assert(digits_rec(n).last() == d);
        assert(val_of(digits_rec(n)) == val_of(p) * 10 + (d - 48) as nat);
    }
}

pub proof fn lemma_digits_shape(n: nat)
    ensures
        digits(n).len() >= 1,
        forall|k: int| 0 <= k < digits(n).len() ==> is_digit(#[trigger] digits(n)[k]),
        digits(n).len() > 1 ==> digits(n)[0] != 48,
        val_of(digits(n)) == n,
{
    lemma_digits_rec_shape(n);
    if n == 0 {
        assert(digits(0) == seq![48u8]);
        assert(digits(0).drop_last() =~= Seq::<u8>::empty());
        assert(val_of(digits(0)) == 0);
    }
}

/// Canonical numerals are the only digit strings with their value: a nonempty
/// all-digit string without a leading zero is the numeral of its value.
pub proof fn lemma_canonical_digits(s: Seq<u8>)
    requires
        s.len() >= 1,
        forall|k: int| 0 <= k < s.len() ==> is_digit(#[trigger] s[k]),
        s.len() > 1 ==> s[0] != 48,
    ensures
        s == digits(val_of(s)),
    decreases s.len(),
{
    if s.len() == 1 {
        let d = s[0];
        let v = (d - 48) as nat;
        assert(s.drop_last() =~= Seq::<u8>::empty());
        assert(val_of(Seq::<u8>::empty()) == 0);
        assert(val_of(s) == v);
        if v == 0 {
            assert(s =~= digits(0));
        } else {
            lemma_basic_div(v as int, 10);
            lemma_small_mod(v, 10);
            assert(digits_rec(v) == digits_rec(v / 10) + seq![(48 + v % 10) as u8]);
            assert(digits_rec(v / 10) =~= Seq::<u8>::empty());
            assert(s =~= digits_rec(v));
        }
    } else {
        let p = s.drop_last();
        let dv = (s.last() - 48) as nat;
        assert(p[0] == s[0]);
        lemma_canonical_digits(p);
        let m = val_of(p);
        lemma_digits_shape(m);
        if m == 0 {
            assert(p[0] == digits(0)[0]);
            assert(false);
        }
        let v = val_of(s);
        assert(v == m * 10 + dv);
        lemma_fundamental_div_mod_converse(v as int, 10, m as int, dv as int);
        assert(v / 10 == m && v % 10 == dv);
        assert(v >= 10) by {
            assert(m >= 1);
            assert(m * 10 >= 10) by (nonlinear_arith)
                requires m >= 1;
        }
        assert(digits_rec(v) == digits_rec(v / 10) + seq![(48 + v % 10) as u8]);
        assert(digits(v) == digits_rec(m) + seq![s.last()]);
        assert(digits_rec(m) == digits(m));
        assert(s =~= p + seq![s.last()]);
        assert(s == digits(v));
    }
}

/// The value of a digit string is at least the value of any of its prefixes.
pub proof fn lemma_val_prefix(s: Seq<u8>, k: int)
    requires
        0 <= k <= s.len(),
    ensures
        val_of(s.subrange(0, k)) <= val_of(s),
    decreases s.len() - k,
{
    if k == s.len() {
        assert(s.subrange(0, k) =~= s);
    } else {
        lemma_val_prefix(s, k + 1);
        let p = s.subrange(0, k);
        let q = s.subrange(0, k + 1);
        assert(q.drop_last() =~= p);
        assert(val_of(q) == val_of(p) * 10 + (q.last() - 48) as nat);
        assert(val_of(p) * 10 >= val_of(p)) by (nonlinear_arith);
    }
}

/// Two all-digit occurrences at one position, each followed by the sequence
/// end or by a non-digit, are the same string.
pub proof fn lemma_max_run(s: Seq<u8>, i: int, a: Seq<u8>, b: Seq<u8>)
    requires
        has_at(s, i, a),
        has_at(s, i, b),
        a.len() >= 1,
        b.len() >= 1,
        forall|k: int| 0 <= k < a.len() ==> is_digit(#[trigger] a[k]),
        forall|k: int| 0 <= k < b.len() ==> is_digit(#[trigger] b[k]),
        i + a.len() == s.len() || !is_digit(s[i + a.len()]),
        i + b.len() == s.len() || !is_digit(s[i + b.len()]),
    ensures
        a == b,
{
    if a.len() < b.len() {
        lemma_has_at_index(s, i, b, a.len() as int);
        assert(false);
    }
    if b.len() < a.len() {
        lemma_has_at_index(s, i, a, b.len() as int);
        assert(false);
    }
    assert forall|k: int| 0 <= k < a.len() implies a[k] == b[k] by {
        lemma_has_at_index(s, i, a, k);
        lemma_has_at_index(s, i, b, k);
    }
    assert(a =~= b);
}

/// The canonical numeral of `n` stands at `i`, followed by the sequence end
/// or by a non-digit, so that the numeral cannot be read as part of a longer
/// run of digits.
pub open spec fn nat_at(s: Seq<u8>, i: int, n: u32) -> bool {
    &&& has_at(s, i, digits(n as nat))
    &&& (i + digits(n as nat).len() == s.len() || !is_digit(s[i + digits(n as nat).len()]))
}

/// The canonical signed numeral of `x` stands at `i`, followed by the
/// sequence end or by a non-digit.
pub open spec fn int_at(s: Seq<u8>, i: int, x: i32) -> bool {
    &&& has_at(s, i, digits_i(x as int))
    &&& (i + digits_i(x as int).len() == s.len() || !is_digit(s[i + digits_i(x as int).len()]))
}

pub proof fn lemma_nat_at_unique(s: Seq<u8>, i: int, n1: u32, n2: u32)
    requires
        nat_at(s, i, n1),
        nat_at(s, i, n2),
    ensures
        n1 == n2,
{
    lemma_digits_shape(n1 as nat);
    lemma_digits_shape(n2 as nat);
    lemma_max_run(s, i, digits(n1 as nat), digits(n2 as nat));
}

/// Appends the digits of `n` without a leading zero; nothing for zero.
#[verifier::loop_isolation(false)]
pub(crate) fn push_digits_rec(n: u32, out: &mut Vec<u8>)
    ensures
        final(out)@ == old(out)@ + digits_rec(n as nat),
    decreases n,
{
    if n == 0 {
        assert(out@ =~= old(out)@ + digits_rec(0));
    } else {
        push_digits_rec(n / 10, out);
        out.push(48 + (n % 10) as u8);
        assert(out@ =~= old(out)@ + digits_rec(n as nat));
    }
}

/// Appends the canonical decimal numeral of `n`.
pub(crate) fn push_u32(n: u32, out: &mut Vec<u8>)
    ensures
        final(out)@ == old(out)@ + digits(n as nat),
{
    if n == 0 {
        out.push(48);
        assert(out@ =~= old(out)@ + digits(0));
    } else {
        push_digits_rec(n, out);
    }
}

/// Appends the canonical signed decimal numeral of `x`.
pub(crate) fn push_i32(x: i32, out: &mut Vec<u8>)
    ensures
        final(out)@ == old(out)@ + digits_i(x as int),
{
    if x < 0 {
        out.push(45);
        let m: u32 = (-(x as i64)) as u32;
        assert(m as nat == (-(x as int)) as nat);
        push_u32(m, out);
        assert(out@ =~= old(out)@ + digits_i(x as int));
    } else {
        push_u32(x as u32, out);
        assert(x as u32 as nat == x as int as nat);
    }
}

fn digit_run_end(bytes: &[u8], i: usize) -> (j: usize)
    requires
        i <= bytes@.len(),
    ensures
        i <= j <= bytes@.len(),
        forall|k: int| i <= k < j ==> is_digit(#[trigger] bytes@[k]),
        j == bytes@.len() || !is_digit(bytes@[j as int]),
{
    let len: usize = bytes.len();
    let mut j: usize = i;
    while j < len && 48 <= bytes[j] && bytes[j] <= 57
        invariant
            i <= j <= len,
            len == bytes@.len(),
            forall|k: int| i <= k < j ==> is_digit(#[trigger] bytes@[k]),
        decreases len - j,
    {
        j = j + 1;
    }
    j
}

/// Reads the canonical numeral of a 32-bit unsigned value at `i`, rejecting
/// leading zeros, values out of range, and positions with no digit at all.
#[verifier::loop_isolation(false)]
pub(crate) fn scan_u32(bytes: &[u8], i: usize) -> (r: Option<(u32, usize)>)
    requires
        i <= bytes@.len(),
    ensures
        match r {
            Some(p) => {
                &&& i < p.1 <= bytes@.len()
                &&& p.1 == i + digits(p.0 as nat).len()
                &&& nat_at(bytes@, i as int, p.0)
                &&& forall|n2: u32| nat_at(bytes@, i as int, n2) ==> n2 == p.0
            },
            None => forall|n2: u32| !nat_at(bytes@, i as int, n2),
        },
{
    let j = digit_run_end(bytes, i);
    if j == i {
        proof {
            assert forall|n2: u32| !nat_at(bytes@, i as int, n2) by {
                if nat_at(bytes@, i as int, n2) {
                    lemma_digits_shape(n2 as nat);
                    lemma_has_at_index(bytes@, i as int, digits(n2 as nat), 0);
                }
            }
        }
        return None;
    }
    let ghost run = bytes@.subrange(i as int, j as int);
    proof {
        assert(run.len() >= 1);
        assert forall|k: int| 0 <= k < run.len() implies is_digit(#[trigger] run[k]) by {
            assert(run[k] == bytes@[i + k]);
        }
        assert(has_at(bytes@, i as int, run)) by {
            assert(bytes@.subrange(i as int, i + run.len()) =~= run);
        }
    }
    if bytes[i] == 48 && j > i + 1 {
        proof {
            assert forall|n2: u32| !nat_at(bytes@, i as int, n2) by {
                if nat_at(bytes@, i as int, n2) {
                    lemma_digits_shape(n2 as nat);
                    lemma_max_run(bytes@, i as int, run, digits(n2 as nat));
                    assert(run[0] == bytes@[i as int]);
                }
            }
        }
        return None;
    }
    let mut acc: u64 = 0;
    let mut k: usize = i;
    while k < j
        invariant
            i <= k <= j,
            acc <= 0xFFFF_FFFF,
            acc as nat == val_of(bytes@.subrange(i as int, k as int)),
        decreases j - k,
    {
        let d: u8 = bytes[k] - 48;
        let acc2: u64 = acc * 10 + (d as u64);
        proof {
            let q = bytes@.subrange(i as int, k as int + 1);
            assert(q.drop_last() =~= bytes@.subrange(i as int, k as int));
            assert(q.last() == bytes@[k as int]);
            assert(acc2 as nat == val_of(q));
        }
        if acc2 > 0xFFFF_FFFF {
            proof {
                assert forall|n2: u32| !nat_at(bytes@, i as int, n2) by {
                    if nat_at(bytes@, i as int, n2) {
                        lemma_digits_shape(n2 as nat);
                        lemma_max_run(bytes@, i as int, run, digits(n2 as nat));
                        let q = bytes@.subrange(i as int, k as int + 1);
                        assert(q =~= run.subrange(0, k + 1 - i));
                        lemma_val_prefix(run, k + 1 - i);
                        assert(val_of(run) == n2 as nat);
                    }
                }
            }
            return None;
        }
        acc = acc2;
        k = k + 1;
    }
    let n: u32 = acc as u32;
    proof {
        assert(acc as nat == val_of(run));
        if run.len() > 1 {
            assert(run[0] == bytes@[i as int]);
            assert(run[0] != 48);
        }
        lemma_canonical_digits(run);
        assert(run == digits(n as nat));
        assert(nat_at(bytes@, i as int, n));
        assert forall|n2: u32| nat_at(bytes@, i as int, n2) implies n2 == n by {
            lemma_nat_at_unique(bytes@, i as int, n2, n);
        }
    }
    Some((n, j))
}

/// Reads the canonical signed numeral of a 32-bit value at `i`, rejecting a
/// minus sign before zero, values out of range, and a missing magnitude.
pub(crate) fn parse_i32(bytes: &[u8], i: usize) -> (r: Option<(i32, usize)>)
    requires
        i <= bytes@.len(),
    ensures
        match r {
            Some(p) => {
                &&& i < p.1 <= bytes@.len()
                &&& p.1 == i + digits_i(p.0 as int).len()
                &&& int_at(bytes@, i as int, p.0)
                &&& forall|x2: i32| int_at(bytes@, i as int, x2) ==> x2 == p.0
            },
            None => forall|x2: i32| !int_at(bytes@, i as int, x2),
        },
{
    if i < bytes.len() && bytes[i] == 45 {
        match scan_u32(bytes, i + 1) {
            Some((m, j)) => {
                if m == 0 || m > 0x8000_0000 {
                    proof {
                        assert forall|x2: i32| !int_at(bytes@, i as int, x2) by {
                            if int_at(bytes@, i as int, x2) {
                                lemma_int_at_neg(bytes@, i as int, x2);
                            }
                        }
                    }
                    None
                } else {
                    let x: i32 = if m == 0x8000_0000 {
                        i32::MIN
                    } else {
                        -(m as i32)
                    };
                    proof {
                        assert((-(x as int)) as nat == m as nat);
                        lemma_digits_shape(m as nat);
                        assert(digits_i(x as int) == seq![45u8] + digits(m as nat));
                        assert(has_at(bytes@, i as int, seq![45u8])) by {
                            assert(bytes@.subrange(i as int, i + 1) =~= seq![45u8]);
                        }
                        lemma_has_at_join(
                            bytes@,
                            i as int,
                            seq![45u8],
                            digits(m as nat),
                        );
                        assert(int_at(bytes@, i as int, x));
                        assert forall|x2: i32| int_at(bytes@, i as int, x2) implies x2 == x by {
                            lemma_int_at_neg(bytes@, i as int, x2);
                            lemma_nat_at_unique(
                                bytes@,
                                i as int + 1,
                                ((-(x2 as int)) as nat) as u32,
                                m,
                            );
                        }
                    }
                    Some((x, j))
                }
            },
            None => {
                proof {
                    assert forall|x2: i32| !int_at(bytes@, i as int, x2) by {
                        if int_at(bytes@, i as int, x2) {
                            lemma_int_at_neg(bytes@, i as int, x2);
                        }
                    }
                }
                None
            },
        }
    } else {
        match scan_u32(bytes, i) {
            Some((m, j)) => {
                if m > 0x7FFF_FFFF {
                    proof {
                        assert forall|x2: i32| !int_at(bytes@, i as int, x2) by {
                            if int_at(bytes@, i as int, x2) {
                                lemma_int_at_pos(bytes@, i as int, x2);
                            }
                        }
                    }
                    None
                } else {
                    let x: i32 = m as i32;
                    proof {
                        assert(digits_i(x as int) == digits(m as nat));
                        assert(int_at(bytes@, i as int, x));
                        assert forall|x2: i32| int_at(bytes@, i as int, x2) implies x2 == x by {
                            lemma_int_at_pos(bytes@, i as int, x2);
                            lemma_nat_at_unique(bytes@, i as int, (x2 as int as nat) as u32, m);
                        }
                    }
                    Some((x, j))
                }
            },
            None => {
                proof {
                    assert forall|x2: i32| !int_at(bytes@, i as int, x2) by {
                        if int_at(bytes@, i as int, x2) {
                            lemma_int_at_pos(bytes@, i as int, x2);
                        }
                    }
                }
                None
            },
        }
    }
}

/// At one position, at most one signed value has its canonical numeral.
pub proof fn lemma_int_at_unique(s: Seq<u8>, i: int, x1: i32, x2: i32)
    requires
        int_at(s, i, x1),
        int_at(s, i, x2),
    ensures
        x1 == x2,
{
    lemma_digits_shape((x1 as int) as nat);
    lemma_digits_shape((x2 as int) as nat);
    lemma_digits_shape((-(x1 as int)) as nat);
    lemma_digits_shape((-(x2 as int)) as nat);
    if x1 < 0 && x2 < 0 {
        let m1 = (-(x1 as int)) as nat;
        let m2 = (-(x2 as int)) as nat;
        assert(digits_i(x1 as int) == seq![45u8] + digits(m1));
        assert(digits_i(x2 as int) == seq![45u8] + digits(m2));
        lemma_has_at_split(s, i, seq![45u8], digits(m1));
        lemma_has_at_split(s, i, seq![45u8], digits(m2));
        assert(nat_at(s, i + 1, m1 as u32));
        assert(nat_at(s, i + 1, m2 as u32));
        lemma_nat_at_unique(s, i + 1, m1 as u32, m2 as u32);
    } else if x1 >= 0 && x2 >= 0 {
        assert(nat_at(s, i, (x1 as int as nat) as u32));
        assert(nat_at(s, i, (x2 as int as nat) as u32));
        lemma_nat_at_unique(s, i, (x1 as int as nat) as u32, (x2 as int as nat) as u32);
    } else {
        let xn: i32 = if x1 < 0 { x1 } else { x2 };
        let xp: i32 = if x1 < 0 { x2 } else { x1 };
        assert(digits_i(xn as int) == seq![45u8] + digits((-(xn as int)) as nat));
        lemma_has_at_index(s, i, digits_i(xn as int), 0);
        lemma_has_at_index(s, i, digits_i(xp as int), 0);
        assert(is_digit(digits_i(xp as int)[0]));
        assert(false);
    }
}

/// At a position holding a minus sign, only a negative value can stand, and
/// its magnitude stands right after the sign.
proof fn lemma_int_at_neg(s: Seq<u8>, i: int, x: i32)
    requires
        int_at(s, i, x),
        i < s.len(),
        s[i] == 45,
    ensures
        x < 0,
        1 <= (-(x as int)) <= 0x8000_0000,
        nat_at(s, i + 1, ((-(x as int)) as nat) as u32),
{
    if x >= 0 {
        lemma_digits_shape(x as int as nat);
        lemma_has_at_index(s, i, digits_i(x as int), 0);
        assert(is_digit(s[i]));
        assert(false);
    }
    let m = (-(x as int)) as nat;
    lemma_digits_shape(m);
    assert(digits_i(x as int) == seq![45u8] + digits(m));
    lemma_has_at_split(s, i, seq![45u8], digits(m));
    assert(m as u32 as nat == m);
    assert(nat_at(s, i + 1, m as u32));
}

/// At a position holding a digit (no sign), only a nonnegative value can
/// stand, and its numeral starts at that very position.
proof fn lemma_int_at_pos(s: Seq<u8>, i: int, x: i32)
    requires
        int_at(s, i, x),
        i == s.len() || s[i] != 45,
    ensures
        x >= 0,
        x <= 0x7FFF_FFFF,
        nat_at(s, i, (x as int as nat) as u32),
{
    if x < 0 {
        let m = (-(x as int)) as nat;
        assert(digits_i(x as int) == seq![45u8] + digits(m));
        lemma_has_at_index(s, i, digits_i(x as int), 0);
        assert(digits_i(x as int)[0] == 45);
        assert(false);
    }
    assert(digits_i(x as int) == digits(x as int as nat));
    assert(nat_at(s, i, (x as int as nat) as u32));
}

} // verus!
