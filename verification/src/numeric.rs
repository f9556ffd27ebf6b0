//! Numeric interpretation of field values for the sort policy.
//!
//! A cell sorts numerically when it is a signed decimal literal — an
//! optional sign, then digits with at most one decimal point and at least
//! one digit, up to eighteen digits in all. Its value is modelled exactly
//! as the rational `mantissa / 10^scale` with a sign, and two values are
//! compared by cross-multiplying the mantissas with the opposite scales,
//! so no rounding enters the order.

use vstd::prelude::*;
use vstd::string::StrSliceExecFns;

verus! {

/// `c` is a decimal digit.
pub open spec fn is_digit_char(c: char) -> bool {
    ('0' as u32) <= (c as u32) && (c as u32) <= ('9' as u32)
}

/// The numeric value of a digit character.
pub open spec fn digit_val(c: char) -> nat {
    ((c as u32) - ('0' as u32)) as nat
}

/// Every character of `s` is a decimal digit.
pub open spec fn all_digits(s: Seq<char>) -> bool {
    forall|i: int| 0 <= i < s.len() ==> is_digit_char(s[i])
}

/// The natural number a digit sequence denotes, most significant first.
pub open spec fn digits_val(s: Seq<char>) -> nat
    decreases s.len(),
{
    if s.len() == 0 {
        0
    } else {
        digits_val(s.drop_last()) * 10 + digit_val(s.last())
    }
}

/// Ten to the power `e`.
pub open spec fn pow10(e: nat) -> nat
    decreases e,
{
    if e == 0 {
        1
    } else {
        10 * pow10((e - 1) as nat)
    }
}

/// A parsed decimal literal `(negative, mantissa, scale)`, denoting the
/// rational number `(-1)^negative * mantissa / 10^scale`.
///
/// `dec_parse(s)` is `Some` exactly when `s` is an optional `+` or `-`
/// followed by decimal digits with at most one `.` among them, at least one
/// digit and at most eighteen digits in all.
pub open spec fn dec_parse(s: Seq<char>) -> Option<(bool, nat, nat)> {
    let neg = s.len() > 0 && s[0] == '-';
    let t = if s.len() > 0 && (s[0] == '-' || s[0] == '+') {
        s.skip(1)
    } else {
        s
    };
    match t.index_of_first('.') {
        Some(p) => {
            let ds = t.take(p) + t.skip(p + 1);
            if 1 <= ds.len() <= 18 && all_digits(ds) {
                Some((neg, digits_val(ds), (t.len() - p - 1) as nat))
            } else {
                None
            }
        },
        None => {
            if 1 <= t.len() <= 18 && all_digits(t) {
                Some((neg, digits_val(t), 0))
            } else {
                None
            }
        },
    }
}

/// `s` denotes a decimal number under the sort policy.
pub open spec fn is_decimal(s: Seq<char>) -> bool {
    dec_parse(s) is Some
}

/// The signed numerator of `d` after widening its scale by `extra` digits.
pub open spec fn dec_scaled(d: (bool, nat, nat), extra: nat) -> int {
    if d.0 {
        -((d.1 * pow10(extra)) as int)
    } else {
        (d.1 * pow10(extra)) as int
    }
}

/// The value of `a` is at most the value of `b`: the two rationals
/// `±a.1 / 10^a.2` and `±b.1 / 10^b.2` compared by cross-multiplication.
pub open spec fn dec_le(a: (bool, nat, nat), b: (bool, nat, nat)) -> bool {
    dec_scaled(a, b.2) <= dec_scaled(b, a.2)
}

/// Comparing two decimals always orders them one way or the other.
pub proof fn lemma_dec_le_total(a: (bool, nat, nat), b: (bool, nat, nat))
    ensures
        dec_le(a, b) || dec_le(b, a),
{
}

proof fn lemma_mul_le_mono_right(x: int, y: int, p: int)
    by (nonlinear_arith)
    requires
        x <= y,
        0 <= p,
    ensures
        x * p <= y * p,
{
}

proof fn lemma_mul_le_cancel_right(x: int, y: int, p: int)
    by (nonlinear_arith)
    requires
        x * p <= y * p,
        0 < p,
    ensures
        x <= y,
{
}

proof fn lemma_mul_reassoc(x: int, p: int, q: int)
    by (nonlinear_arith)
    ensures
        (x * p) * q == (x * q) * p,
{
}

/// `pow10` is positive.
pub proof fn lemma_pow10_pos(e: nat)
    ensures
        pow10(e) >= 1,
    decreases e,
{
    if e > 0 {
        lemma_pow10_pos((e - 1) as nat);
    }
}

/// `pow10` is monotone in the exponent.
pub proof fn lemma_pow10_mono(x: nat, y: nat)
    requires
        x <= y,
    ensures
        pow10(x) <= pow10(y),
    decreases y,
{
    if x < y {
        lemma_pow10_mono(x, (y - 1) as nat);
        lemma_pow10_pos((y - 1) as nat);
    }
}

/// The signed numerator of `d` at its own scale, as `dec_scaled` with no
/// widening.
pub open spec fn dec_num(d: (bool, nat, nat)) -> int {
    if d.0 {
        -(d.1 as int)
    } else {
        d.1 as int
    }
}

proof fn lemma_dec_scaled_as_product(d: (bool, nat, nat), extra: nat)
    ensures
        dec_scaled(d, extra) == dec_num(d) * pow10(extra),
{
    assert(-((d.1 * pow10(extra)) as int) == (-(d.1 as int)) * (pow10(extra) as int))
        by (nonlinear_arith);
}

/// The decimal order is transitive.
pub proof fn lemma_dec_le_trans(a: (bool, nat, nat), b: (bool, nat, nat), c: (bool, nat, nat))
    requires
        dec_le(a, b),
        dec_le(b, c),
    ensures
        dec_le(a, c),
{
    let na = dec_num(a);
    let nb = dec_num(b);
    let nc = dec_num(c);
    let pa = pow10(a.2) as int;
    let pb = pow10(b.2) as int;
    let pc = pow10(c.2) as int;
    lemma_pow10_pos(a.2);
    lemma_pow10_pos(b.2);
    lemma_pow10_pos(c.2);
    lemma_dec_scaled_as_product(a, b.2);
    lemma_dec_scaled_as_product(b, a.2);
    lemma_dec_scaled_as_product(b, c.2);
    lemma_dec_scaled_as_product(c, b.2);
    lemma_dec_scaled_as_product(a, c.2);
    lemma_dec_scaled_as_product(c, a.2);
    // From dec_le(a, b): na * pb <= nb * pa; widen by pc.
    lemma_mul_le_mono_right(na * pb, nb * pa, pc);
    // From dec_le(b, c): nb * pc <= nc * pb; widen by pa.
    lemma_mul_le_mono_right(nb * pc, nc * pb, pa);
    lemma_mul_reassoc(nb, pa, pc);
    lemma_mul_reassoc(nc, pb, pa);
    assert((na * pb) * pc == (na * pc) * pb) by (nonlinear_arith);
    assert((nb * pc) * pa == (nb * pa) * pc) by (nonlinear_arith);
    assert((nc * pb) * pa == (nc * pa) * pb) by (nonlinear_arith);
    // Chain the two widened inequalities and cancel the shared factor pb.
    assert((na * pc) * pb <= (nc * pa) * pb);
    lemma_mul_le_cancel_right(na * pc, nc * pa, pb);
}

/// Digit sequences denote values below `10^length`.
pub proof fn lemma_digits_val_bound(s: Seq<char>)
    requires
        all_digits(s),
    ensures
        digits_val(s) < pow10(s.len() as nat),
    decreases s.len(),
{
    if s.len() > 0 {
        assert(all_digits(s.drop_last()));
        lemma_digits_val_bound(s.drop_last());
        assert(is_digit_char(s.last()));
        assert(digit_val(s.last()) <= 9);
    }
}

/// Concrete values of the powers of ten at the digit cap.
pub proof fn lemma_pow10_cap()
    ensures
        pow10(17) == 100_000_000_000_000_000,
        pow10(18) == 1_000_000_000_000_000_000,
{
    reveal_with_fuel(pow10, 20);
}

/// A parsed decimal has at most eighteen mantissa digits and scale.
pub proof fn lemma_dec_parse_bounds(s: Seq<char>)
    requires
        dec_parse(s) is Some,
    ensures
        dec_parse(s).unwrap().1 < pow10(18),
        dec_parse(s).unwrap().2 <= 18,
{
    let t = if s.len() > 0 && (s[0] == '-' || s[0] == '+') {
        s.skip(1)
    } else {
        s
    };
    t.index_of_first_ensures('.');
    match t.index_of_first('.') {
        Some(p) => {
            let ds = t.take(p) + t.skip(p + 1);
            lemma_digits_val_bound(ds);
            lemma_pow10_mono(ds.len() as nat, 18);
            assert(t.len() - p - 1 <= ds.len());
        },
        None => {
            lemma_digits_val_bound(t);
            lemma_pow10_mono(t.len() as nat, 18);
        },
    }
}

/// A sequence without a dot has no first dot.
proof fn lemma_no_dot(t: Seq<char>)
    requires
        forall|q: int| 0 <= q < t.len() ==> t[q] != '.',
    ensures
        t.index_of_first('.') is None,
{
    t.index_of_first_ensures('.');
    if t.index_of_first('.') is Some {
        let p = t.index_of_first('.').unwrap();
        assert(t[p] == '.');
    }
}

/// A dot at `p` with none before it is the first dot.
proof fn lemma_first_dot(t: Seq<char>, p: int)
    requires
        0 <= p < t.len(),
        t[p] == '.',
        forall|q: int| 0 <= q < p ==> t[q] != '.',
    ensures
        t.index_of_first('.') == Some(p),
{
    t.index_of_first_ensures('.');
    assert(t.contains('.')) by {
        assert(t[p] == '.');
    }
    let w = t.index_of_first('.').unwrap();
    assert(t[w] == '.');
    assert(w <= p);
    assert(p <= w) by {
        if w < p {
            assert(t[w] != '.');
        }
    }
}

/// Parse a string as a decimal literal of the sort policy: an optional
/// sign, then at most eighteen digits with at most one decimal point among
/// them and at least one digit. Returns the sign, mantissa and scale.
#[verifier::rlimit(60)]
pub fn parse_decimal(s: &str) -> (r: Option<(bool, u64, u32)>)
    ensures
        match r {
            Some(d) => dec_parse(s@) == Some((d.0, d.1 as nat, d.2 as nat)),
            None => dec_parse(s@) is None,
        },
{
    let n = s.unicode_len();
    let mut i: usize = 0;
    let mut neg = false;
    if n > 0 {
        let c0 = s.get_char(0);
        if c0 == '-' {
            neg = true;
            i = 1;
        } else if c0 == '+' {
            i = 1;
        }
    }
    let ghost t = s@.skip(i as int);
    proof {
        if i == 0 {
            assert(s@.skip(0) =~= s@);
        }
    }
    let mut j: usize = i;
    let mut mant: u64 = 0;
    let mut nd: usize = 0;
    let mut scale: u32 = 0;
    let mut seen_dot = false;
    let ghost mut ds: Seq<char> = Seq::empty();
    let ghost mut dotp: int = 0;
    while j < n
        invariant
            i <= j <= n,
            i <= 1,
            n == s@.len(),
            t == s@.skip(i as int),
            t.len() == n - i,
            neg == (s@.len() > 0 && s@[0] == '-'),
            (i == 1) == (s@.len() > 0 && (s@[0] == '-' || s@[0] == '+')),
            i == 0 ==> t == s@,
            !seen_dot ==> ds == t.take((j - i) as int) && scale == 0,
            !seen_dot ==> (forall|q: int| 0 <= q < j - i ==> t[q] != '.'),
            seen_dot ==> 0 <= dotp < j - i && t[dotp] == '.' && ds == t.take(dotp) + t.subrange(
                dotp + 1,
                (j - i) as int,
            ) && scale == j - i - 1 - dotp,
            seen_dot ==> (forall|q: int| 0 <= q < dotp ==> t[q] != '.'),
            seen_dot ==> (forall|q: int| dotp < q < j - i ==> t[q] != '.'),
            all_digits(ds),
            nd == ds.len(),
            nd <= 18,
            mant as nat == digits_val(ds),
            scale <= nd,
        decreases n - j,
    {
        let c = s.get_char(j);
        proof {
            assert(t[(j - i) as int] == s@[j as int]);
        }
        let ghost q = (j - i) as int;
        if c == '.' {
            if seen_dot {
                proof {
                    lemma_first_dot(t, dotp);
                    let sds = t.take(dotp) + t.skip(dotp + 1);
                    assert(sds[q - 1] == t[q]);
                    assert(!is_digit_char(sds[q - 1]));
                    assert(!all_digits(sds));
                }
                return None;
            }
            seen_dot = true;
            proof {
                dotp = q;
                assert(ds == t.take(q));
                assert(t.take(dotp) + t.subrange(dotp + 1, q + 1) =~= t.take(dotp));
            }
        } else {
            let cu = c as u32;
            if cu < ('0' as u32) || ('9' as u32) < cu {
                proof {
                    t.index_of_first_ensures('.');
                    assert(!is_digit_char(t[q]));
                    match t.index_of_first('.') {
                        Some(p) => {
                            let sds = t.take(p) + t.skip(p + 1);
                            assert(p != q);
                            if q < p {
                                assert(sds[q] == t[q]);
                                assert(!all_digits(sds));
                            } else {
                                assert(sds[q - 1] == t[q]);
                                assert(!all_digits(sds));
                            }
                        },
                        None => {
                            assert(!all_digits(t));
                        },
                    }
                }
                return None;
            }
            if nd == 18 {
                proof {
                    t.index_of_first_ensures('.');
                    match t.index_of_first('.') {
                        Some(p) => {
                            let sds = t.take(p) + t.skip(p + 1);
                            if seen_dot {
                                lemma_first_dot(t, dotp);
                                assert(q == 19);
                                assert(sds.len() >= 19);
                            } else {
                                assert(t[q] != '.');
                                assert(p > q) by {
                                    if p < q {
                                        assert(t[p] != '.');
                                    }
                                }
                                assert(sds.len() == t.len() - 1 >= q + 1);
                                assert(sds.len() >= 19);
                            }
                        },
                        None => {
                            assert(!seen_dot) by {
                                if seen_dot {
                                    assert(t.contains('.')) by {
                                        assert(t[dotp] == '.');
                                    }
                                }
                            }
                            assert(t.len() >= 19);
                        },
                    }
                }
                return None;
            }
            let d: u64 = (cu - '0' as u32) as u64;
            proof {
                lemma_digits_val_bound(ds);
                lemma_pow10_mono(nd as nat, 17);
                lemma_pow10_cap();
                assert(mant < 100_000_000_000_000_000);
                assert(ds.push(c).drop_last() =~= ds);
                assert(is_digit_char(c));
                assert(d as nat == digit_val(c));
            }
            mant = mant * 10 + d;
            nd += 1;
            if seen_dot {
                scale += 1;
            }
            proof {
                ds = ds.push(c);
                assert(mant as nat == digits_val(ds));
                if seen_dot {
                    assert(t.take(dotp) + t.subrange(dotp + 1, q + 1) =~= (t.take(dotp)
                        + t.subrange(dotp + 1, q)).push(t[q]));
                } else {
                    assert(t.take(q + 1) =~= t.take(q).push(t[q]));
                }
            }
        }
        j += 1;
    }
    if nd == 0 {
        proof {
            if seen_dot {
                lemma_first_dot(t, dotp);
                let sds = t.take(dotp) + t.skip(dotp + 1);
                assert(t.subrange(dotp + 1, t.len() as int) =~= t.skip(dotp + 1));
                assert(sds.len() == 0);
            } else {
                lemma_no_dot(t);
                assert(t.len() == 0);
            }
        }
        return None;
    }
    proof {
        if seen_dot {
            lemma_first_dot(t, dotp);
            assert(t.subrange(dotp + 1, t.len() as int) =~= t.skip(dotp + 1));
            assert(ds == t.take(dotp) + t.skip(dotp + 1));
            assert(scale as nat == (t.len() - dotp - 1) as nat);
        } else {
            lemma_no_dot(t);
            assert(t.take((n - i) as int) =~= t);
            assert(ds == t);
        }
    }
    Some((neg, mant, scale))
}

/// Ten to the power `e`, computed exactly.
pub fn pow10_exec(e: u32) -> (r: u128)
    requires
        e <= 18,
    ensures
        r as nat == pow10(e as nat),
{
    let mut r: u128 = 1;
    let mut k: u32 = 0;
    while k < e
        invariant
            k <= e,
            e <= 18,
            r as nat == pow10(k as nat),
        decreases e - k,
    {
        proof {
            lemma_pow10_mono(k as nat, 17);
            lemma_pow10_cap();
        }
        r = r * 10;
        k = k + 1;
    }
    r
}

proof fn lemma_cross_bound(x: nat, p: nat)
    by (nonlinear_arith)
    requires
        x < 1_000_000_000_000_000_000,
        p <= 1_000_000_000_000_000_000,
    ensures
        x * p < 1_000_000_000_000_000_000_000_000_000_000_000_000,
{
}

/// Compare two parsed decimals by value: cross-multiply the mantissas with
/// the opposite scales, then order by sign.
pub fn dec_le_exec(a: (bool, u64, u32), b: (bool, u64, u32)) -> (r: bool)
    requires
        a.1 < 1_000_000_000_000_000_000,
        b.1 < 1_000_000_000_000_000_000,
        a.2 <= 18,
        b.2 <= 18,
    ensures
        r == dec_le((a.0, a.1 as nat, a.2 as nat), (b.0, b.1 as nat, b.2 as nat)),
{
    let pa = pow10_exec(a.2);
    let pb = pow10_exec(b.2);
    proof {
        lemma_pow10_mono(a.2 as nat, 18);
        lemma_pow10_mono(b.2 as nat, 18);
        lemma_pow10_cap();
        lemma_cross_bound(a.1 as nat, pb as nat);
        lemma_cross_bound(b.1 as nat, pa as nat);
    }
    let xa: u128 = (a.1 as u128) * pb;
    let xb: u128 = (b.1 as u128) * pa;
    if a.0 {
        if b.0 {
            xb <= xa
        } else {
            true
        }
    } else {
        if b.0 {
            xa == 0 && xb == 0
        } else {
            xa <= xb
        }
    }
}

} // verus!
