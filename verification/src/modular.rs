//! Modular arithmetic on 256-bit operands: sum, difference, product,
//! remainder, power and inverse, each against an arbitrary non-zero modulus.

use crate::bignum::{limb_base, word_space, U256};
use vstd::arithmetic::div_mod::*;
use vstd::arithmetic::power2::*;
use vstd::prelude::*;

verus! {

/// 2^256 is the number of 256-bit values.
proof fn lemma_pow2_word()
    ensures
        pow2(256) == word_space(),
{
    lemma2_to64();
    lemma_pow2_adds(64, 64);
    lemma_pow2_adds(128, 128);
    assert(pow2(64) == 0x1_0000_0000_0000_0000);
    assert(pow2(128) == pow2(64) * pow2(64));
    assert(0x1_0000_0000_0000_0000nat * 0x1_0000_0000_0000_0000nat == limb_base());
    assert(pow2(128) == limb_base());
    assert(pow2(256) == pow2(128) * pow2(128));
    assert(0x1_0000_0000_0000_0000_0000_0000_0000_0000nat
        * 0x1_0000_0000_0000_0000_0000_0000_0000_0000nat == word_space());
}

/// One step of reading a number bit by bit from the top: `x * 2^i` is the
/// bits read so far, above the bits still to come.
proof fn lemma_scan_step(x: nat, i: nat, c: nat, rest: nat, bit: bool, next: nat)
    requires
        x * pow2(i) == c * word_space() + rest,
        2 * rest == (if bit { word_space() } else { 0 }) + next,
    ensures
        x * pow2(i + 1) == (2 * c + (if bit { 1nat } else { 0nat })) * word_space() + next,
{
    lemma_pow2_unfold(i + 1);
    let w = word_space();
    let p = pow2(i);
    assert(x * (2 * p) == 2 * (x * p)) by (nonlinear_arith);
    assert((2 * c + 1) * w == 2 * (c * w) + w) by (nonlinear_arith);
    assert((2 * c + 0) * w == 2 * (c * w)) by (nonlinear_arith);
}

/// After 256 steps every bit has been read.
proof fn lemma_scan_done(x: nat, c: nat, rest: nat)
    requires
        x * pow2(256) == c * word_space() + rest,
        rest < word_space(),
        x < word_space(),
    ensures
        c == x,
{
    lemma_pow2_word();
    let w = word_space();
    assert(c == x) by (nonlinear_arith)
        requires
            x * w == c * w + rest,
            rest < w,
            w > 0,
    ;
}

/// `(2 * r) mod m`, for a reduced `r`.
fn double_reduced(r: &U256, m: &U256) -> (d: U256)
    requires
        r.val() < m.val(),
    ensures
        d.val() == (2 * r.val()) % m.val(),
{
    let gap = m.minus(r);
    if r.ge(&gap) {
        let d = r.minus(&gap);
        proof {
            lemma_fundamental_div_mod_converse(
                (2 * r.val()) as int,
                m.val() as int,
                1,
                d.val() as int,
            );
        }
        d
    } else {
        proof {
            lemma_small_mod(2 * r.val(), m.val());
        }
        r.plus(r)
    }
}

/// `(a + b) mod m`, for reduced `a` and `b`.
fn add_reduced(a: &U256, b: &U256, m: &U256) -> (d: U256)
    requires
        a.val() < m.val(),
        b.val() < m.val(),
    ensures
        d.val() == (a.val() + b.val()) % m.val(),
{
    let gap = m.minus(b);
    if a.ge(&gap) {
        let d = a.minus(&gap);
        proof {
            lemma_fundamental_div_mod_converse(
                (a.val() + b.val()) as int,
                m.val() as int,
                1,
                d.val() as int,
            );
        }
        d
    } else {
        proof {
            lemma_small_mod(a.val() + b.val(), m.val());
        }
        a.plus(b)
    }
}

/// `(a - b) mod m`, for reduced `a` and `b`: the least residue that is not
/// negative.
fn sub_reduced(a: &U256, b: &U256, m: &U256) -> (d: U256)
    requires
        a.val() < m.val(),
        b.val() < m.val(),
    ensures
        d.val() as int == (a.val() as int - b.val() as int) % (m.val() as int),
{
    if a.ge(b) {
        let d = a.minus(b);
        proof {
            lemma_small_mod(d.val(), m.val());
        }
        d
    } else {
        let gap = b.minus(a);
        let d = m.minus(&gap);
        proof {
            lemma_fundamental_div_mod_converse(
                a.val() as int - b.val() as int,
                m.val() as int,
                -1,
                d.val() as int,
            );
        }
        d
    }
}

/// One step of long division: the quotient takes the bit `qb`, the
/// remainder what is left of `2 * r + bit`.
proof fn lemma_div_step(c: nat, q: nat, r: nat, m: nat, bit: nat, qb: nat, q2: nat, r2: nat)
    requires
        c == q * m + r,
        2 * r + bit == qb * m + r2,
        q2 == 2 * q + qb,
    ensures
        2 * c + bit == q2 * m + r2,
{
    assert((2 * q + qb) * m == 2 * (q * m) + qb * m) by (nonlinear_arith);
}

/// A quotient is at most its dividend.
proof fn lemma_quotient_bound(c: nat, q: nat, r: nat, m: nat)
    requires
        c == q * m + r,
        m > 0,
    ensures
        q <= c,
{
    assert(q <= q * m) by (nonlinear_arith)
        requires
            m > 0,
    ;
}

/// Quotient and remainder of `a` by `m`.
pub fn div_rem(a: &U256, m: &U256) -> (qr: (U256, U256))
    requires
        m.val() > 0,
    ensures
        qr.0.val() == a.val() / m.val(),
        qr.1.val() == a.val() % m.val(),
{
    let one = U256::one();
    let mut q = U256::zero();
    let mut r = U256::zero();
    let mut rest = *a;
    let ghost mut c: nat = 0;
    let mut i: usize = 0;
    proof {
        lemma2_to64();
        assert(a.val() * 1 == a.val());
        assert(0 * word_space() == 0);
        assert(0 * m.val() == 0);
    }
    while i < 256
        invariant
            i <= 256,
            m.val() > 0,
            one.val() == 1,
            a.val() * pow2(i as nat) == c * word_space() + rest.val(),
            c < pow2(i as nat),
            c == q.val() * m.val() + r.val(),
            r.val() < m.val(),
        decreases 256 - i,
    {
        proof {
            lemma_quotient_bound(c, q.val(), r.val(), m.val());
            lemma_pow2_unfold((i + 1) as nat);
            if i + 1 < 256 {
                lemma_pow2_strictly_increases((i + 1) as nat, 256);
            }
            lemma_pow2_word();
        }
        let ghost q0 = q.val();
        let ghost r0 = r.val();
        let (bit, next) = rest.split_top();
        let gap = m.minus(&r);
        let mut qb = false;
        if r.ge(&gap) {
            qb = true;
            r = r.minus(&gap);
            if bit {
                r = r.plus(&one);
            }
        } else {
            r = r.plus(&r);
            if bit {
                let left = m.minus(&r);
                if left.same(&one) {
                    qb = true;
                    r = U256::zero();
                } else {
                    r = r.plus(&one);
                }
            }
        }
        q = q.split_top().1;
        if qb {
            q = q.plus(&one);
        }
        proof {
            let bv = if bit { 1nat } else { 0nat };
            let qv = if qb { 1nat } else { 0nat };
            assert(qv * m.val() == if qb { m.val() } else { 0 }) by (nonlinear_arith)
                requires
                    qv == (if qb { 1nat } else { 0nat }),
            ;
            lemma_scan_step(a.val(), i as nat, c, rest.val(), bit, next.val());
            lemma_div_step(c, q0, r0, m.val(), bv, qv, q.val(), r.val());
            c = 2 * c + bv;
        }
        rest = next;
        i += 1;
    }
    proof {
        lemma_scan_done(a.val(), c, rest.val());
        lemma_fundamental_div_mod_converse(
            a.val() as int,
            m.val() as int,
            q.val() as int,
            r.val() as int,
        );
    }
    (q, r)
}

/// `a mod m`.
pub fn reduce(a: &U256, m: &U256) -> (r: U256)
    requires
        m.val() > 0,
    ensures
        r.val() == a.val() % m.val(),
{
    div_rem(a, m).1
}

/// `(a + b) mod m`.
pub fn add_mod(a: &U256, b: &U256, m: &U256) -> (d: U256)
    requires
        m.val() > 0,
    ensures
        d.val() == (a.val() + b.val()) % m.val(),
{
    let x = reduce(a, m);
    let y = reduce(b, m);
    proof {
        lemma_mod_bound(a.val() as int, m.val() as int);
        lemma_mod_bound(b.val() as int, m.val() as int);
        lemma_add_mod_noop(a.val() as int, b.val() as int, m.val() as int);
    }
    add_reduced(&x, &y, m)
}

/// `(a - b) mod m`: the least residue that is not negative.
pub fn sub_mod(a: &U256, b: &U256, m: &U256) -> (d: U256)
    requires
        m.val() > 0,
    ensures
        d.val() as int == (a.val() as int - b.val() as int) % (m.val() as int),
{
    let x = reduce(a, m);
    let y = reduce(b, m);
    proof {
        lemma_mod_bound(a.val() as int, m.val() as int);
        lemma_mod_bound(b.val() as int, m.val() as int);
        lemma_sub_mod_noop(a.val() as int, b.val() as int, m.val() as int);
    }
    sub_reduced(&x, &y, m)
}

/// One step of multiplying bit by bit: double, then add `a` where the bit
/// is set.
proof fn lemma_mul_step(a: nat, c: nat, bit: bool, m: nat, am: nat, r0: nat, d: nat, r: nat)
    requires
        m > 0,
        am == a % m,
        r0 == (a * c) % m,
        d == (2 * r0) % m,
        r == (if bit { (d + am) % m } else { d }),
    ensures
        r == (a * (2 * c + (if bit { 1nat } else { 0nat }))) % m,
{
    lemma_mul_mod_noop_right(2, (a * c) as int, m as int);
    assert(a * (2 * c) == 2 * (a * c)) by (nonlinear_arith);
    assert(a * (2 * c + 1) == 2 * (a * c) + a) by (nonlinear_arith);
    if bit {
        lemma_add_mod_noop((2 * (a * c)) as int, a as int, m as int);
    }
}

/// `(a * b) mod m`.
pub fn mul_mod(a: &U256, b: &U256, m: &U256) -> (r: U256)
    requires
        m.val() > 0,
    ensures
        r.val() == (a.val() * b.val()) % m.val(),
{
    let am = reduce(a, m);
    let mut r = U256::zero();
    let mut rest = *b;
    let ghost mut c: nat = 0;
    let mut i: usize = 0;
    proof {
        lemma2_to64();
        lemma_small_mod(0, m.val());
        assert(b.val() * 1 == b.val());
        assert(0 * word_space() == 0);
        assert(a.val() * 0 == 0);
        lemma_mod_bound(a.val() as int, m.val() as int);
    }
    while i < 256
        invariant
            i <= 256,
            m.val() > 0,
            am.val() == a.val() % m.val(),
            am.val() < m.val(),
            b.val() * pow2(i as nat) == c * word_space() + rest.val(),
            r.val() == (a.val() * c) % m.val(),
        decreases 256 - i,
    {
        proof {
            lemma_mod_bound((a.val() * c) as int, m.val() as int);
        }
        let (bit, next) = rest.split_top();
        let d = double_reduced(&r, m);
        let ghost r0 = r.val();
        proof {
            lemma_mod_bound((2 * r0) as int, m.val() as int);
        }
        if bit {
            r = add_reduced(&d, &am, m);
        } else {
            r = d;
        }
        proof {
            lemma_scan_step(b.val(), i as nat, c, rest.val(), bit, next.val());
            lemma_mul_step(a.val(), c, bit, m.val(), am.val(), r0, d.val(), r.val());
            c = 2 * c + (if bit { 1nat } else { 0nat });
        }
        rest = next;
        i += 1;
    }
    proof {
        lemma_scan_done(b.val(), c, rest.val());
    }
    r
}

/// The greatest common divisor, by Euclid's rule.
pub open spec fn gcd(a: nat, b: nat) -> nat
    decreases b,
{
    if b == 0 {
        a
    } else {
        gcd(b, a % b)
    }
}

/// The greatest common divisor divides both numbers.
pub proof fn lemma_gcd_divides(a: nat, b: nat)
    requires
        a > 0 || b > 0,
    ensures
        gcd(a, b) > 0,
        a % gcd(a, b) == 0,
        b % gcd(a, b) == 0,
    decreases b,
{
    if b == 0 {
        lemma_mod_self_0(a as int);
        lemma_small_mod(0, a);
    } else {
        let r = a % b;
        let q = a / b;
        lemma_mod_bound(a as int, b as int);
        lemma_gcd_divides(b, r);
        let g = gcd(b, r);
        lemma_fundamental_div_mod(a as int, b as int);
        lemma_mul_mod_noop_left(b as int, q as int, g as int);
        assert(0 * q == 0);
        lemma_small_mod(0, g);
        lemma_add_mod_noop((b * q) as int, r as int, g as int);
    }
}

/// A number with an inverse modulo `m` has no divisor in common with `m`.
pub proof fn lemma_inverse_needs_coprime(a: nat, r: nat, m: nat)
    requires
        m > 1,
        (a * r) % m == 1,
    ensures
        gcd(m, a % m) == 1,
{
    let a1 = a % m;
    let g = gcd(m, a1);
    lemma_gcd_divides(m, a1);
    lemma_mul_mod_noop_left(a as int, r as int, m as int);
    let k = (a1 * r) / m;
    lemma_fundamental_div_mod((a1 * r) as int, m as int);
    lemma_mul_mod_noop_left(a1 as int, r as int, g as int);
    lemma_mul_mod_noop_left(m as int, k as int, g as int);
    assert(0 * r == 0 && 0 * k == 0);
    lemma_small_mod(0, g);
    lemma_add_mod_noop((m * k) as int, 1, g as int);
    lemma_mod_twice(1, g as int);
    if g > 1 {
        lemma_small_mod(1, g);
    }
}

/// Cofactors of the greatest common divisor: integers `x` and `y` with
/// `x * a + y * b == gcd(a, b)`.
pub proof fn lemma_gcd_cofactors(a: nat, b: nat) -> (xy: (int, int))
    ensures
        xy.0 * a + xy.1 * b == gcd(a, b),
    decreases b,
{
    if b == 0 {
        (1, 0)
    } else {
        let r = a % b;
        let q = a / b;
        lemma_mod_bound(a as int, b as int);
        lemma_fundamental_div_mod(a as int, b as int);
        let (x1, y1) = lemma_gcd_cofactors(b, r);
        let (ai, bi, qi, ri) = (a as int, b as int, q as int, r as int);
        assert(y1 * ai + (x1 - y1 * qi) * bi == x1 * bi + y1 * (ai - bi * qi))
            by (nonlinear_arith);
        assert(ri == ai - bi * qi);
        (y1, x1 - y1 * qi)
    }
}

/// A number without a divisor in common with `m` has an inverse modulo
/// `m`, which is handed out.
pub proof fn lemma_coprime_has_inverse(a: nat, m: nat) -> (r: nat)
    requires
        m > 1,
        gcd(m, a % m) == 1,
    ensures
        r < m,
        (a * r) % m == 1,
{
    let a1 = a % m;
    let mi = m as int;
    let (x, y) = lemma_gcd_cofactors(m, a1);
    let r = y % mi;
    lemma_mod_bound(y, mi);
    lemma_mul_mod_noop_right(a as int, y, mi);
    lemma_mul_mod_noop_left(a as int, y, mi);
    assert((a1 as int) * y == mi * (-x) + 1) by (nonlinear_arith)
        requires
            x * mi + y * (a1 as int) == 1,
    ;
    lemma_mod_multiples_vanish(-x, 1, mi);
    lemma_small_mod(1, m);
    r as nat
}

/// One step of Euclid's rule with its cofactor: where `t0 * a` and `t1 * a`
/// are `r0` and `r1` modulo `m`, `(t0 - q * t1) * a` is `r0 - q * r1`.
proof fn lemma_euclid_step(
    a: nat,
    m: nat,
    r0: nat,
    r1: nat,
    q: nat,
    r2: nat,
    t0: nat,
    t1: nat,
    x: nat,
    t2: nat,
)
    requires
        m > 0,
        r0 == q * r1 + r2,
        (t0 * a) % m == r0 % m,
        (t1 * a) % m == r1 % m,
        x == (q * t1) % m,
        t2 as int == (t0 as int - x as int) % (m as int),
    ensures
        (t2 * a) % m == r2 % m,
{
    let mi = m as int;
    let ai = a as int;
    // x * a is q * r1
    lemma_mul_mod_noop_left((q * t1) as int, ai, mi);
    assert((q * t1) * a == q * (t1 * a)) by (nonlinear_arith);
    lemma_mul_mod_noop_right(q as int, (t1 * a) as int, mi);
    lemma_mul_mod_noop_right(q as int, r1 as int, mi);
    assert((x * a) % m == (q * r1) % m);
    // t2 * a is t0 * a - x * a
    lemma_mul_mod_noop_left(t0 as int - x as int, ai, mi);
    let (ti, xi) = (t0 as int, x as int);
    assert((ti - xi) * ai == ti * ai - xi * ai) by (nonlinear_arith);
    lemma_sub_mod_noop((t0 * a) as int, (x * a) as int, mi);
    lemma_sub_mod_noop(r0 as int, (q * r1) as int, mi);
}

/// The inverse of `a` modulo `m`: the reduced `r` with `(a * r) mod m == 1`,
/// where `a` and `m` have no divisor in common, and `None` where they have.
pub fn invert_mod(a: &U256, m: &U256) -> (r: Option<U256>)
    requires
        m.val() > 1,
    ensures
        r.is_some() <==> gcd(m.val(), a.val() % m.val()) == 1,
        r.is_some() ==> r.unwrap().val() < m.val() && (a.val() * r.unwrap().val()) % m.val() == 1,
{
    let mut r0 = *m;
    let mut r1 = reduce(a, m);
    let mut t0 = U256::zero();
    let mut t1 = U256::one();
    proof {
        assert(0 * a.val() == 0);
        assert(1 * a.val() == a.val());
        lemma_small_mod(0, m.val());
        lemma_mod_self_0(m.val() as int);
        lemma_mod_twice(a.val() as int, m.val() as int);
    }
    while !r1.is_zero()
        invariant
            m.val() > 1,
            t0.val() < m.val(),
            t1.val() < m.val(),
            (t0.val() * a.val()) % m.val() == r0.val() % m.val(),
            (t1.val() * a.val()) % m.val() == r1.val() % m.val(),
            gcd(r0.val(), r1.val()) == gcd(m.val(), a.val() % m.val()),
        decreases r1.val(),
    {
        let (q, r2) = div_rem(&r0, &r1);
        let x = mul_mod(&q, &t1, m);
        let t2 = sub_mod(&t0, &x, m);
        proof {
            lemma_fundamental_div_mod(r0.val() as int, r1.val() as int);
            assert(r1.val() * q.val() == q.val() * r1.val()) by (nonlinear_arith);
            lemma_mod_bound(r0.val() as int, r1.val() as int);
            lemma_mod_bound(t0.val() as int - x.val() as int, m.val() as int);
            lemma_euclid_step(
                a.val(),
                m.val(),
                r0.val(),
                r1.val(),
                q.val(),
                r2.val(),
                t0.val(),
                t1.val(),
                x.val(),
                t2.val(),
            );
        }
        r0 = r1;
        r1 = r2;
        t0 = t1;
        t1 = t2;
    }
    if r0.same(&U256::one()) {
        proof {
            lemma_small_mod(1, m.val());
            assert(a.val() * t0.val() == t0.val() * a.val()) by (nonlinear_arith);
        }
        Some(t0)
    } else {
        None
    }
}

} // verus!
