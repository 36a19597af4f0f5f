//! Non-negative numbers in double precision, by integers alone: 53 bits of significand, rounded to the
//! nearest number, and to the even one of two that are equally near.
//!
//! A number is counted in units of the smallest double, the 1074th negative power of two.
use vstd::arithmetic::div_mod::{
    lemma_fundamental_div_mod, lemma_fundamental_div_mod_converse,
};
use vstd::arithmetic::power2::{
    lemma2_to64, lemma2_to64_rest, lemma_pow2_adds, lemma_pow2_pos, lemma_pow2_strictly_increases,
    lemma_pow2_unfold, pow2,
};
use vstd::prelude::*;

verus! {

/// The first number that 53 bits do not hold.
pub const SIGNIFICANDS: u64 = 0x20_0000_0000_0000;

/// How many halvings lead from one to the smallest double.
pub const UNIT_BITS: u32 = 1074;

/// The whole number nearest to `n / d`, the even one where two are equally near.
pub open spec fn nearest_whole(n: nat, d: nat) -> nat {
    let q = n / d;
    let r = n % d;
    if 2 * r < d || (2 * r == d && q % 2 == 0) {
        q
    } else {
        q + 1
    }
}

/// How many of its low bits a number of units loses to the significand.
pub open spec fn lost_bits(units: nat) -> nat
    decreases units,
{
    if units < SIGNIFICANDS {
        0
    } else {
        1 + lost_bits(units / 2)
    }
}

/// The double nearest to `n / 2^j` units.
pub open spec fn nearest(n: nat, j: nat) -> nat {
    let s = lost_bits(n / pow2(j));
    nearest_whole(n, pow2(j + s)) * pow2(s)
}

/// The double of a whole number.
pub open spec fn of_whole(n: nat) -> nat {
    nearest(n * pow2(UNIT_BITS as nat), 0)
}

/// `x * k / 2^j` in doubles.
pub open spec fn scaled(x: nat, k: nat, j: nat) -> nat {
    nearest(k * x, j)
}

/// `x + y` in doubles.
pub open spec fn sum(x: nat, y: nat) -> nat {
    nearest(x + y, 0)
}

/// `|x - y|` in doubles.
pub open spec fn gap(x: nat, y: nat) -> nat {
    nearest(
        if x >= y {
            (x - y) as nat
        } else {
            (y - x) as nat
        },
        0,
    )
}

/// The whole part of a double.
pub open spec fn whole_part(x: nat) -> nat {
    x / pow2(UNIT_BITS as nat)
}

// ---- powers of two ----

proof fn lemma_power(a: nat, b: nat)
    ensures
        pow2(a) > 0,
        pow2(b) > 0,
        pow2(a + b) == pow2(a) * pow2(b),
        pow2(a + b) == pow2(b) * pow2(a),
        pow2(0) == 1,
        pow2(52) == SIGNIFICANDS / 2,
        pow2(53) == SIGNIFICANDS,
{
    lemma_pow2_pos(a);
    lemma_pow2_pos(b);
    lemma_pow2_adds(a, b);
    lemma2_to64();
    lemma2_to64_rest();
    assert(pow2(a) * pow2(b) == pow2(b) * pow2(a)) by (nonlinear_arith);
}

proof fn lemma_scaled_down(n: nat, d: nat, c: nat)
    requires
        d > 0,
        c > 0,
    ensures
        d * c > 0,
        (n * c) / (d * c) == n / d,
        (n * c) % (d * c) == (n % d) * c,
{
    let q = n as int / d as int;
    let r = n as int % d as int;
    lemma_fundamental_div_mod(n as int, d as int);
    assert(d * c > 0) by (nonlinear_arith)
        requires
            d > 0,
            c > 0,
    ;
    assert(n * c == q * (d * c) + r * c) by (nonlinear_arith)
        requires
            n == d * q + r,
    ;
    assert(0 <= r * c < d * c) by (nonlinear_arith)
        requires
            0 <= r < d,
            c > 0,
    ;
    lemma_fundamental_div_mod_converse((n * c) as int, (d * c) as int, q, r * c);
}

proof fn lemma_nearest_whole_scales(n: nat, d: nat, c: nat)
    requires
        d > 0,
        c > 0,
    ensures
        nearest_whole(n * c, d * c) == nearest_whole(n, d),
{
    lemma_scaled_down(n, d, c);
    let r = n % d;
    assert(2 * (r * c) < d * c <==> 2 * r < d) by (nonlinear_arith)
        requires
            c > 0,
    ;
    assert(2 * (r * c) == d * c <==> 2 * r == d) by (nonlinear_arith)
        requires
            c > 0,
    ;
}

/// A common factor of two does not count.
proof fn lemma_nearest_scales(n: nat, b: nat, c: nat)
    ensures
        nearest(n * pow2(c), b + c) == nearest(n, b),
{
    lemma_power(b, c);
    lemma_scaled_down(n, pow2(b), pow2(c));
    let s = lost_bits(n / pow2(b));
    lemma_power(b + s, c);
    lemma_nearest_whole_scales(n, pow2(b + s), pow2(c));
    assert(b + c + s == b + s + c);
}

proof fn lemma_lost_bits(v: nat, s: nat)
    requires
        v < pow2(53 + s),
        s == 0 || v >= pow2(52 + s),
    ensures
        lost_bits(v) == s,
    decreases s,
{
    lemma_power(53, s);
    if s > 0 {
        lemma_pow2_unfold(53 + s);
        lemma_pow2_unfold(52 + s);
        assert((53 + s - 1) as nat == 53 + (s - 1) as nat);
        assert((52 + s - 1) as nat == 52 + (s - 1) as nat);
        if s > 1 {
            lemma_pow2_strictly_increases(53, 52 + s);
        }
        lemma_lost_bits(v / 2, (s - 1) as nat);
    }
}

proof fn lemma_lost_at_most(v: nat, s: nat)
    requires
        v < pow2(53 + s),
    ensures
        lost_bits(v) <= s,
        v < pow2(53 + lost_bits(v)),
        lost_bits(v) == 0 || v >= pow2(52 + lost_bits(v)),
    decreases s,
{
    lemma_power(53, s);
    if v >= SIGNIFICANDS {
        if s == 0 {
            assert(false);
        }
        lemma_pow2_unfold(53 + s);
        assert((53 + s - 1) as nat == 53 + (s - 1) as nat);
        lemma_lost_at_most(v / 2, (s - 1) as nat);
        let l = lost_bits(v / 2);
        lemma_pow2_unfold(53 + l + 1);
        assert((53 + l + 1 - 1) as nat == 53 + l);
        lemma_pow2_unfold(52 + l + 1);
        assert((52 + l + 1 - 1) as nat == 52 + l);
        assert(53 + (l + 1) == 53 + l + 1 && 52 + (l + 1) == 52 + l + 1);
    }
}

/// What a significand holds is not rounded.
proof fn lemma_exact(m: nat, e: nat)
    requires
        m < SIGNIFICANDS,
    ensures
        nearest(m * pow2(e), 0) == m * pow2(e),
{
    let v = m * pow2(e);
    lemma_power(53, e);
    assert(v < pow2(53 + e)) by (nonlinear_arith)
        requires
            v == m * pow2(e),
            m < pow2(53),
            pow2(e) > 0,
            pow2(53 + e) == pow2(53) * pow2(e),
    ;
    lemma_lost_at_most(v, e);
    let s = lost_bits(v);
    let t = (e - s) as nat;
    lemma_power(t, s);
    let k = m * pow2(t);
    assert(v == k * pow2(s)) by (nonlinear_arith)
        requires
            v == m * pow2(e),
            k == m * pow2(t),
            pow2(e) == pow2(t) * pow2(s),
    ;
    lemma_fundamental_div_mod_converse(v as int, pow2(s) as int, k as int, 0);
    assert(v / pow2(0) == v);
    assert(0 + s == s);
}

/// Rounding does not lead past a number that a significand holds.
pub proof fn lemma_nearest_at_most(n: nat, j: nat, c: nat, t: nat)
    requires
        n <= c * pow2(t) * pow2(j),
        0 < c < SIGNIFICANDS,
    ensures
        nearest(n, j) <= c * pow2(t),
{
    let v = n / pow2(j);
    let b = c * pow2(t);
    lemma_power(53, t);
    lemma_power(t, j);
    lemma_fundamental_div_mod(n as int, pow2(j) as int);
    assert(v <= b) by (nonlinear_arith)
        requires
            n <= b * pow2(j),
            n >= pow2(j) * v,
            pow2(j) > 0,
    ;
    assert(b < pow2(53 + t)) by (nonlinear_arith)
        requires
            b == c * pow2(t),
            c < pow2(53),
            pow2(t) > 0,
            pow2(53 + t) == pow2(53) * pow2(t),
    ;
    lemma_lost_at_most(v, t);
    let s = lost_bits(v);
    let u = (t - s) as nat;
    lemma_power(u, s);
    lemma_power(j, s);
    let d = pow2(j + s);
    let k = c * pow2(u);
    assert(b == k * pow2(s)) by (nonlinear_arith)
        requires
            b == c * pow2(t),
            k == c * pow2(u),
            pow2(t) == pow2(u) * pow2(s),
    ;
    assert(n <= k * d) by (nonlinear_arith)
        requires
            n <= b * pow2(j),
            b == k * pow2(s),
            d == pow2(j) * pow2(s),
    ;
    lemma_power(j + s, 0);
    lemma_fundamental_div_mod(n as int, d as int);
    let q = n / d;
    let r = n % d;
    assert(q <= k && (q == k ==> r == 0)) by (nonlinear_arith)
        requires
            n == d * q + r,
            n <= k * d,
            0 <= r < d,
    ;
    assert(nearest_whole(n, d) <= k);
    assert(nearest_whole(n, d) * pow2(s) <= k * pow2(s)) by (nonlinear_arith)
        requires
            nearest_whole(n, d) <= k,
    ;
}

/// A number far below another's last bit does not move it.
proof fn lemma_far_sum(m: nat, e: nat, y: nat)
    requires
        SIGNIFICANDS / 2 <= m < SIGNIFICANDS,
        2 * y < pow2(e),
    ensures
        nearest(m * pow2(e) + y, 0) == m * pow2(e),
{
    let p = pow2(e);
    let v = m * p + y;
    lemma_power(53, e);
    lemma_power(52, e);
    assert(v < pow2(53 + e) && v >= pow2(52 + e)) by (nonlinear_arith)
        requires
            v == m * p + y,
            y < p,
            pow2(52) <= m < pow2(53),
            pow2(53 + e) == pow2(53) * p,
            pow2(52 + e) == pow2(52) * p,
    ;
    lemma_lost_bits(v, e);
    lemma_fundamental_div_mod_converse(v as int, p as int, m as int, y as int);
    assert(v / pow2(0) == v);
    assert(0 + e == e);
}

/// A number far below another's last bit does not move it.
proof fn lemma_far_gap(m: nat, e: nat, y: nat)
    requires
        SIGNIFICANDS / 2 <= m < SIGNIFICANDS,
        e > 0,
        4 * y < pow2(e),
    ensures
        m * pow2(e) >= y,
        nearest((m * pow2(e) - y) as nat, 0) == m * pow2(e),
{
    let p = pow2(e);
    lemma_power(53, e);
    lemma_power(52, e);
    assert(m * p >= p) by (nonlinear_arith)
        requires
            m >= 1,
            p > 0,
    ;
    let v = (m * p - y) as nat;
    assert(v / pow2(0) == v);
    if y == 0 {
        lemma_exact(m, e);
    } else if m > SIGNIFICANDS / 2 {
        assert(v < pow2(53 + e) && v >= pow2(52 + e)) by (nonlinear_arith)
            requires
                v == m * p - y,
                0 < y < p,
                pow2(52) < m < pow2(53),
                pow2(53 + e) == pow2(53) * p,
                pow2(52 + e) == pow2(52) * p,
        ;
        lemma_lost_bits(v, e);
        assert(v == (m - 1) * p + (p - y)) by (nonlinear_arith)
            requires
                v == m * p - y,
        ;
        lemma_fundamental_div_mod_converse(v as int, p as int, m - 1, p - y);
        assert(0 + e == e);
    } else {
        let f = (e - 1) as nat;
        let h = pow2(f);
        lemma_pow2_unfold(e);
        lemma_power(53, f);
        lemma_power(52, f);
        assert(m == SIGNIFICANDS / 2);
        assert(m * p == SIGNIFICANDS * h) by (nonlinear_arith)
            requires
                p == 2 * h,
                2 * m == SIGNIFICANDS,
        ;
        assert(v < pow2(53 + f) && v >= pow2(52 + f)) by (nonlinear_arith)
            requires
                v == SIGNIFICANDS * h - y,
                0 < y < h,
                pow2(53 + f) == SIGNIFICANDS * h,
                pow2(52 + f) == pow2(52) * h,
                pow2(52) < SIGNIFICANDS,
        ;
        lemma_lost_bits(v, f);
        assert(v == (SIGNIFICANDS - 1) * h + (h - y)) by (nonlinear_arith)
            requires
                v == SIGNIFICANDS * h - y,
        ;
        lemma_fundamental_div_mod_converse(v as int, h as int, SIGNIFICANDS - 1, h - y);
        assert(0 + f == f);
    }
}

// ---- numbers ----

/// A non-negative double.
#[derive(Debug, Clone, Copy)]
pub struct Double {
    significand: u64,
    exponent: u32,
}

impl View for Double {
    type V = nat;

    closed spec fn view(&self) -> nat {
        self.significand as nat * pow2(self.exponent as nat)
    }
}

/// The bound within which numbers are computed with: some bits above what 64 bits hold.
pub open spec fn in_range(x: nat) -> bool {
    x <= pow2((UNIT_BITS + 70) as nat)
}

/// `2^s`.
fn power(s: u32) -> (p: u128)
    requires
        s < 128,
    ensures
        p == pow2(s as nat),
{
    let mut p: u128 = 1;
    let mut i: u32 = 0;
    proof {
        lemma2_to64();
    }
    while i < s
        invariant
            i <= s < 128,
            p == pow2(i as nat),
        decreases s - i,
    {
        proof {
            lemma_pow2_unfold((i + 1) as nat);
            lemma_power(64, 63);
            lemma2_to64_rest();
            if i < 126 {
                lemma_pow2_strictly_increases((i + 1) as nat, 127);
            }
        }
        p = p * 2;
        i = i + 1;
    }
    p
}

impl Double {
    /// The significand has its full length unless the number is among the smallest.
    #[verifier::type_invariant]
    spec fn wf(self) -> bool {
        &&& self.significand < SIGNIFICANDS
        &&& self.exponent == 0 || self.significand >= SIGNIFICANDS / 2
    }

    /// Zero.
    pub(crate) fn zero() -> (d: Double)
        ensures
            d@ == 0,
    {
        Double { significand: 0, exponent: 0 }
    }

    proof fn lemma_exponent(self)
        requires
            self.wf(),
            in_range(self@),
        ensures
            self.exponent <= UNIT_BITS + 18,
    {
        if self.exponent > UNIT_BITS + 18 {
            let e = self.exponent as nat;
            lemma_power(52, e);
            assert(self@ >= pow2(52 + e)) by (nonlinear_arith)
                requires
                    self@ == self.significand as nat * pow2(e),
                    self.significand >= pow2(52),
                    pow2(52 + e) == pow2(52) * pow2(e),
            ;
            lemma_pow2_strictly_increases((UNIT_BITS + 70) as nat, 52 + e);
        }
    }

    /// How many bits `n` has beyond the length of a significand.
    fn excess_bits(n: u128) -> (s: u32)
        ensures
            s <= 75,
            n < pow2((53 + s) as nat),
            s == 0 || n >= pow2((52 + s) as nat),
    {
        let mut t: u128 = n;
        let mut s: u32 = 0;
        proof {
            lemma_power(0, 53);
        }
        while t >= SIGNIFICANDS as u128
            invariant
                s <= 75,
                t * pow2(s as nat) <= n < (t + 1) * pow2(s as nat),
                s > 0 ==> t >= SIGNIFICANDS / 2,
            decreases t,
        {
            proof {
                let p = pow2(s as nat);
                lemma_power(53, s as nat);
                lemma_pow2_unfold((s + 1) as nat);
                assert(n >= pow2(53 + s as nat)) by (nonlinear_arith)
                    requires
                        t * p <= n,
                        t >= pow2(53),
                        pow2(53 + s as nat) == pow2(53) * p,
                ;
                if s == 75 {
                    lemma_power(64, 64);
                    lemma2_to64();
                    lemma2_to64_rest();
                    assert(pow2(128) == u128::MAX + 1);
                    assert(false);
                }
                let h = t / 2;
                assert(h * (2 * p) <= n < (h + 1) * (2 * p)) by (nonlinear_arith)
                    requires
                        t * p <= n < (t + 1) * p,
                        2 * h <= t <= 2 * h + 1,
                        p > 0,
                ;
            }
            t = t / 2;
            s = s + 1;
        }
        proof {
            let p = pow2(s as nat);
            lemma_power(53, s as nat);
            lemma_power(52, s as nat);
            assert(n < pow2(53 + s as nat)) by (nonlinear_arith)
                requires
                    n < (t + 1) * p,
                    t + 1 <= pow2(53),
                    p > 0,
                    pow2(53 + s as nat) == pow2(53) * p,
            ;
            if s > 0 {
                assert(n >= pow2(52 + s as nat)) by (nonlinear_arith)
                    requires
                        t * p <= n,
                        t >= pow2(52),
                        pow2(52 + s as nat) == pow2(52) * p,
                ;
            }
        }
        s
    }

    /// `n / 2^s` as a whole number, for what is left a significand or the number after.
    fn shifted(n: u128, s: u32) -> (q: u64)
        requires
            s < 128,
            n < pow2((53 + s) as nat),
        ensures
            q == nearest_whole(n as nat, pow2(s as nat)),
            q <= SIGNIFICANDS,
            n >= pow2((52 + s) as nat) ==> q >= SIGNIFICANDS / 2,
    {
        let p: u128 = power(s);
        proof {
            lemma_power(53, s as nat);
            lemma_power(52, s as nat);
            lemma_fundamental_div_mod(n as int, p as int);
            let q = n / p;
            let r = n % p;
            assert(q < pow2(53)) by (nonlinear_arith)
                requires
                    n == p * q + r,
                    r >= 0,
                    n < pow2(53) * p,
                    p > 0,
            ;
            if n >= pow2((52 + s) as nat) {
                assert(q >= pow2(52)) by (nonlinear_arith)
                    requires
                        n == p * q + r,
                        0 <= r < p,
                        n >= pow2(52) * p,
                ;
            }
        }
        let q: u64 = (n / p) as u64;
        let r: u128 = n % p;
        let left: u128 = p - r;
        if r < left || (r == left && q % 2 == 0) {
            q
        } else {
            q + 1
        }
    }

    /// The number of this significand, which may be the one after the last, and exponent.
    fn carried(q: u64, e: u32) -> (d: Double)
        requires
            q <= SIGNIFICANDS,
            e == 0 || q >= SIGNIFICANDS / 2,
            e < 0xffff_ffff,
        ensures
            d@ == q as nat * pow2(e as nat),
    {
        if q == SIGNIFICANDS {
            proof {
                lemma_pow2_unfold((e + 1) as nat);
                assert((SIGNIFICANDS / 2) * (2 * pow2(e as nat)) == SIGNIFICANDS * pow2(e as nat))
                    by (nonlinear_arith);
            }
            Double { significand: SIGNIFICANDS / 2, exponent: e + 1 }
        } else {
            Double { significand: q, exponent: e }
        }
    }

    /// The number of a significand that may be short.
    fn stretched(n: u64, up: u32) -> (d: Double)
        requires
            n < SIGNIFICANDS,
        ensures
            d@ == n as nat * pow2(up as nat),
    {
        if n == 0 {
            proof {
                assert(0 * pow2(up as nat) == 0 && 0 * pow2(0) == 0) by (nonlinear_arith);
            }
            return Double { significand: 0, exponent: 0 };
        }
        let mut m: u64 = n;
        let mut e: u32 = up;
        while e > 0 && m < SIGNIFICANDS / 2
            invariant
                m < SIGNIFICANDS,
                m as nat * pow2(e as nat) == n as nat * pow2(up as nat),
            decreases e,
        {
            proof {
                lemma_pow2_unfold(e as nat);
                let p = pow2((e - 1) as nat);
                assert((2 * m) * p == m * (2 * p)) by (nonlinear_arith);
            }
            m = 2 * m;
            e = e - 1;
        }
        Double { significand: m, exponent: e }
    }

    /// The double nearest to `n * 2^up` units.
    fn rounded_up(n: u128, up: u32) -> (d: Double)
        requires
            up <= 0xffff,
        ensures
            d@ == nearest(n as nat * pow2(up as nat), 0),
    {
        let s: u32 = Self::excess_bits(n);
        let ghost v = n as nat * pow2(up as nat);
        proof {
            lemma_power(0, 53);
            lemma_power(s as nat, up as nat);
            assert(v / pow2(0) == v);
        }
        if s == 0 {
            proof {
                lemma_exact(n as nat, up as nat);
            }
            return Self::stretched(n as u64, up);
        }
        let q: u64 = Self::shifted(n, s);
        proof {
            let l = (s + up) as nat;
            let c = pow2(up as nat);
            lemma_power(53 + s as nat, up as nat);
            lemma_power(52 + s as nat, up as nat);
            assert(v < pow2(53 + l) && v >= pow2(52 + l)) by (nonlinear_arith)
                requires
                    v == n as nat * c,
                    c > 0,
                    pow2(52 + s as nat) <= n < pow2(53 + s as nat),
                    pow2(53 + l) == pow2(53 + s as nat) * c,
                    pow2(52 + l) == pow2(52 + s as nat) * c,
            ;
            lemma_lost_bits(v, l);
            lemma_nearest_whole_scales(n as nat, pow2(s as nat), c);
            assert(0 + l == l);
        }
        Self::carried(q, s + up)
    }

    /// The double nearest to `n / 2^down` units.
    fn rounded_down(n: u128, down: u32) -> (d: Double)
        requires
            down <= 8,
        ensures
            d@ == nearest(n as nat, down as nat),
    {
        let s: u32 = Self::excess_bits(n);
        let shift: u32 = if s > down {
            s
        } else {
            down
        };
        let ghost l = (shift - down) as nat;
        proof {
            let c = pow2(down as nat);
            let v = n as nat / c;
            lemma_power(53 + l, down as nat);
            lemma_power(52 + l, down as nat);
            lemma_fundamental_div_mod(n as int, c as int);
            if s < down {
                lemma_pow2_strictly_increases((53 + s) as nat, (53 + down) as nat);
            }
            assert(53 + l + down == 53 + shift && 52 + l + down == 52 + shift);
            assert(v < pow2(53 + l)) by (nonlinear_arith)
                requires
                    n < pow2(53 + l) * c,
                    n >= c * v,
                    c > 0,
            ;
            if l > 0 {
                let r = n as nat % c;
                assert(v >= pow2(52 + l)) by (nonlinear_arith)
                    requires
                        n >= pow2(52 + l) * c,
                        n == c * v + r,
                        0 <= r < c,
                ;
            }
            lemma_lost_bits(v, l);
            assert(down as nat + l == shift);
        }
        let q: u64 = Self::shifted(n, shift);
        Self::carried(q, shift - down)
    }

    /// The double of a whole number.
    pub(crate) fn of_whole(n: u64) -> (d: Double)
        ensures
            d@ == of_whole(n as nat),
    {
        Self::rounded_up(n as u128, UNIT_BITS)
    }

    /// `x * k / 2^j`.
    pub(crate) fn scaled(&self, k: u64, j: u32) -> (d: Double)
        requires
            in_range(self@),
            k <= 7,
            j <= 8,
        ensures
            d@ == scaled(self@, k as nat, j as nat),
    {
        proof {
            use_type_invariant(self);
            self.lemma_exponent();
        }
        proof {
            let m = self.significand;
            assert(k * m <= 7 * 0x20_0000_0000_0000) by (nonlinear_arith)
                requires
                    k <= 7,
                    m < 0x20_0000_0000_0000,
            ;
        }
        let n: u128 = k as u128 * self.significand as u128;
        let ghost e = self.exponent as nat;
        proof {
            assert(k as nat * self@ == n as nat * pow2(e)) by (nonlinear_arith)
                requires
                    self@ == self.significand as nat * pow2(e),
                    n == k * self.significand,
            ;
        }
        if self.exponent >= j {
            proof {
                let up = (e - j) as nat;
                lemma_power(up, j as nat);
                assert(n as nat * pow2(e) == (n as nat * pow2(up)) * pow2(j as nat))
                    by (nonlinear_arith)
                    requires
                        pow2(e) == pow2(up) * pow2(j as nat),
                ;
                lemma_nearest_scales(n as nat * pow2(up), 0, j as nat);
                assert(0 + j as nat == j as nat);
            }
            Self::rounded_up(n, self.exponent - j)
        } else {
            proof {
                lemma_nearest_scales(n as nat, (j - e) as nat, e);
            }
            Self::rounded_down(n, j - self.exponent)
        }
    }

    proof fn lemma_apart(a: Double, b: Double)
        requires
            a.wf(),
            b.wf(),
            a.exponent >= b.exponent + 65,
        ensures
            a.significand >= SIGNIFICANDS / 2,
            4 * b@ < pow2(a.exponent as nat),
    {
        let e = b.exponent as nat;
        let far = a.exponent as nat;
        lemma_power(53, e);
        lemma_power(2, 53 + e);
        lemma2_to64();
        assert(4 * b@ < pow2(2 + (53 + e))) by (nonlinear_arith)
            requires
                b@ == b.significand as nat * pow2(e),
                b.significand < pow2(53),
                pow2(e) > 0,
                pow2(53 + e) == pow2(53) * pow2(e),
                pow2(2 + (53 + e)) == 4 * pow2(53 + e),
        ;
        lemma_pow2_strictly_increases(2 + (53 + e), far);
    }

    /// The significand of `a` in units of the last bit of `b`.
    fn aligned(a: &Double, b: &Double) -> (n: u128)
        requires
            b.exponent <= a.exponent < b.exponent + 65,
        ensures
            n < 0x20_0000_0000_0000_0000_0000_0000_0000,
            n as nat * pow2(b.exponent as nat) == a@,
    {
        proof {
            use_type_invariant(a);
        }
        let shift: u32 = a.exponent - b.exponent;
        let p: u128 = power(shift);
        proof {
            lemma2_to64();
            if shift < 64 {
                lemma_pow2_strictly_increases(shift as nat, 64);
            }
            lemma_power(shift as nat, b.exponent as nat);
            let m = a.significand as nat;
            assert(m * p < 0x20_0000_0000_0000 * 0x1_0000_0000_0000_0000) by (nonlinear_arith)
                requires
                    m < 0x20_0000_0000_0000,
                    0 < p <= 0x1_0000_0000_0000_0000,
            ;
            assert((m * p) * pow2(b.exponent as nat) == m * pow2(a.exponent as nat))
                by (nonlinear_arith)
                requires
                    pow2(a.exponent as nat) == p * pow2(b.exponent as nat),
            ;
        }
        a.significand as u128 * p
    }

    /// `a + b`, where `a` has the larger exponent.
    fn sum_ordered(a: &Double, b: &Double) -> (d: Double)
        requires
            in_range(a@),
            a.exponent >= b.exponent,
        ensures
            d@ == sum(a@, b@),
    {
        proof {
            use_type_invariant(a);
            use_type_invariant(b);
            a.lemma_exponent();
        }
        if a.exponent - b.exponent >= 65 {
            proof {
                Self::lemma_apart(*a, *b);
                lemma_far_sum(a.significand as nat, a.exponent as nat, b@);
            }
            return *a;
        }
        let n: u128 = Self::aligned(a, b);
        let m: u128 = b.significand as u128;
        proof {
            let p = pow2(b.exponent as nat);
            assert((n + m) as nat * p == n as nat * p + m as nat * p) by (nonlinear_arith);
        }
        Self::rounded_up(n + m, b.exponent)
    }

    /// `x + y`.
    pub(crate) fn sum(&self, other: &Double) -> (d: Double)
        requires
            in_range(self@),
            in_range(other@),
        ensures
            d@ == sum(self@, other@),
    {
        if self.exponent >= other.exponent {
            Self::sum_ordered(self, other)
        } else {
            Self::sum_ordered(other, self)
        }
    }

    /// `|a - b|`, where `a` has the larger exponent.
    fn gap_ordered(a: &Double, b: &Double) -> (d: Double)
        requires
            in_range(a@),
            a.exponent >= b.exponent,
        ensures
            d@ == gap(a@, b@),
    {
        proof {
            use_type_invariant(a);
            use_type_invariant(b);
            a.lemma_exponent();
        }
        if a.exponent - b.exponent >= 65 {
            proof {
                Self::lemma_apart(*a, *b);
                lemma_far_gap(a.significand as nat, a.exponent as nat, b@);
            }
            return *a;
        }
        let n: u128 = Self::aligned(a, b);
        let m: u128 = b.significand as u128;
        let ghost p = pow2(b.exponent as nat);
        proof {
            lemma_pow2_pos(b.exponent as nat);
            assert(n >= m <==> n as nat * p >= m as nat * p) by (nonlinear_arith)
                requires
                    p > 0,
            ;
        }
        if n >= m {
            proof {
                assert((n - m) as nat * p == n as nat * p - m as nat * p) by (nonlinear_arith)
                    requires
                        n >= m,
                ;
            }
            Self::rounded_up(n - m, b.exponent)
        } else {
            proof {
                assert((m - n) as nat * p == m as nat * p - n as nat * p) by (nonlinear_arith)
                    requires
                        m >= n,
                ;
            }
            Self::rounded_up(m - n, b.exponent)
        }
    }

    /// `|x - y|`.
    pub(crate) fn gap(&self, other: &Double) -> (d: Double)
        requires
            in_range(self@),
            in_range(other@),
        ensures
            d@ == gap(self@, other@),
    {
        if self.exponent >= other.exponent {
            Self::gap_ordered(self, other)
        } else {
            Self::gap_ordered(other, self)
        }
    }

    /// The whole part, at most the largest integer.
    pub(crate) fn whole_part(&self) -> (n: u64)
        requires
            in_range(self@),
        ensures
            n == if whole_part(self@) <= u64::MAX {
                whole_part(self@) as int
            } else {
                u64::MAX as int
            },
    {
        proof {
            use_type_invariant(self);
            self.lemma_exponent();
            lemma2_to64();
            lemma2_to64_rest();
        }
        let ghost m = self.significand as nat;
        let ghost e = self.exponent as nat;
        let ghost u = pow2(UNIT_BITS as nat);
        if self.exponent >= UNIT_BITS {
            let shift: u32 = self.exponent - UNIT_BITS;
            let p: u128 = power(shift);
            proof {
                lemma_power(shift as nat, UNIT_BITS as nat);
                if shift < 18 {
                    lemma_pow2_strictly_increases(shift as nat, 18);
                }
                assert(m * p <= 0x20_0000_0000_0000 * 0x4_0000) by (nonlinear_arith)
                    requires
                        m < 0x20_0000_0000_0000,
                        0 < p <= 0x4_0000,
                ;
                assert(self@ == (m * p) * u) by (nonlinear_arith)
                    requires
                        self@ == m * pow2(e),
                        pow2(e) == p * u,
                ;
                lemma_fundamental_div_mod_converse(self@ as int, u as int, (m * p) as int, 0);
            }
            let n: u128 = self.significand as u128 * p;
            if n <= u64::MAX as u128 {
                n as u64
            } else {
                u64::MAX
            }
        } else {
            let shift: u32 = UNIT_BITS - self.exponent;
            proof {
                lemma_power(shift as nat, e);
                lemma_scaled_down(m, pow2(shift as nat), pow2(e));
            }
            if shift >= 53 {
                proof {
                    if shift > 53 {
                        lemma_pow2_strictly_increases(53, shift as nat);
                    }
                    lemma_fundamental_div_mod_converse(m as int, pow2(shift as nat) as int, 0, m as int);
                }
                return 0;
            }
            let p: u128 = power(shift);
            proof {
                lemma_fundamental_div_mod(m as int, p as int);
                assert(m / p as nat <= m) by (nonlinear_arith)
                    requires
                        p >= 1,
                ;
            }
            (self.significand as u128 / p) as u64
        }
    }
}

} // verus!
