//! Numbers rounded as floating point rounds them, in integers.
//!
//! A floating-point number has 24 significant bits in single precision and 53 in double precision,
//! and what does not fit is rounded to the nearest one, ties to the even one. Sizes and shares of
//! sizes are shown with a few decimals of such a number.
use vstd::prelude::*;

verus! {

/// How precise a floating-point number is.
#[derive(Clone, Copy, PartialEq, Eq, Debug, Structural)]
pub enum Precision {
    /// 24 significant bits.
    Single,
    /// 53 significant bits.
    Double,
}

/// The integer nearest to `num / den`, the even one of two that are equally near.
pub open spec fn half_even(num: nat, den: nat) -> nat {
    let q = num / den;
    let r = num % den;
    if 2 * r < den || (2 * r == den && q % 2 == 0) {
        q
    } else {
        q + 1
    }
}

/// `x` times the first number that has more significant bits than there are.
pub open spec fn times_top(x: nat, p: Precision) -> nat {
    match p {
        Precision::Single => x * 0x100_0000,
        Precision::Double => x * 0x20_0000_0000_0000,
    }
}

/// `x` times the first number that takes up all significant bits.
pub open spec fn times_half(x: nat, p: Precision) -> nat {
    match p {
        Precision::Single => x * 0x80_0000,
        Precision::Double => x * 0x10_0000_0000_0000,
    }
}

/// The least power of two `u` for which `num / (den * u)` has no more significant bits before the
/// point than there are.
pub open spec fn shrink(num: nat, den: nat, p: Precision) -> nat
    decreases num - den,
{
    if den == 0 || num < times_top(den, p) {
        1
    } else {
        2 * shrink(num, 2 * den, p)
    }
}

/// The least power of two `s` for which `num * s / den` has all significant bits before the point,
/// if there is one.
pub open spec fn grow(num: nat, den: nat, p: Precision) -> nat
    decreases 2 * times_half(den, p) - num,
{
    if num == 0 || num >= times_half(den, p) {
        1
    } else {
        2 * grow(2 * num, den, p)
    }
}

/// The floating-point number nearest to the integer `n`.
pub open spec fn float_of(n: nat, p: Precision) -> nat {
    half_even(n, shrink(n, 1, p)) * shrink(n, 1, p)
}

/// The significant bits of the floating-point number nearest to `num / den`, which is
/// `significand(num, den, p) * shrink(num, den, p) / grow(num, den, p)`.
pub open spec fn significand(num: nat, den: nat, p: Precision) -> nat {
    half_even(num * grow(num, den, p), den * shrink(num, den, p))
}

/// The floating-point number nearest to `num / den`, in hundredths.
pub open spec fn quotient_hundredths(num: nat, den: nat, p: Precision) -> nat {
    half_even(100 * (significand(num, den, p) * shrink(num, den, p)), grow(num, den, p))
}

/// A hundred times the floating-point number nearest to `num / den`, itself made a floating-point
/// number, in parts of which `scale` make a whole.
pub open spec fn percent_of(num: nat, den: nat, p: Precision, scale: nat) -> nat {
    half_even(
        scale * (float_of(100 * significand(num, den, p), p) * shrink(num, den, p)),
        grow(num, den, p),
    )
}

/// The integer nearest to `num / den`, the even one of two that are equally near.
pub fn nearest(num: u128, den: u128) -> (r: u128)
    requires
        den > 0,
        num < u128::MAX,
    ensures
        r == half_even(num as nat, den as nat),
        num / den <= r <= num / den + 1,
{
    let q: u128 = num / den;
    let m: u128 = num % den;
    proof {
        assert(num / den <= num) by (nonlinear_arith)
            requires
                den > 0,
        ;
    }
    if m < den - m || (m == den - m && q % 2 == 0) {
        q
    } else {
        q + 1
    }
}

/// The first number that has more significant bits than there are.
fn top(p: Precision) -> (r: u128)
    ensures
        r == times_top(1, p),
{
    match p {
        Precision::Single => 0x100_0000,
        Precision::Double => 0x20_0000_0000_0000,
    }
}

fn scaled_top(x: u128, p: Precision) -> (r: u128)
    requires
        x <= 0x4_0000_0000_0000_0000,
    ensures
        r == times_top(x as nat, p),
{
    match p {
        Precision::Single => x * 0x100_0000,
        Precision::Double => x * 0x20_0000_0000_0000,
    }
}

fn scaled_half(x: u128, p: Precision) -> (r: u128)
    requires
        x <= 0x4_0000_0000_0000_0000,
    ensures
        r == times_half(x as nat, p),
{
    match p {
        Precision::Single => x * 0x80_0000,
        Precision::Double => x * 0x10_0000_0000_0000,
    }
}

/// The factor `shrink(num, den, p)`.
fn shrink_by(num: u128, den: u128, p: Precision) -> (u: u128)
    requires
        0 < den,
        num <= 0x2_0000_0000_0000_0000,
        den <= 0x2_0000_0000_0000_0000,
    ensures
        u == shrink(num as nat, den as nat, p),
        1 <= u <= 0x800_0000_0000,
        p is Double ==> u <= 0x2000,
        u == 1 || u <= num,
        den * u <= 0x2_0000_0000_0000_0000,
        num < times_top((den * u) as nat, p),
        num < times_top(1, p) ==> u == 1,
{
    let mut u: u128 = 1;
    let mut d: u128 = den;
    while num >= scaled_top(d, p)
        invariant
            0 < den,
            num <= 0x2_0000_0000_0000_0000,
            d == den * u,
            1 <= u <= d <= 0x2_0000_0000_0000_0000,
            u == 1 || num >= times_half(d as nat, p),
            shrink(num as nat, den as nat, p) == u * shrink(num as nat, d as nat, p),
        decreases num - d,
    {
        proof {
            let t = shrink(num as nat, 2 * d as nat, p);
            assert(u * (2 * t) == (2 * u) * t) by (nonlinear_arith);
            assert(den * (2 * u) == 2 * (den * u)) by (nonlinear_arith);
        }
        u = 2 * u;
        d = 2 * d;
    }
    assert(shrink(num as nat, d as nat, p) == 1);
    assert(u * 1nat == u) by (nonlinear_arith);
    u
}

/// The factor `grow(num, den, p)`.
fn grow_by(num: u128, den: u128, p: Precision) -> (s: u128)
    requires
        0 < den,
        num <= 0x2_0000_0000_0000_0000,
        den <= 0x2_0000_0000_0000_0000,
    ensures
        s == grow(num as nat, den as nat, p),
        s >= 1,
        s > 1 ==> num * s < times_top(den as nat, p),
{
    let mut s: u128 = 1;
    let mut n: u128 = num;
    while n != 0 && n < scaled_half(den, p)
        invariant
            0 < den <= 0x2_0000_0000_0000_0000,
            n == num * s,
            s >= 1,
            num > 0 ==> s <= n,
            num == 0 ==> s == 1,
            s > 1 ==> n < times_top(den as nat, p),
            n <= 0x40_0000_0000_0000_0000_0000_0000_0000,
            grow(num as nat, den as nat, p) == s * grow(n as nat, den as nat, p),
        decreases 2 * times_half(den as nat, p) - n,
    {
        proof {
            let t = grow(2 * n as nat, den as nat, p);
            assert(s * (2 * t) == (2 * s) * t) by (nonlinear_arith);
            assert(num * (2 * s) == 2 * (num * s)) by (nonlinear_arith);
        }
        s = 2 * s;
        n = 2 * n;
    }
    assert(grow(n as nat, den as nat, p) == 1);
    assert(s * 1nat == s) by (nonlinear_arith);
    s
}

/// The floating-point number nearest to `n`.
pub fn rounded(n: u128, p: Precision) -> (r: u128)
    requires
        n <= 0x1_0000_0000_0000_0000,
    ensures
        r == float_of(n as nat, p),
        r <= n + 0x800_0000_0000,
        r <= 0x2_0000_0000_0000_0000,
        n > 0 ==> r > 0,
        n < times_top(1, p) ==> r == n,
{
    let u: u128 = shrink_by(n, 1, p);
    let q: u128 = nearest(n, u);
    proof {
        assert(q * u <= n + u) by (nonlinear_arith)
            requires
                q <= n / u + 1,
                u > 0,
        ;
        if n > 0 {
            assert(n / u > 0) by (nonlinear_arith)
                requires
                    n >= u,
                    u > 0,
            ;
            assert(q * u > 0) by (nonlinear_arith)
                requires
                    q > 0,
                    u > 0,
            ;
        }
        assert(n / 1 == n && n % 1 == 0);
        assert(q * 1 == q) by (nonlinear_arith);
    }
    q * u
}

/// The significant bits of the floating-point number nearest to `num / den`, and the factors that go
/// with them.
fn divided(num: u128, den: u128, p: Precision) -> (r: (u128, u128, u128))
    requires
        0 < den,
        num <= 0x2_0000_0000_0000_0000,
        den <= 0x2_0000_0000_0000_0000,
    ensures
        r.0 == significand(num as nat, den as nat, p),
        r.0 <= times_top(1, p),
        r.1 == shrink(num as nat, den as nat, p),
        1 <= r.1 <= 0x800_0000_0000,
        p is Double ==> r.1 <= 0x2000,
        r.2 == grow(num as nat, den as nat, p),
        1 <= r.2,
{
    let u: u128 = shrink_by(num, den, p);
    let s: u128 = grow_by(num, den, p);
    let t: u128 = top(p);
    proof {
        assert(times_top((den * u) as nat, p) == den * u * t);
        assert(times_top(den as nat, p) == den * t);
        assert(num * s < den * u * t) by (nonlinear_arith)
            requires
                num < den * u * t,
                s > 1 ==> num * s < den * t,
                s >= 1,
                u >= 1,
                den > 0,
                t > 0,
        ;
        assert(den * u > 0) by (nonlinear_arith)
            requires
                den > 0,
                u >= 1,
        ;
        assert(den * u * t <= 0x2_0000_0000_0000_0000 * 0x20_0000_0000_0000) by (nonlinear_arith)
            requires
                den * u <= 0x2_0000_0000_0000_0000,
                t <= 0x20_0000_0000_0000,
                den * u > 0,
                t > 0,
        ;
    }
    let a: u128 = num * s;
    let b: u128 = den * u;
    let m: u128 = nearest(a, b);
    proof {
        assert(a / b < t) by (nonlinear_arith)
            requires
                a < b * t,
                b > 0,
        ;
    }
    (m, u, s)
}

/// The floating-point number nearest to `num / den`, in hundredths.
pub fn quotient(num: u128, den: u128, p: Precision) -> (r: u128)
    requires
        0 < den,
        num <= 0x2_0000_0000_0000_0000,
        den <= 0x2_0000_0000_0000_0000,
    ensures
        r == quotient_hundredths(num as nat, den as nat, p),
{
    let (m, u, s) = divided(num, den, p);
    proof {
        assert(m * u <= 0x20_0000_0000_0000 * 0x800_0000_0000) by (nonlinear_arith)
            requires
                m <= 0x20_0000_0000_0000,
                u <= 0x800_0000_0000,
        ;
    }
    nearest(100 * (m * u), s)
}

/// A hundred times the floating-point number nearest to `num / den`, itself made a floating-point
/// number, in parts of which `scale` make a whole.
pub fn percent(num: u128, den: u128, p: Precision, scale: u128) -> (r: u128)
    requires
        0 < den,
        num <= 0x2_0000_0000_0000_0000,
        den <= 0x2_0000_0000_0000_0000,
        scale <= 100,
    ensures
        r == percent_of(num as nat, den as nat, p, scale as nat),
{
    let (m, u, s) = divided(num, den, p);
    let h: u128 = rounded(100 * m, p);
    proof {
        assert(h * u <= 0x2000_0000_0000_0000 * 0x800_0000_0000) by (nonlinear_arith)
            requires
                h <= 0x2000_0000_0000_0000,
                u <= 0x800_0000_0000,
        ;
        assert(scale * (h * u) <= 100 * (0x2000_0000_0000_0000 * 0x800_0000_0000)) by (nonlinear_arith)
            requires
                scale <= 100,
                h * u <= 0x2000_0000_0000_0000 * 0x800_0000_0000,
        ;
    }
    nearest(scale * (h * u), s)
}

/// No integer is nearer to `num / den` than the one it is rounded to, and where another is as near,
/// the even one was taken.
pub proof fn law_rounding_is_nearest(num: nat, den: nat, other: nat)
    requires
        0 < den,
        other != half_even(num, den),
    ensures
        ({
            let off = half_even(num, den) * den - num;
            let off_other = other * den - num;
            let d = if off < 0 {
                -off
            } else {
                off
            };
            let d_other = if off_other < 0 {
                -off_other
            } else {
                off_other
            };
            d < d_other || (d == d_other && half_even(num, den) % 2 == 0)
        }),
{
    let q = num / den;
    let r = num % den;
    let h = half_even(num, den);
    assert(num == q * den + r && 0 <= r < den) by (nonlinear_arith)
        requires
            q == num / den,
            r == num % den,
            den > 0,
    ;
    assert((q + 1) * den == q * den + den) by (nonlinear_arith);
    if other < h {
        assert(other * den <= h * den - den) by (nonlinear_arith)
            requires
                other + 1 <= h,
                den > 0,
        ;
    } else {
        assert(other * den >= h * den + den) by (nonlinear_arith)
            requires
                other >= h + 1,
                den > 0,
        ;
    }
}

// ---------------------------------------------------------------------------------------------
// How far off a share is
// ---------------------------------------------------------------------------------------------

/// Rounding to an integer is off by a half at most.
pub proof fn lemma_half_even(num: nat, den: nat)
    requires
        0 < den,
    ensures
        2 * (half_even(num, den) * den) <= 2 * num + den,
        2 * num <= 2 * (half_even(num, den) * den) + den,
{
    let q = num / den;
    let r = num % den;
    assert(num == q * den + r && 0 <= r < den) by (nonlinear_arith)
        requires
            q == num / den,
            r == num % den,
            den > 0,
    ;
    assert((q + 1) * den == q * den + den) by (nonlinear_arith);
}

/// Numbers are made smaller only if they take up all bits even then.
proof fn lemma_shrink(num: nat, den: nat)
    requires
        0 < den,
    ensures
        shrink(num, den, Precision::Double) >= 1,
        shrink(num, den, Precision::Double) == 1 || num >= 0x10_0000_0000_0000 * (den * shrink(
            num,
            den,
            Precision::Double,
        )),
    decreases num - den,
{
    if num >= times_top(den, Precision::Double) {
        lemma_shrink(num, 2 * den);
        let t = shrink(num, 2 * den, Precision::Double);
        assert((2 * den) * t == den * (2 * t)) by (nonlinear_arith);
        if t == 1 {
            assert(den * 2 == 2 * den);
        }
    }
}

/// Numbers are made larger until they take up all bits.
proof fn lemma_grow(num: nat, den: nat)
    requires
        0 < num,
    ensures
        grow(num, den, Precision::Double) >= 1,
        num * grow(num, den, Precision::Double) >= 0x10_0000_0000_0000 * den,
    decreases 2 * times_half(den, Precision::Double) - num,
{
    if num < times_half(den, Precision::Double) {
        lemma_grow(2 * num, den);
        let t = grow(2 * num, den, Precision::Double);
        assert((2 * num) * t == num * (2 * t)) by (nonlinear_arith);
    } else {
        assert(num * 1 == num);
    }
}

/// A floating-point number of double precision is off by one part in 2 to the power of 53 at most, and
/// smaller integers are not off at all.
pub proof fn law_floats_are_close(n: nat)
    ensures
        0x20_0000_0000_0000 * float_of(n, Precision::Double) <= 0x20_0000_0000_0001 * n,
        0x1F_FFFF_FFFF_FFFF * n <= 0x20_0000_0000_0000 * float_of(n, Precision::Double),
        n < 0x20_0000_0000_0000 ==> float_of(n, Precision::Double) == n,
{
    lemma_shrink(n, 1);
    let u = shrink(n, 1, Precision::Double);
    lemma_half_even(n, u);
    assert(1 * u == u);
    if u == 1 {
        assert(n / 1 == n && n % 1 == 0);
        assert(n * 1 == n);
    }
}

proof fn lemma_significand(num: nat, den: nat)
    requires
        0 < num,
        0 < den,
    ensures
        ({
            let m = significand(num, den, Precision::Double);
            let u = shrink(num, den, Precision::Double);
            let s = grow(num, den, Precision::Double);
            &&& u >= 1
            &&& s >= 1
            &&& 0x20_0000_0000_0000 * (m * (den * u)) <= 0x20_0000_0000_0001 * (num * s)
            &&& 0x1F_FFFF_FFFF_FFFF * (num * s) <= 0x20_0000_0000_0000 * (m * (den * u))
        }),
{
    let u = shrink(num, den, Precision::Double);
    let s = grow(num, den, Precision::Double);
    lemma_shrink(num, den);
    lemma_grow(num, den);
    assert(den * u >= 1) by (nonlinear_arith)
        requires
            den >= 1,
            u >= 1,
    ;
    lemma_half_even(num * s, den * u);
    if u == 1 {
        assert(den * u == den);
    } else {
        assert(num * s >= num) by (nonlinear_arith)
            requires
                s >= 1,
        ;
    }
}

/// What the steps of the computation give together.
proof fn lemma_steps_above(h: int, s: int, f: int, u: int, m: int, num: int, den: int)
    requires
        s >= 1,
        u >= 1,
        den >= 1,
        f >= 0,
        m >= 0,
        num >= 0,
        2 * (h * s) <= 2 * (100 * (f * u)) + s,
        0x20_0000_0000_0000 * f <= 0x20_0000_0000_0001 * (100 * m),
        0x20_0000_0000_0000 * (m * (den * u)) <= 0x20_0000_0000_0001 * (num * s),
    ensures
        0x20_0000_0000_0000 * 0x20_0000_0000_0000 * ((2 * h - 1) * den) <= 20_000 * 0x20_0000_0000_0001
            * 0x20_0000_0000_0001 * num,
{
    let k: int = 0x20_0000_0000_0000;
    let k1: int = 0x20_0000_0000_0001;
    let x = 2 * h - 1;
    assert(x * s <= 200 * (f * u)) by (nonlinear_arith)
        requires
            x == 2 * h - 1,
            2 * (h * s) <= 2 * (100 * (f * u)) + s,
    ;
    assert(k * (f * u) <= 100 * k1 * (m * u)) by (nonlinear_arith)
        requires
            k * f <= k1 * (100 * m),
            u >= 1,
    ;
    assert(k * (x * s) <= 20_000 * k1 * (m * u)) by (nonlinear_arith)
        requires
            x * s <= 200 * (f * u),
            k * (f * u) <= 100 * k1 * (m * u),
            k > 0,
    ;
    assert(k * (x * s) * den <= 20_000 * k1 * (m * u) * den) by (nonlinear_arith)
        requires
            k * (x * s) <= 20_000 * k1 * (m * u),
            den >= 1,
    ;
    assert((m * u) * den == m * (den * u)) by (nonlinear_arith);
    assert(20_000 * k1 * (m * u) * den == 20_000 * k1 * (m * (den * u))) by (nonlinear_arith)
        requires
            (m * u) * den == m * (den * u),
    ;
    assert(k * (x * s) * den == k * ((x * den) * s)) by (nonlinear_arith);
    assert(k * k * ((x * den) * s) <= 20_000 * k1 * k1 * (num * s)) by (nonlinear_arith)
        requires
            k * ((x * den) * s) <= 20_000 * k1 * (m * (den * u)),
            k * (m * (den * u)) <= k1 * (num * s),
            k > 0,
            k1 > 0,
    ;
    assert(k * k * (x * den) <= 20_000 * k1 * k1 * num) by (nonlinear_arith)
        requires
            k * k * ((x * den) * s) <= 20_000 * k1 * k1 * (num * s),
            s >= 1,
    ;
}

proof fn lemma_steps_below(h: int, s: int, f: int, u: int, m: int, num: int, den: int)
    requires
        s >= 1,
        u >= 1,
        den >= 1,
        f >= 0,
        m >= 0,
        num >= 0,
        2 * (100 * (f * u)) <= 2 * (h * s) + s,
        0x1F_FFFF_FFFF_FFFF * (100 * m) <= 0x20_0000_0000_0000 * f,
        0x1F_FFFF_FFFF_FFFF * (num * s) <= 0x20_0000_0000_0000 * (m * (den * u)),
    ensures
        20_000 * 0x1F_FFFF_FFFF_FFFF * 0x1F_FFFF_FFFF_FFFF * num <= 0x20_0000_0000_0000 * 0x20_0000_0000_0000 * ((2
            * h + 1) * den),
{
    let k: int = 0x20_0000_0000_0000;
    let k0: int = 0x1F_FFFF_FFFF_FFFF;
    let x = 2 * h + 1;
    assert(200 * (f * u) <= x * s) by (nonlinear_arith)
        requires
            x == 2 * h + 1,
            2 * (100 * (f * u)) <= 2 * (h * s) + s,
    ;
    assert(100 * k0 * (m * u) <= k * (f * u)) by (nonlinear_arith)
        requires
            k0 * (100 * m) <= k * f,
            u >= 1,
    ;
    assert(20_000 * k0 * (m * u) <= k * (x * s)) by (nonlinear_arith)
        requires
            200 * (f * u) <= x * s,
            100 * k0 * (m * u) <= k * (f * u),
            k > 0,
    ;
    assert(20_000 * k0 * (m * u) * den <= k * (x * s) * den) by (nonlinear_arith)
        requires
            20_000 * k0 * (m * u) <= k * (x * s),
            den >= 1,
    ;
    assert((m * u) * den == m * (den * u)) by (nonlinear_arith);
    assert(20_000 * k0 * (m * u) * den == 20_000 * k0 * (m * (den * u))) by (nonlinear_arith)
        requires
            (m * u) * den == m * (den * u),
    ;
    assert(k * (x * s) * den == k * ((x * den) * s)) by (nonlinear_arith);
    assert(20_000 * k0 * k0 * (num * s) <= k * k * ((x * den) * s)) by (nonlinear_arith)
        requires
            20_000 * k0 * (m * (den * u)) <= k * ((x * den) * s),
            k0 * (num * s) <= k * (m * (den * u)),
            k > 0,
            k0 > 0,
    ;
    assert(20_000 * k0 * k0 * num <= k * k * (x * den)) by (nonlinear_arith)
        requires
            20_000 * k0 * k0 * (num * s) <= k * k * ((x * den) * s),
            s >= 1,
    ;
}

/// A share in hundredths of a percent is 10000 times the part divided by the whole, rounded to the
/// nearest integer: it is off by one half at most, and by a billionth that floating-point numbers
/// lose on the way.
pub proof fn law_share_is_part_of_whole(part: nat, whole: nat)
    requires
        0 < whole,
        part <= whole,
    ensures
        ({
            let h = percent_of(
                float_of(part, Precision::Double),
                float_of(whole, Precision::Double),
                Precision::Double,
                100,
            );
            &&& 1_000_000_000 * ((2 * h - 1) * whole) <= 1_000_000_000 * (20_000 * part) + whole
            &&& 1_000_000_000 * (20_000 * part) <= 1_000_000_000 * ((2 * h + 1) * whole) + whole
        }),
{
    let p = Precision::Double;
    let num = float_of(part, p);
    let den = float_of(whole, p);
    let h = percent_of(num, den, p, 100);
    law_floats_are_close(part);
    law_floats_are_close(whole);
    assert(den >= 1);
    if num == 0 {
        assert(part == 0);
        lemma_nothing(den);
        assert((2 * h - 1) * whole == -whole) by (nonlinear_arith)
            requires
                h == 0,
        ;
        assert((2 * h + 1) * whole == whole) by (nonlinear_arith)
            requires
                h == 0,
        ;
    } else {
        let m = significand(num, den, p);
        let u = shrink(num, den, p);
        let s = grow(num, den, p);
        let f = float_of(100 * m, p);
        lemma_significand(num, den);
        law_floats_are_close(100 * m);
        lemma_half_even(100 * (f * u), s);
        lemma_steps_above(h as int, s as int, f as int, u as int, m as int, num as int, den as int);
        lemma_steps_below(h as int, s as int, f as int, u as int, m as int, num as int, den as int);
        lemma_share_above(h as int, part as int, whole as int, num as int, den as int);
        lemma_share_below(h as int, part as int, whole as int, num as int, den as int);
    }
}

/// Nothing is no share of anything.
proof fn lemma_nothing(den: nat)
    requires
        den >= 1,
    ensures
        percent_of(0, den, Precision::Double, 100) == 0,
{
    let p = Precision::Double;
    assert(grow(0, den, p) == 1);
    assert(shrink(0, den, p) == 1);
    assert(den * 1 == den);
    assert(0 * 1nat == 0);
    assert(half_even(0, den) == 0) by {
        assert(0nat / den == 0 && 0nat % den == 0) by (nonlinear_arith)
            requires
                den >= 1,
        ;
    }
    assert(significand(0, den, p) == 0);
    assert(shrink(0, 1, p) == 1);
    assert(float_of(0, p) == 0);
    assert(100 * (0nat * 1nat) == 0);
    assert(half_even(0, 1) == 0);
}

proof fn lemma_share_above(h: int, part: int, whole: int, num: int, den: int)
    requires
        0 <= part <= whole,
        0 < whole,
        0 <= num,
        0 < den,
        0x20_0000_0000_0000 * num <= 0x20_0000_0000_0001 * part,
        0x1F_FFFF_FFFF_FFFF * whole <= 0x20_0000_0000_0000 * den,
        0x20_0000_0000_0000 * 0x20_0000_0000_0000 * ((2 * h - 1) * den) <= 20_000 * 0x20_0000_0000_0001
            * 0x20_0000_0000_0001 * num,
    ensures
        1_000_000_000 * ((2 * h - 1) * whole) <= 1_000_000_000 * (20_000 * part) + whole,
{
    let k: int = 0x20_0000_0000_0000;
    let k0: int = 0x1F_FFFF_FFFF_FFFF;
    let k1: int = 0x20_0000_0000_0001;
    let x = 2 * h - 1;
    let y = x * whole;
    let z = x * den;
    if x > 0 {
        assert(k0 * y <= k * z) by (nonlinear_arith)
            requires
                k0 * whole <= k * den,
                x > 0,
                y == x * whole,
                z == x * den,
        ;
        assert(0x1F_FFFF_FFFF_FFFF * y <= 0x20_0000_0000_0000 * z);
        assert(81129638414606681695789005144064 * z <= 1622592768292133994203750292520980000 * num);
        assert(730750818665451377972204001751459814038961127424 * y <= 14615016373309034049815153203564272375854918533140000 * part);
        assert(1_000_000_000 * y <= 20_000_000_000_000 * part + whole);
    } else {
        assert(y <= 0) by (nonlinear_arith)
            requires
                x <= 0,
                whole > 0,
                y == x * whole,
        ;
    }
}

proof fn lemma_share_below(h: int, part: int, whole: int, num: int, den: int)
    requires
        0 <= h,
        0 <= part <= whole,
        0 < whole,
        0 <= num,
        0 < den,
        0x1F_FFFF_FFFF_FFFF * part <= 0x20_0000_0000_0000 * num,
        0x20_0000_0000_0000 * den <= 0x20_0000_0000_0001 * whole,
        20_000 * 0x1F_FFFF_FFFF_FFFF * 0x1F_FFFF_FFFF_FFFF * num <= 0x20_0000_0000_0000 * 0x20_0000_0000_0000 * ((2
            * h + 1) * den),
    ensures
        1_000_000_000 * (20_000 * part) <= 1_000_000_000 * ((2 * h + 1) * whole) + whole,
{
    let k: int = 0x20_0000_0000_0000;
    let k1: int = 0x20_0000_0000_0001;
    let x = 2 * h + 1;
    let y = x * whole;
    let z = x * den;
    assert(k * z <= k1 * y) by (nonlinear_arith)
        requires
            k * den <= k1 * whole,
            x > 0,
            y == x * whole,
            z == x * den,
    ;
    assert(0x20_0000_0000_0000 * z <= 0x20_0000_0000_0001 * y);
    assert(1622592768292133273627809913241620000 * num <= 81129638414606681695789005144064 * z);
    assert(14615016373309024314258543450762468881174301245420000 * part <= 730750818665451540231480830964823205616971415552 * y);
    assert(20_000_000_000_000 * part <= 1_000_000_000 * y + whole);
}

// ---------------------------------------------------------------------------------------------
// The same in single precision
// ---------------------------------------------------------------------------------------------

/// Numbers are made smaller only if they take up all bits even then.
proof fn lemma_shrink_single(num: nat, den: nat)
    requires
        0 < den,
    ensures
        shrink(num, den, Precision::Single) >= 1,
        shrink(num, den, Precision::Single) == 1 || num >= 0x80_0000 * (den * shrink(
            num,
            den,
            Precision::Single,
        )),
    decreases num - den,
{
    if num >= times_top(den, Precision::Single) {
        lemma_shrink_single(num, 2 * den);
        let t = shrink(num, 2 * den, Precision::Single);
        assert((2 * den) * t == den * (2 * t)) by (nonlinear_arith);
        if t == 1 {
            assert(den * 2 == 2 * den);
        }
    }
}

/// Numbers are made larger until they take up all bits.
proof fn lemma_grow_single(num: nat, den: nat)
    requires
        0 < num,
    ensures
        grow(num, den, Precision::Single) >= 1,
        num * grow(num, den, Precision::Single) >= 0x80_0000 * den,
    decreases 2 * times_half(den, Precision::Single) - num,
{
    if num < times_half(den, Precision::Single) {
        lemma_grow_single(2 * num, den);
        let t = grow(2 * num, den, Precision::Single);
        assert((2 * num) * t == num * (2 * t)) by (nonlinear_arith);
    } else {
        assert(num * 1 == num);
    }
}

/// A floating-point number of single precision is off by one part in 2 to the power of 24 at most, and
/// smaller integers are not off at all.
pub proof fn law_single_floats_are_close(n: nat)
    ensures
        0x100_0000 * float_of(n, Precision::Single) <= 0x100_0001 * n,
        0xFF_FFFF * n <= 0x100_0000 * float_of(n, Precision::Single),
        n < 0x100_0000 ==> float_of(n, Precision::Single) == n,
{
    lemma_shrink_single(n, 1);
    let u = shrink(n, 1, Precision::Single);
    lemma_half_even(n, u);
    assert(1 * u == u);
    if u == 1 {
        assert(n / 1 == n && n % 1 == 0);
        assert(n * 1 == n);
    }
}

proof fn lemma_significand_single(num: nat, den: nat)
    requires
        0 < num,
        0 < den,
    ensures
        ({
            let m = significand(num, den, Precision::Single);
            let u = shrink(num, den, Precision::Single);
            let s = grow(num, den, Precision::Single);
            &&& u >= 1
            &&& s >= 1
            &&& 0x100_0000 * (m * (den * u)) <= 0x100_0001 * (num * s)
            &&& 0xFF_FFFF * (num * s) <= 0x100_0000 * (m * (den * u))
        }),
{
    let u = shrink(num, den, Precision::Single);
    let s = grow(num, den, Precision::Single);
    lemma_shrink_single(num, den);
    lemma_grow_single(num, den);
    assert(den * u >= 1) by (nonlinear_arith)
        requires
            den >= 1,
            u >= 1,
    ;
    lemma_half_even(num * s, den * u);
    if u == 1 {
        assert(den * u == den);
    } else {
        assert(num * s >= num) by (nonlinear_arith)
            requires
                s >= 1,
        ;
    }
}

/// What the steps of the computation give together.
proof fn lemma_steps_above_single(h: int, s: int, f: int, u: int, m: int, num: int, den: int)
    requires
        s >= 1,
        u >= 1,
        den >= 1,
        f >= 0,
        m >= 0,
        num >= 0,
        2 * (h * s) <= 2 * (100 * (f * u)) + s,
        0x100_0000 * f <= 0x100_0001 * (100 * m),
        0x100_0000 * (m * (den * u)) <= 0x100_0001 * (num * s),
    ensures
        0x100_0000 * 0x100_0000 * ((2 * h - 1) * den) <= 20_000 * 0x100_0001
            * 0x100_0001 * num,
{
    let k: int = 0x100_0000;
    let k1: int = 0x100_0001;
    let x = 2 * h - 1;
    assert(x * s <= 200 * (f * u)) by (nonlinear_arith)
        requires
            x == 2 * h - 1,
            2 * (h * s) <= 2 * (100 * (f * u)) + s,
    ;
    assert(k * (f * u) <= 100 * k1 * (m * u)) by (nonlinear_arith)
        requires
            k * f <= k1 * (100 * m),
            u >= 1,
    ;
    assert(k * (x * s) <= 20_000 * k1 * (m * u)) by (nonlinear_arith)
        requires
            x * s <= 200 * (f * u),
            k * (f * u) <= 100 * k1 * (m * u),
            k > 0,
    ;
    assert(k * (x * s) * den <= 20_000 * k1 * (m * u) * den) by (nonlinear_arith)
        requires
            k * (x * s) <= 20_000 * k1 * (m * u),
            den >= 1,
    ;
    assert((m * u) * den == m * (den * u)) by (nonlinear_arith);
    assert(20_000 * k1 * (m * u) * den == 20_000 * k1 * (m * (den * u))) by (nonlinear_arith)
        requires
            (m * u) * den == m * (den * u),
    ;
    assert(k * (x * s) * den == k * ((x * den) * s)) by (nonlinear_arith);
    assert(k * k * ((x * den) * s) <= 20_000 * k1 * k1 * (num * s)) by (nonlinear_arith)
        requires
            k * ((x * den) * s) <= 20_000 * k1 * (m * (den * u)),
            k * (m * (den * u)) <= k1 * (num * s),
            k > 0,
            k1 > 0,
    ;
    assert(k * k * (x * den) <= 20_000 * k1 * k1 * num) by (nonlinear_arith)
        requires
            k * k * ((x * den) * s) <= 20_000 * k1 * k1 * (num * s),
            s >= 1,
    ;
}

proof fn lemma_steps_below_single(h: int, s: int, f: int, u: int, m: int, num: int, den: int)
    requires
        s >= 1,
        u >= 1,
        den >= 1,
        f >= 0,
        m >= 0,
        num >= 0,
        2 * (100 * (f * u)) <= 2 * (h * s) + s,
        0xFF_FFFF * (100 * m) <= 0x100_0000 * f,
        0xFF_FFFF * (num * s) <= 0x100_0000 * (m * (den * u)),
    ensures
        20_000 * 0xFF_FFFF * 0xFF_FFFF * num <= 0x100_0000 * 0x100_0000 * ((2
            * h + 1) * den),
{
    let k: int = 0x100_0000;
    let k0: int = 0xFF_FFFF;
    let x = 2 * h + 1;
    assert(200 * (f * u) <= x * s) by (nonlinear_arith)
        requires
            x == 2 * h + 1,
            2 * (100 * (f * u)) <= 2 * (h * s) + s,
    ;
    assert(100 * k0 * (m * u) <= k * (f * u)) by (nonlinear_arith)
        requires
            k0 * (100 * m) <= k * f,
            u >= 1,
    ;
    assert(20_000 * k0 * (m * u) <= k * (x * s)) by (nonlinear_arith)
        requires
            200 * (f * u) <= x * s,
            100 * k0 * (m * u) <= k * (f * u),
            k > 0,
    ;
    assert(20_000 * k0 * (m * u) * den <= k * (x * s) * den) by (nonlinear_arith)
        requires
            20_000 * k0 * (m * u) <= k * (x * s),
            den >= 1,
    ;
    assert((m * u) * den == m * (den * u)) by (nonlinear_arith);
    assert(20_000 * k0 * (m * u) * den == 20_000 * k0 * (m * (den * u))) by (nonlinear_arith)
        requires
            (m * u) * den == m * (den * u),
    ;
    assert(k * (x * s) * den == k * ((x * den) * s)) by (nonlinear_arith);
    assert(20_000 * k0 * k0 * (num * s) <= k * k * ((x * den) * s)) by (nonlinear_arith)
        requires
            20_000 * k0 * (m * (den * u)) <= k * ((x * den) * s),
            k0 * (num * s) <= k * (m * (den * u)),
            k > 0,
            k0 > 0,
    ;
    assert(20_000 * k0 * k0 * num <= k * k * (x * den)) by (nonlinear_arith)
        requires
            20_000 * k0 * k0 * (num * s) <= k * k * ((x * den) * s),
            s >= 1,
    ;
}

proof fn lemma_nothing_single(den: nat)
    requires
        den >= 1,
    ensures
        percent_of(0, den, Precision::Single, 100) == 0,
{
    let p = Precision::Single;
    assert(grow(0, den, p) == 1);
    assert(shrink(0, den, p) == 1);
    assert(den * 1 == den);
    assert(0 * 1nat == 0);
    assert(half_even(0, den) == 0) by {
        assert(0nat / den == 0 && 0nat % den == 0) by (nonlinear_arith)
            requires
                den >= 1,
        ;
    }
    assert(significand(0, den, p) == 0);
    assert(shrink(0, 1, p) == 1);
    assert(float_of(0, p) == 0);
    assert(100 * (0nat * 1nat) == 0);
    assert(half_even(0, 1) == 0);
}

/// A share that is worked out in single precision is, in hundredths of a percent, 10000 times the part
/// divided by the whole, rounded to the nearest integer: it is off by one half at most, and by a
/// hundredth that floating-point numbers lose on the way.
pub proof fn law_single_share_is_part_of_whole(part: nat, whole: nat)
    requires
        0 < whole,
        part <= whole,
    ensures
        ({
            let h = percent_of(
                float_of(part, Precision::Single),
                float_of(whole, Precision::Single),
                Precision::Single,
                100,
            );
            &&& 100 * ((2 * h - 1) * whole) <= 100 * (20_000 * part) + whole
            &&& 100 * (20_000 * part) <= 100 * ((2 * h + 1) * whole) + whole
        }),
{
    let p = Precision::Single;
    let num = float_of(part, p);
    let den = float_of(whole, p);
    let h = percent_of(num, den, p, 100);
    law_single_floats_are_close(part);
    law_single_floats_are_close(whole);
    assert(den >= 1);
    if num == 0 {
        assert(part == 0);
        lemma_nothing_single(den);
        assert((2 * h - 1) * whole == -whole) by (nonlinear_arith)
            requires
                h == 0,
        ;
        assert((2 * h + 1) * whole == whole) by (nonlinear_arith)
            requires
                h == 0,
        ;
    } else {
        let m = significand(num, den, p);
        let u = shrink(num, den, p);
        let s = grow(num, den, p);
        let f = float_of(100 * m, p);
        lemma_significand_single(num, den);
        law_single_floats_are_close(100 * m);
        lemma_half_even(100 * (f * u), s);
        lemma_steps_above_single(h as int, s as int, f as int, u as int, m as int, num as int, den as int);
        lemma_steps_below_single(h as int, s as int, f as int, u as int, m as int, num as int, den as int);
        lemma_share_above_single(h as int, part as int, whole as int, num as int, den as int);
        lemma_share_below_single(h as int, part as int, whole as int, num as int, den as int);
    }
}

proof fn lemma_share_above_single(h: int, part: int, whole: int, num: int, den: int)
    requires
        0 <= part <= whole,
        0 < whole,
        0 <= num,
        0 < den,
        0x100_0000 * num <= 0x100_0001 * part,
        0xFF_FFFF * whole <= 0x100_0000 * den,
        0x100_0000 * 0x100_0000 * ((2 * h - 1) * den) <= 20_000 * 0x100_0001 * 0x100_0001 * num,
    ensures
        100 * ((2 * h - 1) * whole) <= 100 * (20_000 * part) + whole,
{
    let k: int = 0x100_0000;
    let k0: int = 0xFF_FFFF;
    let x = 2 * h - 1;
    let y = x * whole;
    let z = x * den;
    if x > 0 {
        assert(k0 * y <= k * z) by (nonlinear_arith)
            requires
                k0 * whole <= k * den,
                x > 0,
                y == x * whole,
                z == x * den,
        ;
        assert(0xFF_FFFF * y <= 0x100_0000 * z);
        assert(281474976710656 * z <= 5629500205301780000 * num);
        assert(4722366201394668503040 * y <= 94447346545892513546260000 * part);
        assert(100 * y <= 2_000_000 * part + whole);
    } else {
        assert(y <= 0) by (nonlinear_arith)
            requires
                x <= 0,
                whole > 0,
                y == x * whole,
        ;
    }
}

proof fn lemma_share_below_single(h: int, part: int, whole: int, num: int, den: int)
    requires
        0 <= h,
        0 <= part <= whole,
        0 < whole,
        0 <= num,
        0 < den,
        0xFF_FFFF * part <= 0x100_0000 * num,
        0x100_0000 * den <= 0x100_0001 * whole,
        20_000 * 0xFF_FFFF * 0xFF_FFFF * num <= 0x100_0000 * 0x100_0000 * ((2 * h + 1) * den),
    ensures
        100 * (20_000 * part) <= 100 * ((2 * h + 1) * whole) + whole,
{
    let k: int = 0x100_0000;
    let k1: int = 0x100_0001;
    let x = 2 * h + 1;
    let y = x * whole;
    let z = x * den;
    assert(k * z <= k1 * y) by (nonlinear_arith)
        requires
            k * den <= k1 * whole,
            x > 0,
            y == x * whole,
            z == x * den,
    ;
    assert(0x100_0000 * z <= 0x100_0001 * y);
    assert(5629498863124500000 * num <= 281474976710656 * z);
    assert(94447312768895308267500000 * part <= 4722366764344621924352 * y);
    assert(2_000_000 * part <= 100 * y + whole);
}


/// The same share in finer parts is the same share: `k` of the finer parts are one of the coarser, up
/// to the rounding of both.
pub proof fn law_finer_shares_agree(num: nat, den: nat, p: Precision, scale: nat, k: nat)
    requires
        num > 0,
        den > 0,
        k > 0,
    ensures
        2 * (k * percent_of(num, den, p, scale) - percent_of(num, den, p, k * scale)) <= k + 1,
        2 * (percent_of(num, den, p, k * scale) - k * percent_of(num, den, p, scale)) <= k + 1,
{
    let s = grow(num, den, p);
    match p {
        Precision::Double => {
            lemma_grow(num, den);
        },
        Precision::Single => {
            lemma_grow_single(num, den);
        },
    }
    let x = float_of(100 * significand(num, den, p), p) * shrink(num, den, p);
    let a = percent_of(num, den, p, k * scale);
    let b = percent_of(num, den, p, scale);
    lemma_half_even((k * scale) * x, s);
    lemma_half_even(scale * x, s);
    lemma_finer(a as int, b as int, k as int, scale as int, x as int, s as int);
}

proof fn lemma_finer(a: int, b: int, k: int, scale: int, x: int, s: int)
    requires
        k > 0,
        s >= 1,
        2 * (a * s - (k * scale) * x) <= s,
        2 * ((k * scale) * x - a * s) <= s,
        2 * (b * s - scale * x) <= s,
        2 * (scale * x - b * s) <= s,
    ensures
        2 * (k * b - a) <= k + 1,
        2 * (a - k * b) <= k + 1,
{
    let y = scale * x;
    assert((k * scale) * x == k * y) by (nonlinear_arith)
        requires
            y == scale * x,
    ;
    assert(k * (2 * (b * s - y)) <= k * s) by (nonlinear_arith)
        requires
            2 * (b * s - y) <= s,
            k > 0,
    ;
    assert(k * (2 * (y - b * s)) <= k * s) by (nonlinear_arith)
        requires
            2 * (y - b * s) <= s,
            k > 0,
    ;
    assert(k * (2 * (b * s - y)) == 2 * ((k * b) * s) - 2 * (k * y)) by (nonlinear_arith);
    assert(k * (2 * (y - b * s)) == 2 * (k * y) - 2 * ((k * b) * s)) by (nonlinear_arith);
    let d = k * b - a;
    assert(d * s == (k * b) * s - a * s) by (nonlinear_arith)
        requires
            d == k * b - a,
    ;
    assert(k * s + s == (k + 1) * s) by (nonlinear_arith);
    assert(2 * (d * s) <= (k + 1) * s);
    assert(-2 * (d * s) <= (k + 1) * s);
    assert(2 * d <= k + 1) by (nonlinear_arith)
        requires
            2 * (d * s) <= (k + 1) * s,
            s >= 1,
    ;
    assert(-2 * d <= k + 1) by (nonlinear_arith)
        requires
            -2 * (d * s) <= (k + 1) * s,
            s >= 1,
    ;
}

/// A quotient in hundredths is a hundred times the one number divided by the other, rounded to the
/// nearest integer: it is off by one half at most, and by what floating-point numbers lose.
pub proof fn law_quotients_are_near(num: nat, den: nat)
    requires
        num > 0,
        den > 0,
    ensures
        ({
            let h = quotient_hundredths(num, den, Precision::Double);
            &&& 0x20_0000_0000_0000 * ((2 * h - 1) * den) <= 0x20_0000_0000_0001 * (200 * num)
            &&& 0x1F_FFFF_FFFF_FFFF * (200 * num) <= 0x20_0000_0000_0000 * ((2 * h + 1) * den)
        }),
{
    let p = Precision::Double;
    let m = significand(num, den, p);
    let u = shrink(num, den, p);
    let s = grow(num, den, p);
    lemma_significand(num, den);
    lemma_half_even(100 * (m * u), s);
    let h = quotient_hundredths(num, den, p);
    lemma_quotient(h as int, s as int, u as int, m as int, num as int, den as int);
}

proof fn lemma_quotient(h: int, s: int, u: int, m: int, num: int, den: int)
    requires
        s >= 1,
        den >= 1,
        2 * (h * s - 100 * (m * u)) <= s,
        2 * (100 * (m * u) - h * s) <= s,
        0x20_0000_0000_0000 * (m * (den * u)) <= 0x20_0000_0000_0001 * (num * s),
        0x1F_FFFF_FFFF_FFFF * (num * s) <= 0x20_0000_0000_0000 * (m * (den * u)),
    ensures
        0x20_0000_0000_0000 * ((2 * h - 1) * den) <= 0x20_0000_0000_0001 * (200 * num),
        0x1F_FFFF_FFFF_FFFF * (200 * num) <= 0x20_0000_0000_0000 * ((2 * h + 1) * den),
{
    let x = m * u;
    assert(m * (den * u) == x * den) by (nonlinear_arith)
        requires
            x == m * u,
    ;
    let below = (2 * h - 1) * den;
    let above = (2 * h + 1) * den;
    assert(below * s <= 200 * (x * den)) by (nonlinear_arith)
        requires
            below == (2 * h - 1) * den,
            2 * (h * s - 100 * x) <= s,
            den >= 1,
    ;
    assert(200 * (x * den) <= above * s) by (nonlinear_arith)
        requires
            above == (2 * h + 1) * den,
            2 * (100 * x - h * s) <= s,
            den >= 1,
    ;
    assert(0x20_0000_0000_0000 * (below * s) <= 0x20_0000_0000_0001 * (200 * (num * s)));
    assert(0x1F_FFFF_FFFF_FFFF * (200 * (num * s)) <= 0x20_0000_0000_0000 * (above * s));
    assert(0x20_0000_0000_0000 * below <= 0x20_0000_0000_0001 * (200 * num)) by (nonlinear_arith)
        requires
            0x20_0000_0000_0000 * (below * s) <= 0x20_0000_0000_0001 * (200 * (num * s)),
            s >= 1,
    ;
    assert(0x1F_FFFF_FFFF_FFFF * (200 * num) <= 0x20_0000_0000_0000 * above) by (nonlinear_arith)
        requires
            0x1F_FFFF_FFFF_FFFF * (200 * (num * s)) <= 0x20_0000_0000_0000 * (above * s),
            s >= 1,
    ;
}

} // verus!
