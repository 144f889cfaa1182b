//! Single-precision numbers, worked in integers.
//!
//! The game is stated in IEEE 754 binary32: positions in pixels, times in
//! seconds, chances and shares. Each operation takes its exact result to the
//! nearest single, ties to the even one, and that is all that is said of it
//! here: a game played twice from the same inputs is the same game to the last
//! bit, on every machine, and what it does can be reasoned about.
use vstd::arithmetic::div_mod::*;
use vstd::arithmetic::mul::*;
use vstd::arithmetic::power2::*;
use vstd::prelude::*;

verus! {

/// A single, by its 32-bit pattern: a sign bit, eight bits of exponent and 23
/// of fraction.
#[derive(Clone, Copy, PartialEq, Eq, Structural, Debug)]
pub struct Single {
    pub bits: u32,
}

/// The integer nearest to `n / d`, ties to the even one.
pub open spec fn half_even(n: nat, d: nat) -> nat {
    let q = n / d;
    let r = n % d;
    if 2 * r > d || (2 * r == d && q % 2 == 1) {
        q + 1
    } else {
        q
    }
}

/// The least `j` for which `n / (d * 2^j)` is less than `2^24`: the place of
/// the last bit that a 24-bit significand of `n / d` keeps.
pub open spec fn fit(n: nat, d: nat) -> nat
    decreases
            if n >= 0x100_0000 * d {
                n - 0x100_0000 * d + 1
            } else {
                0
            },
{
    if d == 0 || n < 0x100_0000 * d {
        0
    } else {
        1 + fit(n, 2 * d)
    }
}

/// A place that keeps less than `2^24`, while the place before it does not, is
/// the one that `fit` gives.
pub proof fn lemma_fit_unique(n: nat, d: nat, j: nat)
    requires
        d > 0,
        n < 0x100_0000 * (d * pow2(j)),
        j == 0 || n >= 0x100_0000 * (d * pow2((j - 1) as nat)),
    ensures
        fit(n, d) == j,
    decreases j,
{
    lemma2_to64();
    lemma_mul_basics(d as int);
    if j > 0 {
        let i: nat = (j - 1) as nat;
        lemma_pow2_pos(i);
        assert(d * pow2(i) >= d) by (nonlinear_arith)
            requires
                pow2(i) >= 1,
        ;
        lemma_pow2_unfold(j);
        assert(d * (2 * pow2(i)) == (2 * d) * pow2(i)) by (nonlinear_arith);
        if i > 0 {
            let h: nat = (i - 1) as nat;
            lemma_pow2_unfold(i);
            assert(d * (2 * pow2(h)) == (2 * d) * pow2(h)) by (nonlinear_arith);
        }
        lemma_fit_unique(n, 2 * d, i);
    }
}

/// `fit` keeps less than `2^24`, and the place before it does not.
pub proof fn lemma_fit(n: nat, d: nat)
    requires
        d > 0,
    ensures
        n < 0x100_0000 * (d * pow2(fit(n, d))),
        fit(n, d) == 0 || n >= 0x100_0000 * (d * pow2((fit(n, d) - 1) as nat)),
    decreases
            if n >= 0x100_0000 * d {
                n - 0x100_0000 * d + 1
            } else {
                0
            },
{
    lemma2_to64();
    lemma_mul_basics(d as int);
    if n >= 0x100_0000 * d {
        let i = fit(n, 2 * d);
        lemma_fit(n, 2 * d);
        lemma_pow2_unfold(i + 1);
        assert(d * (2 * pow2(i)) == (2 * d) * pow2(i)) by (nonlinear_arith);
        if i > 0 {
            let h: nat = (i - 1) as nat;
            lemma_pow2_unfold(i);
            assert(d * (2 * pow2(h)) == (2 * d) * pow2(h)) by (nonlinear_arith);
        }
    }
}

/// A ratio rounds as it does in any other terms.
proof fn lemma_half_even_scale(n: nat, d: nat, c: nat)
    requires
        d > 0,
        c > 0,
    ensures
        half_even(n * c, d * c) == half_even(n, d),
{
    let q = n / d;
    let r = n % d;
    lemma_fundamental_div_mod(n as int, d as int);
    assert(r < d) by {
        lemma_mod_bound(n as int, d as int);
    }
    assert(n * c == q * (d * c) + r * c) by (nonlinear_arith)
        requires
            n == d * q + r,
    ;
    assert(0 <= r * c < d * c) by (nonlinear_arith)
        requires
            0 <= r < d,
            c > 0,
    ;
    lemma_fundamental_div_mod_converse((n * c) as int, (d * c) as int, q as int, (r * c) as int);
    assert((2 * r > d) == (2 * (r * c) > d * c)) by (nonlinear_arith)
        requires
            c > 0,
    ;
    assert((2 * r == d) == (2 * (r * c) == d * c)) by (nonlinear_arith)
        requires
            c > 0,
    ;
}

/// `1u128 << k` is the power of two.
proof fn lemma_shift_is_power(k: u32)
    requires
        k < 128,
    ensures
        (1u128 << k) == pow2(k as nat),
    decreases k,
{
    if k == 0 {
        assert(1u128 << 0u32 == 1u128) by (bit_vector);
        lemma2_to64();
    } else {
        let j: u32 = (k - 1) as u32;
        lemma_shift_is_power(j);
        lemma_pow2_unfold(k as nat);
        assert((1u128 << k) == 2 * (1u128 << j)) by (bit_vector)
            requires
                0 < k < 128,
                j == k - 1,
        ;
    }
}

/// `2^k`.
fn two_to(k: u32) -> (p: u128)
    requires
        k < 128,
    ensures
        p == pow2(k as nat),
{
    proof {
        lemma_shift_is_power(k);
    }
    1u128 << k
}

/// `2^a <= 2^b` for `a <= b`.
proof fn lemma_power_order(a: nat, b: nat)
    requires
        a <= b,
    ensures
        1 <= pow2(a) <= pow2(b),
{
    lemma_pow2_pos(a);
    if a < b {
        lemma_pow2_strictly_increases(a, b);
    }
}

impl Single {
    /// The sign bit is set.
    pub open spec fn neg(self) -> bool {
        self.bits >= 0x8000_0000
    }

    /// The exponent bits.
    pub open spec fn top(self) -> nat {
        ((self.bits / 0x80_0000) % 256) as nat
    }

    /// The pattern stands for no number.
    pub open spec fn nan(self) -> bool {
        self.bits % 0x8000_0000 > 0x7f80_0000
    }

    /// The pattern stands for an infinity.
    pub open spec fn infinite(self) -> bool {
        self.bits % 0x8000_0000 == 0x7f80_0000
    }

    /// The pattern stands for a number.
    pub open spec fn finite(self) -> bool {
        self.bits % 0x8000_0000 < 0x7f80_0000
    }

    /// The significand of a number.
    pub open spec fn sig(self) -> nat {
        if self.top() == 0 {
            (self.bits % 0x80_0000) as nat
        } else {
            (0x80_0000 + self.bits % 0x80_0000) as nat
        }
    }

    /// The place of the significand's last bit, counted from `2^-149`, the
    /// least single over zero.
    pub open spec fn lift(self) -> nat {
        if self.top() == 0 {
            0
        } else {
            (self.top() - 1) as nat
        }
    }

    /// The size of a number as a multiple of `2^-149`. Every number is one.
    pub open spec fn size(self) -> nat {
        self.sig() * pow2(self.lift())
    }

    /// A number as a multiple of `2^-149`.
    pub open spec fn value(self) -> int {
        if self.neg() {
            -(self.size() as int)
        } else {
            self.size() as int
        }
    }

    /// The number nearest to `n / d` times `2^-149`, with the given sign.
    #[verifier::opaque]
    pub open spec fn rounded(neg: bool, n: nat, d: nat) -> Single {
        let j = fit(n, d);
        // A significand that rounds up to 2^24 carries into the exponent.
        let b = j * 0x80_0000 + half_even(n, d * pow2(j));
        Single::signed(
            neg,
            if b >= 0x7f80_0000 {
                0x7f80_0000
            } else {
                b as u32
            },
        )
    }

    /// A pattern without a sign, given one.
    pub open spec fn signed(neg: bool, bits: u32) -> Single {
        Single {
            bits: if neg {
                (bits + 0x8000_0000) as u32
            } else {
                bits
            },
        }
    }

    /// A pattern without a sign, given one.
    fn sign(neg: bool, bits: u32) -> (r: Single)
        requires
            bits < 0x8000_0000,
        ensures
            r == Single::signed(neg, bits),
    {
        Single {
            bits: if neg {
                bits + 0x8000_0000
            } else {
                bits
            },
        }
    }

    /// No number.
    pub open spec fn nan_spec() -> Single {
        Single { bits: 0x7fc0_0000 }
    }

    /// The number nearest to `n * 2^up / (d * 2^down)` times `2^-149`.
    fn round(neg: bool, n: u128, d: u128, up: u32, down: u32) -> (r: Single)
        requires
            1 <= d < 0x100_0000,
            n < 0x400_0000_0000_0000_0000_0000,
            up == 0 || down == 0,
            up <= 600,
            down <= 600,
            d == 1 || n >= 0x100_0000 * d,
        ensures
            r == Single::rounded(neg, n as nat * pow2(up as nat), d as nat * pow2(down as nat)),
    {
        let ghost big = n as nat * pow2(up as nat);
        let ghost div = d as nat * pow2(down as nat);
        proof {
            lemma2_to64();
            lemma2_to64_rest();
            lemma_pow2_pos(up as nat);
            lemma_pow2_pos(down as nat);
            assert(div > 0) by (nonlinear_arith)
                requires
                    div == d * pow2(down as nat),
                    d >= 1,
                    pow2(down as nat) >= 1,
            ;
            reveal(Single::rounded);
        }
        if down > 100 {
            proof {
                lemma_pow2_adds(64, 37);
                lemma_power_order(101, down as nat);
                assert(div >= pow2(101)) by (nonlinear_arith)
                    requires
                        div == d * pow2(down as nat),
                        d >= 1,
                        pow2(down as nat) >= pow2(101),
                ;
                lemma_mul_basics(n as int);
                lemma_mul_basics(div as int);
                lemma_fit_unique(big, div, 0);
                lemma_small_mod(big, div);
                lemma_basic_div(big as int, div as int);
            }
            return Single::sign(neg, 0);
        }
        let mut s: u32 = down;
        let p: u128 = two_to(down);
        proof {
            lemma_pow2_adds(64, 36);
            lemma_power_order(down as nat, 100);
            assert(d * pow2(down as nat) <= 0xff_ffff * pow2(100)) by (nonlinear_arith)
                requires
                    d <= 0xff_ffff,
                    0 <= pow2(down as nat) <= pow2(100),
            ;
        }
        let mut x: u128 = d * p;
        while x <= n / 0x100_0000
            invariant
                down <= s <= down + 70,
                down <= 100,
                d >= 1,
                n < 0x400_0000_0000_0000_0000_0000,
                x >= 1,
                x == d * pow2(s as nat),
                s > down ==> n >= 0x100_0000 * (d * pow2((s - 1) as nat)),
                s > down ==> x >= pow2((s - down) as nat),
            decreases 70 + down - s,
        {
            proof {
                lemma_pow2_unfold((s + 1) as nat);
                assert(d * (2 * pow2(s as nat)) == 2 * (d * pow2(s as nat))) by (nonlinear_arith);
                lemma_pow2_unfold((s + 1 - down) as nat);
                lemma2_to64();
                lemma2_to64_rest();
                if s - down >= 67 {
                    lemma_pow2_adds(64, 3);
                    lemma_power_order(67, (s - down) as nat);
                }
            }
            x = x * 2;
            s = s + 1;
        }
        if s == 0 && up > 0 {
            // A short significand: it keeps all its bits, as high as they go.
            let mut m: u128 = n;
            let mut u: u32 = up;
            assert(d == 1) by {
                lemma_mul_basics(d as int);
                assert(x == d);
            }
            while m < 0x80_0000 && u > 0
                invariant
                    u <= up,
                    m < 0x100_0000,
                    m * pow2(u as nat) == n * pow2(up as nat),
                decreases u,
            {
                proof {
                    lemma_pow2_unfold(u as nat);
                    assert(m * (2 * pow2((u - 1) as nat)) == (2 * m) * pow2((u - 1) as nat))
                        by (nonlinear_arith);
                }
                m = m * 2;
                u = u - 1;
            }
            proof {
                let p = pow2(u as nat);
                lemma_pow2_pos(u as nat);
                assert(div == 1);
                assert(big < 0x100_0000 * (1 * p)) by (nonlinear_arith)
                    requires
                        big == m * p,
                        m < 0x100_0000,
                        p >= 1,
                ;
                if u > 0 {
                    lemma_pow2_unfold(u as nat);
                    let h = pow2((u - 1) as nat);
                    assert(big >= 0x100_0000 * (1 * h)) by (nonlinear_arith)
                        requires
                            big == m * (2 * h),
                            m >= 0x80_0000,
                    ;
                }
                lemma_fit_unique(big, 1, u as nat);
                lemma_half_even_scale(m as nat, 1, p);
            }
            let b: u64 = u as u64 * 0x80_0000 + m as u64;
            return Single::sign(
                neg,
                if b >= 0x7f80_0000 {
                    0x7f80_0000
                } else {
                    b as u32
                },
            );
        }
        let j: u32 = up + s - down;
        let q: u128 = n / x;
        let rem: u128 = n % x;
        let m: u128 = if rem > x - rem || (rem == x - rem && q % 2 == 1) {
            q + 1
        } else {
            q
        };
        proof {
            let p = pow2(up as nat);
            assert(div * pow2(j as nat) == x * p) by {
                lemma_pow2_adds(down as nat, j as nat);
                lemma_pow2_adds(s as nat, up as nat);
                assert(d * pow2(down as nat) * pow2(j as nat) == d * (pow2(down as nat) * pow2(
                    j as nat,
                ))) by (nonlinear_arith);
                assert(d * pow2(s as nat) * p == d * (pow2(s as nat) * p)) by (nonlinear_arith);
            }
            lemma_half_even_scale(n as nat, x as nat, p);
            assert(m == half_even(n as nat, x as nat));
            assert(n < 0x100_0000 * x);
            assert(big < 0x100_0000 * (x * p)) by (nonlinear_arith)
                requires
                    big == n * p,
                    n < 0x100_0000 * x,
                    p >= 1,
            ;
            if j > 0 {
                assert(s > down);
                lemma_pow2_adds(down as nat, (j - 1) as nat);
                lemma_pow2_adds((s - 1) as nat, up as nat);
                let h = d * pow2((s - 1) as nat);
                assert(div * pow2((j - 1) as nat) == h * p) by {
                    assert(d * pow2(down as nat) * pow2((j - 1) as nat) == d * (pow2(down as nat)
                        * pow2((j - 1) as nat))) by (nonlinear_arith);
                    assert(d * pow2((s - 1) as nat) * p == d * (pow2((s - 1) as nat) * p))
                        by (nonlinear_arith);
                }
                assert(big >= 0x100_0000 * (h * p)) by (nonlinear_arith)
                    requires
                        big == n * p,
                        n >= 0x100_0000 * h,
                        p >= 1,
                ;
            }
            lemma_fit_unique(big, div, j as nat);
            assert(q < 0x100_0000) by (nonlinear_arith)
                requires
                    q == n / x,
                    n < 0x100_0000 * x,
                    x >= 1,
            ;
        }
        let b: u64 = j as u64 * 0x80_0000 + m as u64;
        Single::sign(
            neg,
            if b >= 0x7f80_0000 {
                0x7f80_0000
            } else {
                b as u32
            },
        )
    }
}

/// A rounded ratio is the same in any other terms.
proof fn lemma_rounded_scale(neg: bool, n: nat, d: nat, c: nat)
    requires
        d > 0,
        c > 0,
    ensures
        Single::rounded(neg, n * c, d * c) == Single::rounded(neg, n, d),
{
    reveal(Single::rounded);
    let j = fit(n, d);
    lemma_fit(n, d);
    lemma_pow2_pos(j);
    assert(d * c > 0) by (nonlinear_arith)
        requires
            d > 0,
            c > 0,
    ;
    let p = pow2(j);
    assert((d * c) * p == (d * p) * c) by (nonlinear_arith);
    assert(n * c < 0x100_0000 * ((d * p) * c)) by (nonlinear_arith)
        requires
            n < 0x100_0000 * (d * p),
            c > 0,
    ;
    if j > 0 {
        let h = pow2((j - 1) as nat);
        assert((d * c) * h == (d * h) * c) by (nonlinear_arith);
        assert(n * c >= 0x100_0000 * ((d * h) * c)) by (nonlinear_arith)
            requires
                n >= 0x100_0000 * (d * h),
                c > 0,
        ;
    }
    lemma_fit_unique(n * c, d * c, j);
    assert(d * p > 0) by (nonlinear_arith)
        requires
            d > 0,
            p > 0,
    ;
    lemma_half_even_scale(n, d * p, c);
}

/// A number is made of its sign, its place and its significand.
pub proof fn lemma_parts(s: Single)
    requires
        s.finite(),
    ensures
        s.top() < 255,
        s.lift() <= 253,
        s.sig() < 0x100_0000,
        s.lift() > 0 ==> s.sig() >= 0x80_0000,
        s.lift() * 0x80_0000 + s.sig() == s.bits % 0x8000_0000,
        s == Single::signed(s.neg(), (s.lift() * 0x80_0000 + s.sig()) as u32),
{
}

/// Next to a number that is `2^65` times as large at its last bit, a number
/// does not count: the sum rounds to the larger one.
proof fn lemma_far(s: Single, g: nat, y: nat, less: bool)
    requires
        s.finite(),
        65 <= g <= s.lift(),
        y < 0x100_0000,
    ensures
        ({
            let x = s.sig() * pow2(g);
            let n = if less {
                (x - y) as nat
            } else {
                x + y
            };
            &&& y < x
            &&& Single::rounded(s.neg(), n * pow2((s.lift() - g) as nat), 1) == s
        }),
{
    reveal(Single::rounded);
    lemma_parts(s);
    let a = s.sig();
    let l = s.lift();
    let p = pow2(g);
    let x = a * p;
    let low = pow2((l - g) as nat);
    lemma2_to64();
    lemma2_to64_rest();
    lemma_power_order(64, (g - 1) as nat);
    lemma_pow2_unfold(g);
    lemma_pow2_pos((l - g) as nat);
    lemma_pow2_adds(g, (l - g) as nat);
    lemma_mul_basics(pow2(l) as int);
    lemma_mul_basics(pow2((l - 1) as nat) as int);
    lemma_pow2_unfold(l);
    let n = if less {
        (x - y) as nat
    } else {
        x + y
    };
    assert(x >= 0x80_0000 * p && x <= 0xff_ffff * p) by (nonlinear_arith)
        requires
            x == a * p,
            0x80_0000 <= a <= 0xff_ffff,
            p >= 1,
    ;
    let full = n * low;
    assert(0x100_0000 * (p * low) == (0x100_0000 * p) * low) by (nonlinear_arith);
    assert(0x80_0000 * (p * low) == (0x80_0000 * p) * low) by (nonlinear_arith);
    assert(0x40_0000 * (p * low) == (0x40_0000 * p) * low) by (nonlinear_arith);
    assert(full < 0x100_0000 * (p * low)) by (nonlinear_arith)
        requires
            full == n * low,
            n < 0x100_0000 * p,
            low >= 1,
    ;
    if less && a == 0x80_0000 && y > 0 {
        // Just under a power of two: the place is one lower.
        assert(n < 0x80_0000 * p && n >= 0x40_0000 * p);
        assert(full < 0x80_0000 * (p * low)) by (nonlinear_arith)
            requires
                full == n * low,
                n < 0x80_0000 * p,
                low >= 1,
        ;
        assert(full >= 0x40_0000 * (p * low)) by (nonlinear_arith)
            requires
                full == n * low,
                n >= 0x40_0000 * p,
                low >= 1,
        ;
        let h = pow2((g - 1) as nat);
        lemma_pow2_unfold((l - 1) as nat);
        lemma_mul_basics(pow2((l - 2) as nat) as int);
        lemma_fit_unique(full, 1, (l - 1) as nat);
        lemma_pow2_adds((g - 1) as nat, (l - g) as nat);
        lemma_half_even_scale(n, h, low);
        assert(n == 0xff_ffff * h + (h - y)) by (nonlinear_arith)
            requires
                n == x - y,
                x == 0x80_0000 * p,
                p == 2 * h,
        ;
        lemma_fundamental_div_mod_converse(n as int, h as int, 0xff_ffff, (h - y) as int);
        assert(half_even(full, pow2((l - 1) as nat)) == 0x100_0000);
    } else {
        if less && y > 0 {
            assert(x >= 0x80_0001 * p) by (nonlinear_arith)
                requires
                    x == a * p,
                    a >= 0x80_0001,
                    p >= 1,
            ;
        }
        assert(full >= 0x80_0000 * (p * low)) by (nonlinear_arith)
            requires
                full == n * low,
                n >= 0x80_0000 * p,
                low >= 1,
        ;
        lemma_fit_unique(full, 1, l);
        lemma_half_even_scale(n, p, low);
        if less && y > 0 {
            assert(n == (a - 1) * p + (p - y)) by (nonlinear_arith)
                requires
                    n == x - y,
                    x == a * p,
            ;
            lemma_fundamental_div_mod_converse(n as int, p as int, a - 1, (p - y) as int);
        } else {
            lemma_fundamental_div_mod_converse(n as int, p as int, a as int, y as int);
        }
        assert(half_even(full, pow2(l)) == a);
    }
}

impl Single {
    /// The significand.
    fn significand(self) -> (m: u32)
        requires
            self.finite(),
        ensures
            m == self.sig(),
    {
        let top: u32 = (self.bits / 0x80_0000) % 256;
        if top == 0 {
            self.bits % 0x80_0000
        } else {
            0x80_0000 + self.bits % 0x80_0000
        }
    }

    /// The place of the significand's last bit.
    fn place(self) -> (l: u32)
        requires
            self.finite(),
        ensures
            l == self.lift(),
    {
        let top: u32 = (self.bits / 0x80_0000) % 256;
        if top == 0 {
            0
        } else {
            top - 1
        }
    }

    /// Whether this is a number.
    pub fn is_finite(self) -> (b: bool)
        ensures
            b == self.finite(),
    {
        self.bits % 0x8000_0000 < 0x7f80_0000
    }

    /// The sum.
    #[verifier::opaque]
    pub open spec fn plus_spec(self, other: Single) -> Single {
        if self.nan() || other.nan() {
            Single::nan_spec()
        } else if self.infinite() {
            if other.infinite() && self.neg() != other.neg() {
                Single::nan_spec()
            } else {
                self
            }
        } else if other.infinite() {
            other
        } else {
            let u = self.value() + other.value();
            if u == 0 {
                Single::signed(self.neg() && other.neg(), 0)
            } else if u < 0 {
                Single::rounded(true, (-u) as nat, 1)
            } else {
                Single::rounded(false, u as nat, 1)
            }
        }
    }

    /// The sum.
    pub fn plus(self, other: Single) -> (r: Single)
        ensures
            r == self.plus_spec(other),
    {
        proof {
            reveal(Single::plus_spec);
        }
        let a: u32 = self.bits % 0x8000_0000;
        let b: u32 = other.bits % 0x8000_0000;
        if a > 0x7f80_0000 || b > 0x7f80_0000 {
            return Single { bits: 0x7fc0_0000 };
        }
        let a_neg: bool = self.bits >= 0x8000_0000;
        let b_neg: bool = other.bits >= 0x8000_0000;
        if a == 0x7f80_0000 {
            if b == 0x7f80_0000 && a_neg != b_neg {
                return Single { bits: 0x7fc0_0000 };
            }
            return self;
        }
        if b == 0x7f80_0000 {
            return other;
        }
        if self.place() >= other.place() {
            self.sum(other)
        } else {
            other.sum(self)
        }
    }

    /// The sum of two numbers, the first in the higher place.
    fn sum(self, other: Single) -> (r: Single)
        requires
            self.finite(),
            other.finite(),
            self.lift() >= other.lift(),
        ensures
            r == self.plus_spec(other),
    {
        let a_neg: bool = self.bits >= 0x8000_0000;
        let b_neg: bool = other.bits >= 0x8000_0000;
        let g: u32 = self.place() - other.place();
        let y: u32 = other.significand();
        proof {
            reveal(Single::plus_spec);
            lemma_parts(self);
            lemma_parts(other);
            let low = pow2(other.lift());
            lemma_pow2_adds(g as nat, other.lift());
            lemma_pow2_pos(other.lift());
            lemma_pow2_pos(g as nat);
            let x = self.sig() * pow2(g as nat);
            assert(self.size() == x * low) by {
                assert(self.sig() * (pow2(g as nat) * low) == (self.sig() * pow2(g as nat)) * low)
                    by (nonlinear_arith);
            }
            assert((x + y) * low == x * low + y * low) by (nonlinear_arith);
            if x > y {
                assert((x - y) * low == x * low - y * low && x * low > y * low)
                    by (nonlinear_arith)
                    requires
                        x > y,
                        low >= 1,
                ;
            } else if x < y {
                assert((y - x) * low == y * low - x * low && x * low < y * low)
                    by (nonlinear_arith)
                    requires
                        x < y,
                        low >= 1,
                ;
            }
            assert(x + y > 0 ==> (x + y) * low > 0) by (nonlinear_arith)
                requires
                    low >= 1,
            ;
            lemma2_to64();
            lemma_mul_basics(1);
        }
        if g > 64 {
            proof {
                lemma_far(self, g as nat, y as nat, self.neg() != other.neg());
            }
            return self;
        }
        let p: u128 = two_to(g);
        proof {
            lemma2_to64_rest();
            lemma_power_order(g as nat, 64);
            assert(self.sig() * p <= 0xff_ffff * pow2(64)) by (nonlinear_arith)
                requires
                    self.sig() <= 0xff_ffff,
                    0 <= p <= pow2(64),
            ;
        }
        let x: u128 = self.significand() as u128 * p;
        if a_neg == b_neg {
            let n: u128 = x + y as u128;
            if n == 0 {
                Single::sign(a_neg, 0)
            } else {
                Single::round(a_neg, n, 1, other.place(), 0)
            }
        } else if x > y as u128 {
            Single::round(a_neg, x - y as u128, 1, other.place(), 0)
        } else if x < y as u128 {
            Single::round(b_neg, y as u128 - x, 1, other.place(), 0)
        } else {
            Single::sign(false, 0)
        }
    }

    /// The number with its sign turned.
    pub open spec fn negated_spec(self) -> Single {
        Single::signed(!self.neg(), self.bits % 0x8000_0000)
    }

    /// The number with its sign turned.
    pub fn negated(self) -> (r: Single)
        ensures
            r == self.negated_spec(),
    {
        Single::sign(self.bits < 0x8000_0000, self.bits % 0x8000_0000)
    }

    /// The difference.
    pub open spec fn minus_spec(self, other: Single) -> Single {
        self.plus_spec(other.negated_spec())
    }

    /// The difference.
    pub fn minus(self, other: Single) -> (r: Single)
        ensures
            r == self.minus_spec(other),
    {
        self.plus(other.negated())
    }

    /// The product.
    #[verifier::opaque]
    pub open spec fn times_spec(self, other: Single) -> Single {
        let neg = self.neg() != other.neg();
        if self.nan() || other.nan() {
            Single::nan_spec()
        } else if self.infinite() || other.infinite() {
            if (self.finite() && self.sig() == 0) || (other.finite() && other.sig() == 0) {
                Single::nan_spec()
            } else {
                Single::signed(neg, 0x7f80_0000)
            }
        } else {
            Single::rounded(neg, self.size() * other.size(), pow2(149))
        }
    }

    /// The product.
    pub fn times(self, other: Single) -> (r: Single)
        ensures
            r == self.times_spec(other),
    {
        proof {
            reveal(Single::times_spec);
        }
        let a: u32 = self.bits % 0x8000_0000;
        let b: u32 = other.bits % 0x8000_0000;
        let neg: bool = (self.bits >= 0x8000_0000) != (other.bits >= 0x8000_0000);
        if a > 0x7f80_0000 || b > 0x7f80_0000 {
            return Single { bits: 0x7fc0_0000 };
        }
        if a == 0x7f80_0000 || b == 0x7f80_0000 {
            if a == 0 || b == 0 {
                return Single { bits: 0x7fc0_0000 };
            }
            return Single::sign(neg, 0x7f80_0000);
        }
        proof {
            lemma_parts(self);
            lemma_parts(other);
            assert(self.sig() * other.sig() <= 0xff_ffff * 0xff_ffff) by (nonlinear_arith)
                requires
                    0 <= self.sig() <= 0xff_ffff,
                    0 <= other.sig() <= 0xff_ffff,
            ;
        }
        let n: u128 = self.significand() as u128 * other.significand() as u128;
        let l: u32 = self.place() + other.place();
        proof {
            lemma2_to64();
            lemma_pow2_adds(self.lift(), other.lift());
            assert(self.size() * other.size() == n * pow2(l as nat)) by (nonlinear_arith)
                requires
                    self.size() == self.sig() * pow2(self.lift()),
                    other.size() == other.sig() * pow2(other.lift()),
                    n == self.sig() * other.sig(),
                    pow2(l as nat) == pow2(self.lift()) * pow2(other.lift()),
            ;
            lemma_pow2_pos(149);
            lemma_pow2_pos(l as nat);
            if l >= 149 {
                let up: nat = (l - 149) as nat;
                lemma_pow2_adds(up, 149);
                lemma_mul_basics(pow2(149) as int);
                lemma_rounded_scale(neg, n as nat * pow2(up), 1, pow2(149));
                assert(n * pow2(up) * pow2(149) == n * (pow2(up) * pow2(149)))
                    by (nonlinear_arith);
            } else {
                let down: nat = (149 - l) as nat;
                lemma_pow2_adds(down, l as nat);
                lemma_pow2_pos(down);
                lemma_mul_basics(n as int);
                lemma_mul_basics(pow2(down) as int);
                lemma_rounded_scale(neg, n as nat, pow2(down), pow2(l as nat));
            }
        }
        if l >= 149 {
            Single::round(neg, n, 1, l - 149, 0)
        } else {
            Single::round(neg, n, 1, 0, 149 - l)
        }
    }

    /// The quotient.
    #[verifier::opaque]
    pub open spec fn over_spec(self, other: Single) -> Single {
        let neg = self.neg() != other.neg();
        if self.nan() || other.nan() {
            Single::nan_spec()
        } else if self.infinite() {
            if other.infinite() {
                Single::nan_spec()
            } else {
                Single::signed(neg, 0x7f80_0000)
            }
        } else if other.infinite() {
            Single::signed(neg, 0)
        } else if other.sig() == 0 {
            if self.sig() == 0 {
                Single::nan_spec()
            } else {
                Single::signed(neg, 0x7f80_0000)
            }
        } else if self.sig() == 0 {
            Single::signed(neg, 0)
        } else {
            Single::rounded(neg, self.size() * pow2(149), other.size())
        }
    }

    /// The quotient.
    pub fn over(self, other: Single) -> (r: Single)
        ensures
            r == self.over_spec(other),
    {
        proof {
            reveal(Single::over_spec);
        }
        let a: u32 = self.bits % 0x8000_0000;
        let b: u32 = other.bits % 0x8000_0000;
        let neg: bool = (self.bits >= 0x8000_0000) != (other.bits >= 0x8000_0000);
        if a > 0x7f80_0000 || b > 0x7f80_0000 {
            return Single { bits: 0x7fc0_0000 };
        }
        if a == 0x7f80_0000 {
            if b == 0x7f80_0000 {
                return Single { bits: 0x7fc0_0000 };
            }
            return Single::sign(neg, 0x7f80_0000);
        }
        if b == 0x7f80_0000 {
            return Single::sign(neg, 0);
        }
        if b == 0 {
            if a == 0 {
                return Single { bits: 0x7fc0_0000 };
            }
            return Single::sign(neg, 0x7f80_0000);
        }
        if a == 0 {
            return Single::sign(neg, 0);
        }
        proof {
            lemma_parts(self);
            lemma_parts(other);
        }
        let n: u128 = self.significand() as u128 * 0x1_0000_0000_0000;
        let d: u128 = other.significand() as u128;
        let la: u32 = self.place() + 101;
        let lb: u32 = other.place();
        proof {
            lemma2_to64();
            lemma2_to64_rest();
            let t = pow2(149);
            lemma_pow2_adds(la as nat, 48);
            lemma_pow2_adds(self.lift(), 149);
            assert(self.size() * t == n * pow2(la as nat)) by (nonlinear_arith)
                requires
                    self.size() == self.sig() * pow2(self.lift()),
                    n == self.sig() * pow2(48),
                    pow2(self.lift()) * t == pow2(la as nat) * pow2(48),
            ;
            lemma_pow2_pos(la as nat);
            lemma_pow2_pos(lb as nat);
            if la >= lb {
                let up: nat = (la - lb) as nat;
                lemma_pow2_adds(up, lb as nat);
                lemma_mul_basics(d as int);
                lemma_rounded_scale(neg, n as nat * pow2(up), d as nat, pow2(lb as nat));
                assert(n * pow2(up) * pow2(lb as nat) == n * (pow2(up) * pow2(lb as nat)))
                    by (nonlinear_arith);
            } else {
                let down: nat = (lb - la) as nat;
                lemma_pow2_adds(down, la as nat);
                lemma_pow2_pos(down);
                lemma_mul_basics(n as int);
                assert(d * pow2(down) > 0) by (nonlinear_arith)
                    requires
                        d > 0,
                        pow2(down) > 0,
                ;
                lemma_rounded_scale(neg, n as nat, d as nat * pow2(down), pow2(la as nat));
                assert(d * pow2(down) * pow2(la as nat) == d * (pow2(down) * pow2(la as nat)))
                    by (nonlinear_arith);
            }
        }
        if la >= lb {
            Single::round(neg, n, d, la - lb, 0)
        } else {
            Single::round(neg, n, d, 0, lb - la)
        }
    }
}

/// The largest integer whose square is at most `n`.
pub open spec fn isqrt(n: nat) -> nat
    decreases n,
{
    if n == 0 {
        0
    } else {
        let r = isqrt((n - 1) as nat);
        if (r + 1) * (r + 1) <= n {
            r + 1
        } else {
            r
        }
    }
}

/// The integer root is the one whose square is at most `n` and whose
/// successor's is not.
pub proof fn lemma_isqrt(n: nat)
    ensures
        isqrt(n) * isqrt(n) <= n < (isqrt(n) + 1) * (isqrt(n) + 1),
    decreases n,
{
    if n > 0 {
        lemma_isqrt((n - 1) as nat);
        let r = isqrt((n - 1) as nat);
        let w = r + 1;
        assert((w + 1) * (w + 1) > w * w) by (nonlinear_arith);
        if w * w <= n {
            assert(isqrt(n) == w);
        } else {
            assert(isqrt(n) == r);
        }
    } else {
        let z = isqrt(n);
        assert(z * z == 0 && (z + 1) * (z + 1) == 1) by (nonlinear_arith)
            requires
                z == 0,
        ;
    }
}

/// The integer root of a number under `2^48`.
fn root(n: u64) -> (q: u64)
    requires
        n < 0x1_0000_0000_0000,
    ensures
        q < 0x100_0000,
        q * q <= n < (q + 1) * (q + 1),
{
    let mut q: u64 = 0;
    let mut b: u64 = 0x100_0000;
    let mut left: u32 = 24;
    proof {
        lemma2_to64();
    }
    while left > 0
        invariant
            left <= 24,
            b == pow2(left as nat),
            q + b <= 0x100_0000,
            n < 0x1_0000_0000_0000,
            q * q <= n < (q + b) * (q + b),
        decreases left,
    {
        proof {
            lemma_pow2_unfold(left as nat);
            lemma_pow2_pos((left - 1) as nat);
        }
        b = b / 2;
        left = left - 1;
        let t: u64 = q + b;
        assert(t * t <= 0xff_ffff * 0xff_ffff) by (nonlinear_arith)
            requires
                0 <= t <= 0xff_ffff,
        ;
        if t * t <= n {
            q = t;
        }
    }
    proof {
        lemma2_to64();
    }
    q
}

/// A quotient is the same in other terms.
proof fn lemma_quotient_scale(n: nat, d: nat, c: nat)
    requires
        d > 0,
        c > 0,
    ensures
        (n * c) / (d * c) == n / d,
{
    let q = n / d;
    let r = n % d;
    lemma_fundamental_div_mod(n as int, d as int);
    lemma_mod_bound(n as int, d as int);
    assert(n * c == q * (d * c) + r * c) by (nonlinear_arith)
        requires
            n == d * q + r,
    ;
    assert(0 <= r * c < d * c) by (nonlinear_arith)
        requires
            0 <= r < d,
            c > 0,
    ;
    lemma_fundamental_div_mod_converse((n * c) as int, (d * c) as int, q as int, (r * c) as int);
}

/// Squares keep the order of what is squared.
proof fn lemma_square_order(a: nat, b: nat)
    ensures
        (a < b) == (a * a < b * b),
        (a <= b) == (a * a <= b * b),
{
    assert((a < b) == (a * a < b * b)) by (nonlinear_arith)
        requires
            0 <= a,
            0 <= b,
    ;
    assert((a <= b) == (a * a <= b * b)) by (nonlinear_arith)
        requires
            0 <= a,
            0 <= b,
    ;
}

impl Single {
    /// The square root.
    #[verifier::opaque]
    pub open spec fn root_spec(self) -> Single {
        if self.nan() || self.bits % 0x8000_0000 == 0 {
            self
        } else if self.neg() {
            Single::nan_spec()
        } else if self.infinite() {
            self
        } else {
            let n = self.size() * pow2(149);
            let w = isqrt(n);
            let j = fit(w, 1);
            let q = w / pow2(j);
            // Halfway up to the next significand, squared.
            let mid = (2 * q + 1) * pow2(j);
            let m = if mid * mid < 4 * n {
                q + 1
            } else {
                q
            };
            Single { bits: (j * 0x80_0000 + m) as u32 }
        }
    }

    /// The square root.
    pub fn root(self) -> (r: Single)
        ensures
            r == self.root_spec(),
    {
        proof {
            reveal(Single::root_spec);
        }
        let a: u32 = self.bits % 0x8000_0000;
        if a > 0x7f80_0000 || a == 0 {
            return self;
        }
        if self.bits >= 0x8000_0000 {
            return Single { bits: 0x7fc0_0000 };
        }
        if a == 0x7f80_0000 {
            return self;
        }
        proof {
            lemma_parts(self);
            lemma2_to64();
            lemma2_to64_rest();
        }
        let e: u32 = self.place() + 149;
        let mut k: u32 = e / 2;
        let mut y: u64 = self.significand() as u64;
        let ghost n = self.size() * pow2(149);
        proof {
            lemma_pow2_adds(self.lift(), 149);
            assert(self.size() * pow2(149) == self.sig() * (pow2(self.lift()) * pow2(149)))
                by (nonlinear_arith)
                requires
                    self.size() == self.sig() * pow2(self.lift()),
            ;
            assert(n == y * pow2(e as nat));
            lemma_pow2_adds(k as nat, k as nat);
            lemma_pow2_unfold(e as nat);
        }
        if e % 2 == 1 {
            proof {
                assert(y * (2 * pow2((e - 1) as nat)) == (2 * y) * pow2((e - 1) as nat))
                    by (nonlinear_arith);
            }
            y = y * 2;
        }
        assert(n == y * pow2((2 * k) as nat));
        while y < 0x4000_0000_0000
            invariant
                0 < y < 0x1_0000_0000_0000,
                n == y * pow2((2 * k) as nat),
                k <= 201,
                y >= pow2((2 * (74 - k)) as nat) || k >= 74,
            decreases 0x1_0000_0000_0000 - y,
        {
            proof {
                lemma2_to64();
                lemma2_to64_rest();
                if k < 51 {
                    lemma_power_order(46, (2 * (74 - k)) as nat);
                }
                lemma_pow2_unfold((2 * k) as nat);
                lemma_pow2_unfold((2 * k - 1) as nat);
                assert(y * (2 * (2 * pow2((2 * k - 2) as nat))) == (4 * y) * pow2(
                    (2 * k - 2) as nat,
                )) by (nonlinear_arith);
                if k < 74 {
                    lemma_pow2_unfold((2 * (74 - k) + 1) as nat);
                    lemma_pow2_unfold((2 * (74 - k) + 2) as nat);
                }
                lemma2_to64();
            }
            y = y * 4;
            k = k - 1;
        }
        let q: u64 = root(y);
        assert((2 * q + 1) * (2 * q + 1) <= 0x1ff_ffff * 0x1ff_ffff) by (nonlinear_arith)
            requires
                0 <= q <= 0xff_ffff,
        ;
        let mid: u64 = (2 * q + 1) * (2 * q + 1);
        let m: u64 = if mid < 4 * y {
            q + 1
        } else {
            q
        };
        proof {
            let w = isqrt(n);
            let p = pow2(k as nat);
            lemma_isqrt(n);
            lemma_pow2_pos(k as nat);
            lemma_pow2_adds(k as nat, k as nat);
            assert(n == y * (p * p));
            // The root of y at this place is the root of n there.
            assert((q * p) * (q * p) <= n) by (nonlinear_arith)
                requires
                    q * q <= y,
                    n == y * (p * p),
                    p >= 1,
            ;
            assert(n < ((q + 1) * p) * ((q + 1) * p)) by (nonlinear_arith)
                requires
                    y < (q + 1) * (q + 1),
                    n == y * (p * p),
                    p >= 1,
            ;
            lemma_square_order(((q * p) as nat), (w + 1) as nat);
            lemma_square_order(w, ((q + 1) * p) as nat);
            assert(q * p <= w < (q + 1) * p);
            assert(w == q * p + (w - q * p) && (q + 1) * p == q * p + p) by (nonlinear_arith);
            lemma_fundamental_div_mod_converse(w as int, p as int, q as int, w - q * p);
            assert(w / p == q);
            lemma_square_order(0x7f_ffff, q as nat);
            assert(q >= 0x80_0000) by {
                if q < 0x80_0000 {
                    lemma_square_order((q + 1) as nat, 0x80_0000);
                }
            }
            assert(w < 0x100_0000 * (1 * p)) by (nonlinear_arith)
                requires
                    w < (q + 1) * p,
                    q <= 0xff_ffff,
                    p >= 1,
            ;
            if k > 0 {
                lemma_pow2_unfold(k as nat);
                let h = pow2((k - 1) as nat);
                assert(w >= 0x100_0000 * (1 * h)) by (nonlinear_arith)
                    requires
                        w >= q * (2 * h),
                        q >= 0x80_0000,
                        h >= 0,
                ;
            }
            lemma_fit_unique(w, 1, k as nat);
            assert(((2 * q + 1) * p) * ((2 * q + 1) * p) == mid * (p * p)) by (nonlinear_arith)
                requires
                    mid == (2 * q + 1) * (2 * q + 1),
            ;
            assert((mid < 4 * y) == (mid * (p * p) < 4 * n)) by (nonlinear_arith)
                requires
                    n == y * (p * p),
                    p >= 1,
            ;
        }
        Single { bits: k * 0x80_0000 + m as u32 }
    }

    /// The place of a number in the order of all numbers and infinities. Of
    /// two patterns without a sign, the larger stands for the larger number.
    pub open spec fn key(self) -> int {
        if self.neg() {
            0x8000_0000 - self.bits
        } else {
            self.bits as int
        }
    }

    /// Less than.
    pub open spec fn lt_spec(self, other: Single) -> bool {
        !self.nan() && !other.nan() && self.key() < other.key()
    }

    /// At most.
    pub open spec fn le_spec(self, other: Single) -> bool {
        !self.nan() && !other.nan() && self.key() <= other.key()
    }

    /// The place of a number in the order of all numbers and infinities.
    fn order(self) -> (k: i64)
        ensures
            k == self.key(),
    {
        if self.bits >= 0x8000_0000 {
            0x8000_0000i64 - self.bits as i64
        } else {
            self.bits as i64
        }
    }

    /// Whether the pattern stands for no number.
    pub fn is_nan(self) -> (b: bool)
        ensures
            b == self.nan(),
    {
        self.bits % 0x8000_0000 > 0x7f80_0000
    }

    /// Less than.
    pub fn lt(self, other: Single) -> (b: bool)
        ensures
            b == self.lt_spec(other),
    {
        !self.is_nan() && !other.is_nan() && self.order() < other.order()
    }

    /// At most.
    pub fn le(self, other: Single) -> (b: bool)
        ensures
            b == self.le_spec(other),
    {
        !self.is_nan() && !other.is_nan() && self.order() <= other.order()
    }

    /// The smaller of the two; where one is no number, the other.
    pub open spec fn min_spec(self, other: Single) -> Single {
        if self.nan() || other.lt_spec(self) {
            other
        } else {
            self
        }
    }

    /// The smaller of the two; where one is no number, the other.
    pub fn min(self, other: Single) -> (r: Single)
        ensures
            r == self.min_spec(other),
    {
        if self.is_nan() || other.lt(self) {
            other
        } else {
            self
        }
    }

    /// The larger of the two; where one is no number, the other.
    pub open spec fn max_spec(self, other: Single) -> Single {
        if self.nan() || self.lt_spec(other) {
            other
        } else {
            self
        }
    }

    /// The larger of the two; where one is no number, the other.
    pub fn max(self, other: Single) -> (r: Single)
        ensures
            r == self.max_spec(other),
    {
        if self.is_nan() || self.lt(other) {
            other
        } else {
            self
        }
    }

    /// The number brought between two others.
    pub open spec fn clamp_spec(self, lo: Single, hi: Single) -> Single {
        if self.lt_spec(lo) {
            lo
        } else if hi.lt_spec(self) {
            hi
        } else {
            self
        }
    }

    /// The number brought between two others.
    pub fn clamp(self, lo: Single, hi: Single) -> (r: Single)
        ensures
            r == self.clamp_spec(lo, hi),
    {
        if self.lt(lo) {
            lo
        } else if hi.lt(self) {
            hi
        } else {
            self
        }
    }

    /// The number without its sign.
    pub open spec fn abs_spec(self) -> Single {
        Single { bits: (self.bits % 0x8000_0000) as u32 }
    }

    /// The number without its sign.
    pub fn abs(self) -> (r: Single)
        ensures
            r == self.abs_spec(),
    {
        Single { bits: self.bits % 0x8000_0000 }
    }

    /// Zero.
    pub open spec fn zero_spec() -> Single {
        Single { bits: 0 }
    }

    /// Zero.
    pub fn zero() -> (r: Single)
        ensures
            r == Single::zero_spec(),
    {
        Single { bits: 0 }
    }

    /// Positive infinity.
    pub open spec fn infinity_spec() -> Single {
        Single { bits: 0x7f80_0000 }
    }

    /// Positive infinity.
    pub fn infinity() -> (r: Single)
        ensures
            r == Single::infinity_spec(),
    {
        Single { bits: 0x7f80_0000 }
    }

    /// The single nearest to an integer.
    pub open spec fn whole_spec(n: nat) -> Single {
        Single::rounded(false, n * pow2(149), 1)
    }

    /// The single nearest to an integer.
    pub fn whole(n: u32) -> (r: Single)
        ensures
            r == Single::whole_spec(n as nat),
    {
        proof {
            lemma2_to64();
            lemma_mul_basics(1);
        }
        Single::round(false, n as u128, 1, 149, 0)
    }

    /// The single nearest to `n / d`: what a decimal fraction is written for.
    pub open spec fn ratio_spec(n: nat, d: nat) -> Single {
        Single::rounded(false, n * pow2(149), d)
    }

    /// The single nearest to `n / d`.
    pub fn ratio(n: u32, d: u32) -> (r: Single)
        requires
            0 < n,
            0 < d < 0x100_0000,
        ensures
            r == Single::ratio_spec(n as nat, d as nat),
    {
        proof {
            lemma2_to64();
            lemma2_to64_rest();
            lemma_mul_basics(d as int);
            lemma_pow2_adds(48, 101);
            assert((n * 0x1_0000_0000_0000) * pow2(101) == n * (0x1_0000_0000_0000 * pow2(101)))
                by (nonlinear_arith);
        }
        Single::round(false, n as u128 * 0x1_0000_0000_0000, d as u128, 101, 0)
    }

    /// The nearest integer, halves away from zero, as far as it is one that 32
    /// bits hold; otherwise the nearest of those. Zero for no number.
    #[verifier::opaque]
    pub open spec fn nearest_u32_spec(self) -> u32 {
        if self.nan() || self.neg() {
            0
        } else if self.infinite() {
            u32::MAX
        } else {
            let n = (2 * self.size() + pow2(149)) / pow2(150);
            if n > u32::MAX {
                u32::MAX
            } else {
                n as u32
            }
        }
    }

    /// The nearest integer that 32 bits hold, halves away from zero.
    pub fn nearest_u32(self) -> (n: u32)
        ensures
            n == self.nearest_u32_spec(),
    {
        proof {
            reveal(Single::nearest_u32_spec);
        }
        let a: u32 = self.bits % 0x8000_0000;
        if a > 0x7f80_0000 || self.bits >= 0x8000_0000 {
            return 0;
        }
        if a == 0x7f80_0000 {
            return u32::MAX;
        }
        let m: u32 = self.significand();
        let l: u32 = self.place();
        let ghost n = (2 * self.size() + pow2(149)) / pow2(150);
        proof {
            lemma_parts(self);
            lemma2_to64();
            lemma_pow2_unfold(150);
            lemma_pow2_pos(149);
        }
        if l >= 149 {
            let k: u32 = l - 149;
            proof {
                let p = pow2(k as nat);
                let x = m * p;
                lemma_pow2_adds(k as nat, 149);
                assert(self.size() == x * pow2(149)) by (nonlinear_arith)
                    requires
                        self.size() == m * pow2(l as nat),
                        pow2(l as nat) == p * pow2(149),
                        x == m * p,
                ;
                lemma_quotient_scale((2 * x + 1) as nat, 2, pow2(149));
                assert((2 * x + 1) * pow2(149) == 2 * (x * pow2(149)) + pow2(149))
                    by (nonlinear_arith);
                assert(n == x);
                if k > 8 {
                    lemma_power_order(9, k as nat);
                    assert(x >= 0x80_0000 * 512) by (nonlinear_arith)
                        requires
                            x == m * p,
                            m >= 0x80_0000,
                            p >= 512,
                    ;
                } else {
                    lemma_power_order(k as nat, 8);
                    assert(x <= 0xff_ffff * 256) by (nonlinear_arith)
                        requires
                            x == m * p,
                            0 <= m <= 0xff_ffff,
                            0 <= p <= 256,
                    ;
                }
            }
            if k > 8 {
                u32::MAX
            } else {
                (m as u128 * two_to(k)) as u32
            }
        } else {
            let c: u32 = 149 - l;
            proof {
                let p = pow2(c as nat);
                let low = pow2(l as nat);
                lemma_pow2_adds(c as nat, l as nat);
                lemma_pow2_pos(c as nat);
                lemma_pow2_pos(l as nat);
                assert((2 * m + p) * low == 2 * (m * low) + p * low) by (nonlinear_arith);
                assert((2 * p) * low == 2 * (p * low)) by (nonlinear_arith);
                lemma_quotient_scale((2 * m + p) as nat, (2 * p) as nat, low);
                assert(n == (2 * m + p) / (2 * p) as int);
                if c > 30 {
                    lemma_power_order(31, c as nat);
                    lemma_basic_div((2 * m + p) as int, (2 * p) as int);
                } else {
                    lemma_power_order(c as nat, 30);
                    assert((2 * m + p) / (2 * p) as int <= 2 * m + p) by (nonlinear_arith)
                        requires
                            p >= 1,
                            m >= 0,
                    ;
                }
            }
            if c > 30 {
                0
            } else {
                let p: u128 = two_to(c);
                ((2 * m as u128 + p) / (2 * p)) as u32
            }
        }
    }
}

impl Single {
    /// The same number.
    pub open spec fn eq_spec(self, other: Single) -> bool {
        !self.nan() && !other.nan() && self.key() == other.key()
    }

    /// Whether the sign bit is set.
    pub fn is_negative(self) -> (b: bool)
        ensures
            b == self.neg(),
    {
        self.bits >= 0x8000_0000
    }

    /// No number.
    pub fn no_number() -> (r: Single)
        ensures
            r == Single::nan_spec(),
    {
        Single { bits: 0x7fc0_0000 }
    }

    /// The number nearest to `n` times `2^(up - 149)`.
    pub fn binary(neg: bool, n: u128, up: u32) -> (r: Single)
        requires
            n < 0x400_0000_0000_0000_0000_0000,
            up <= 600,
        ensures
            r == Single::rounded(neg, n as nat * pow2(up as nat), 1),
    {
        proof {
            lemma2_to64();
            lemma_mul_basics(1);
        }
        Single::round(neg, n, 1, up, 0)
    }

    /// The size of a number as a multiple of `2^(down - 149)`, cut off.
    pub fn cut(self, down: u32) -> (n: u128)
        requires
            self.finite(),
            down <= 600,
            self.size() / pow2(down as nat) <= u64::MAX,
        ensures
            n == self.size() / pow2(down as nat),
    {
        let m: u32 = self.significand();
        let l: u32 = self.place();
        proof {
            lemma_parts(self);
            lemma2_to64();
            lemma2_to64_rest();
            lemma_pow2_pos(down as nat);
            lemma_pow2_pos(l as nat);
        }
        if m == 0 {
            proof {
                lemma_mul_basics(pow2(l as nat) as int);
                lemma_div_basics(pow2(down as nat) as int);
            }
            return 0;
        }
        if l >= down {
            let k: u32 = l - down;
            proof {
                let p = pow2(k as nat);
                lemma_pow2_adds(k as nat, down as nat);
                assert(self.size() == (m * p) * pow2(down as nat)) by (nonlinear_arith)
                    requires
                        self.size() == m * pow2(l as nat),
                        pow2(l as nat) == p * pow2(down as nat),
                ;
                lemma_div_multiples_vanish((m * p) as int, pow2(down as nat) as int);
                lemma_mul_is_commutative((m * p) as int, pow2(down as nat) as int);
                if k >= 64 {
                    lemma_power_order(64, k as nat);
                }
                assert(m * p >= p) by (nonlinear_arith)
                    requires
                        m >= 1,
                        p >= 0,
                ;
            }
            m as u128 * two_to(k)
        } else {
            let k: u32 = down - l;
            proof {
                let p = pow2(k as nat);
                lemma_pow2_adds(k as nat, l as nat);
                lemma_pow2_pos(k as nat);
                lemma_quotient_scale(m as nat, p, pow2(l as nat));
                if k >= 64 {
                    lemma_power_order(64, k as nat);
                    lemma_basic_div(m as int, p as int);
                }
            }
            if k >= 64 {
                0
            } else {
                m as u128 / two_to(k)
            }
        }
    }

    /// The number, with the sign of another.
    pub open spec fn with_sign_spec(self, other: Single) -> Single {
        Single::signed(other.neg(), (self.bits % 0x8000_0000) as u32)
    }

    /// The number, with the sign of another.
    pub fn with_sign(self, other: Single) -> (r: Single)
        ensures
            r == self.with_sign_spec(other),
    {
        Single::sign(other.bits >= 0x8000_0000, self.bits % 0x8000_0000)
    }

    /// Whether the number is zero, of either sign.
    pub fn is_zero(self) -> (b: bool)
        ensures
            b == self.eq_spec(Single::zero_spec()),
    {
        self.bits % 0x8000_0000 == 0
    }
}

/// A number rounds to itself.
pub proof fn lemma_rounded_exact(s: Single)
    requires
        s.finite(),
    ensures
        Single::rounded(s.neg(), s.size(), 1) == s,
{
    reveal(Single::rounded);
    lemma_parts(s);
    lemma2_to64();
    let m = s.sig();
    let l = s.lift();
    let p = pow2(l);
    lemma_pow2_pos(l);
    lemma_mul_basics(p as int);
    assert(m * p < 0x100_0000 * p) by (nonlinear_arith)
        requires
            m < 0x100_0000,
            p >= 1,
    ;
    if l > 0 {
        lemma_pow2_unfold(l);
        let h = pow2((l - 1) as nat);
        lemma_mul_basics(h as int);
        assert(m * (2 * h) >= 0x100_0000 * h) by (nonlinear_arith)
            requires
                m >= 0x80_0000,
                h >= 0,
        ;
    }
    lemma_fit_unique(m * p, 1, l);
    lemma_half_even_scale(m, 1, p);
}

/// The nearest integer keeps the order of what is rounded.
proof fn lemma_half_even_mono(a: nat, b: nat, d: nat)
    requires
        d > 0,
        a <= b,
    ensures
        half_even(a, d) <= half_even(b, d),
{
    lemma_div_is_ordered(a as int, b as int, d as int);
    lemma_fundamental_div_mod(a as int, d as int);
    lemma_fundamental_div_mod(b as int, d as int);
    let q = a / d;
    if q == b / d {
        assert(a % d <= b % d);
    }
}

/// Rounding to an integer does not pass an integer.
proof fn lemma_half_even_bounds(n: nat, d: nat, b: nat)
    requires
        d > 0,
    ensures
        n <= b * d ==> half_even(n, d) <= b,
        n >= b * d ==> half_even(n, d) >= b,
{
    lemma_mul_basics(b as int);
    assert(half_even(b * d, d) == b) by {
        lemma_fundamental_div_mod_converse((b * d) as int, d as int, b as int, 0);
    }
    if n <= b * d {
        lemma_half_even_mono(n, b * d, d);
    }
    if n >= b * d {
        lemma_half_even_mono(b * d, n, d);
    }
}

/// Rounding keeps the order of what is rounded.
pub proof fn lemma_rounded_mono(n1: nat, d1: nat, n2: nat, d2: nat)
    requires
        d1 > 0,
        d2 > 0,
        n1 * d2 <= n2 * d1,
    ensures
        Single::rounded(false, n1, d1).bits <= Single::rounded(false, n2, d2).bits,
{
    let a = n1 * d2;
    let b = n2 * d1;
    let d = d1 * d2;
    lemma_rounded_scale(false, n1, d1, d2);
    lemma_rounded_scale(false, n2, d2, d1);
    lemma_mul_is_commutative(d1 as int, d2 as int);
    assert(d > 0) by (nonlinear_arith)
        requires
            d == d1 * d2,
            d1 > 0,
            d2 > 0,
    ;
    reveal(Single::rounded);
    let ja = fit(a, d);
    let jb = fit(b, d);
    lemma_fit(a, d);
    lemma_fit(b, d);
    lemma_pow2_pos(ja);
    lemma_pow2_pos(jb);
    let pa = d * pow2(ja);
    let pb = d * pow2(jb);
    assert(pa > 0 && pb > 0) by (nonlinear_arith)
        requires
            pa == d * pow2(ja),
            pb == d * pow2(jb),
            d > 0,
            pow2(ja) > 0,
            pow2(jb) > 0,
    ;
    if ja == jb {
        lemma_half_even_mono(a, b, pa);
    } else if ja < jb {
        lemma_half_even_bounds(a, pa, 0x100_0000);
        lemma_pow2_unfold(jb);
        let h = pow2((jb - 1) as nat);
        assert(0x80_0000 * (d * (2 * h)) == 0x100_0000 * (d * h)) by (nonlinear_arith);
        lemma_half_even_bounds(b, pb, 0x80_0000);
    } else {
        // The larger would need the lower place.
        lemma_power_order(jb, (ja - 1) as nat);
        let h = pow2((ja - 1) as nat);
        assert(d * pow2(jb) <= d * h) by (nonlinear_arith)
            requires
                pow2(jb) <= h,
                d > 0,
        ;
        assert(false);
    }
}

/// The size orders numbers as their patterns without a sign do.
pub proof fn lemma_size_order(a: Single, b: Single)
    requires
        a.finite(),
        b.finite(),
    ensures
        (a.size() <= b.size()) == (a.bits % 0x8000_0000 <= b.bits % 0x8000_0000),
{
    let x = a.abs_spec();
    let y = b.abs_spec();
    lemma_parts(a);
    lemma_parts(b);
    lemma_parts(x);
    lemma_parts(y);
    assert(x.size() == a.size() && y.size() == b.size());
    lemma_rounded_exact(x);
    lemma_rounded_exact(y);
    lemma_mul_basics(x.size() as int);
    lemma_mul_basics(y.size() as int);
    if x.size() <= y.size() {
        lemma_rounded_mono(x.size(), 1, y.size(), 1);
    } else {
        lemma_rounded_mono(y.size(), 1, x.size(), 1);
    }
}

/// Numbers are ordered by their values.
pub proof fn lemma_value_order(a: Single, b: Single)
    requires
        a.finite(),
        b.finite(),
    ensures
        a.lt_spec(b) == (a.value() < b.value()),
        a.le_spec(b) == (a.value() <= b.value()),
        a.eq_spec(b) == (a.value() == b.value()),
{
    lemma_size_order(a, b);
    lemma_size_order(b, a);
    lemma_zero(a);
    lemma_zero(b);
}

/// What is zero.
pub proof fn lemma_zero(a: Single)
    requires
        a.finite(),
    ensures
        (a.size() == 0) == (a.bits % 0x8000_0000 == 0),
        (a.sig() == 0) == (a.bits % 0x8000_0000 == 0),
{
    lemma_parts(a);
    lemma_pow2_pos(a.lift());
    assert(a.sig() > 0 ==> a.sig() * pow2(a.lift()) > 0) by (nonlinear_arith)
        requires
            pow2(a.lift()) > 0,
    ;
    lemma_mul_basics(pow2(a.lift()) as int);
}

/// Every multiple of a power of two by an integer of 24 bits is a number, as
/// long as it is not too large.
pub proof fn lemma_exact(m: nat, k: nat)
    requires
        m < 0x100_0000,
        k <= 253,
    ensures
        Single::rounded(false, m * pow2(k), 1).finite(),
        !Single::rounded(false, m * pow2(k), 1).neg(),
        Single::rounded(false, m * pow2(k), 1).size() == m * pow2(k),
    decreases k,
{
    if k == 0 || m >= 0x80_0000 {
        let s = Single { bits: (k * 0x80_0000 + m) as u32 };
        lemma_parts(s);
        if m < 0x80_0000 {
            assert(s.bits == m);
            assert(s.top() == 0);
        } else {
            assert(s.bits / 0x80_0000 == k + 1) by {
                lemma_fundamental_div_mod_converse(
                    s.bits as int,
                    0x80_0000,
                    (k + 1) as int,
                    (m - 0x80_0000) as int,
                );
            }
            assert(s.top() == k + 1);
        }
        assert(s.sig() == m && s.lift() == k);
        lemma_rounded_exact(s);
    } else {
        lemma_pow2_unfold(k);
        let h = pow2((k - 1) as nat);
        assert(m * (2 * h) == (2 * m) * h) by (nonlinear_arith);
        lemma_exact(2 * m, (k - 1) as nat);
    }
}

/// Integers of 24 bits are numbers.
pub proof fn lemma_whole(n: nat)
    requires
        n < 0x100_0000,
    ensures
        Single::whole_spec(n).finite(),
        !Single::whole_spec(n).neg(),
        Single::whole_spec(n).size() == n * pow2(149),
        Single::whole_spec(n).value() == n * pow2(149),
{
    lemma_exact(n, 149);
}

/// Rounding does not pass a number: what lies on one side of it stays there.
pub proof fn lemma_rounded_bounds(n: nat, d: nat, s: Single)
    requires
        d > 0,
        s.finite(),
    ensures
        !Single::rounded(false, n, d).neg(),
        !Single::rounded(false, n, d).nan(),
        n <= s.size() * d ==> Single::rounded(false, n, d).finite(),
        n <= s.size() * d ==> Single::rounded(false, n, d).size() <= s.size(),
        n >= s.size() * d && Single::rounded(false, n, d).finite() ==> Single::rounded(
            false,
            n,
            d,
        ).size() >= s.size(),
        n >= s.size() * d ==> Single::rounded(false, n, d).bits >= s.bits % 0x8000_0000,
{
    let r = Single::rounded(false, n, d);
    let t = s.abs_spec();
    lemma_parts(s);
    lemma_parts(t);
    assert(t.size() == s.size());
    assert(r.bits <= 0x7f80_0000) by {
        reveal(Single::rounded);
    }
    lemma_rounded_exact(t);
    lemma_mul_basics(n as int);
    if n <= s.size() * d {
        lemma_rounded_mono(n, d, s.size(), 1);
        lemma_size_order(r, t);
    }
    if n >= s.size() * d {
        lemma_rounded_mono(s.size(), 1, n, d);
        if r.finite() {
            lemma_size_order(t, r);
        }
    }
}

/// The sign does not bear on what is rounded to.
pub proof fn lemma_rounded_sign(n: nat, d: nat)
    ensures
        Single::rounded(true, n, d) == Single::rounded(false, n, d).negated_spec(),
        Single::rounded(false, n, d).bits <= 0x7f80_0000,
        Single::rounded(true, n, d).abs_spec() == Single::rounded(false, n, d),
{
    reveal(Single::rounded);
}

/// A product is at most a number that the exact product is at most.
pub proof fn lemma_times_bound(a: Single, b: Single, s: Single)
    requires
        a.finite(),
        b.finite(),
        s.finite(),
        a.size() * b.size() <= s.size() * pow2(149),
    ensures
        a.times_spec(b).finite(),
        a.times_spec(b).size() <= s.size(),
{
    let n = a.size() * b.size();
    let t = pow2(149);
    let r = Single::rounded(false, n, t);
    lemma_pow2_pos(149);
    lemma_rounded_bounds(n, t, s);
    lemma_negated(r);
    assert(a.times_spec(b) == r || a.times_spec(b) == r.negated_spec()) by {
        reveal(Single::times_spec);
        lemma_rounded_sign(n, t);
    }
}

/// What is brought between minus one and one lies there.
pub proof fn lemma_clamp_unit(a: Single)
    requires
        !a.nan(),
    ensures
        ({
            let one = Single::whole_spec(1);
            let c = a.clamp_spec(one.negated_spec(), one);
            &&& c.finite()
            &&& c.size() <= pow2(149)
            &&& one.finite()
        }),
{
    let one = Single::whole_spec(1);
    let c = a.clamp_spec(one.negated_spec(), one);
    lemma_whole(1);
    lemma_mul_basics(pow2(149) as int);
    assert(one.bits < 0x7f80_0000);
    assert(c.finite());
    lemma_size_order(c, one);
}

/// Sums keep the order of what is added.
pub proof fn lemma_plus_order(a: Single, b: Single, c: Single, d: Single)
    requires
        a.finite(),
        b.finite(),
        c.finite(),
        d.finite(),
        a.value() + b.value() <= c.value() + d.value(),
    ensures
        a.plus_spec(b).le_spec(c.plus_spec(d)),
{
    reveal(Single::plus_spec);
    let u = a.value() + b.value();
    let v = c.value() + d.value();
    let m = if u < 0 {
        (-u) as nat
    } else {
        u as nat
    };
    let n = if v < 0 {
        (-v) as nat
    } else {
        v as nat
    };
    lemma_rounded_sign(m, 1);
    lemma_rounded_sign(n, 1);
    lemma_mul_basics(m as int);
    lemma_mul_basics(n as int);
    if u > 0 {
        lemma_rounded_mono(m, 1, n, 1);
    } else if v < 0 {
        lemma_rounded_mono(n, 1, m, 1);
    }
}

/// A sum that is a number is that number.
pub proof fn lemma_plus_exact(a: Single, b: Single, s: Single)
    requires
        a.finite(),
        b.finite(),
        s.finite(),
        a.value() + b.value() == s.value(),
    ensures
        a.plus_spec(b).finite(),
        a.plus_spec(b).value() == s.value(),
        s.value() != 0 ==> a.plus_spec(b) == s,
{
    reveal(Single::plus_spec);
    if s.value() != 0 {
        lemma_rounded_exact(s);
    } else {
        let z = a.plus_spec(b);
        assert(z.bits == 0 || z.bits == 0x8000_0000);
        lemma_zero(z);
    }
}

/// A sum lies between two numbers that the exact sum lies between.
pub proof fn lemma_plus_between(a: Single, b: Single, lo: Single, hi: Single)
    requires
        a.finite(),
        b.finite(),
        lo.finite(),
        hi.finite(),
        lo.value() <= a.value() + b.value() <= hi.value(),
    ensures
        a.plus_spec(b).finite(),
        lo.value() <= a.plus_spec(b).value() <= hi.value(),
{
    let z = Single::zero_spec();
    assert(z.finite() && z.value() == 0) by {
        lemma_zero(z);
    }
    lemma_plus_exact(lo, z, lo);
    lemma_plus_exact(hi, z, hi);
    lemma_plus_order(lo, z, a, b);
    lemma_plus_order(a, b, hi, z);
    lemma_between(lo.plus_spec(z), a.plus_spec(b), hi.plus_spec(z));
}

/// What lies between two numbers is a number, and its value lies between
/// theirs.
pub proof fn lemma_between(lo: Single, r: Single, hi: Single)
    requires
        lo.finite(),
        hi.finite(),
        lo.le_spec(r),
        r.le_spec(hi),
    ensures
        r.finite(),
        lo.value() <= r.value() <= hi.value(),
{
    assert(r.finite());
    lemma_value_order(lo, r);
    lemma_value_order(r, hi);
}

/// Turning the sign of a number turns the sign of its value.
pub proof fn lemma_negated(a: Single)
    requires
        a.finite(),
    ensures
        a.negated_spec().finite(),
        a.negated_spec().size() == a.size(),
        a.negated_spec().value() == -a.value(),
        a.negated_spec().neg() == !a.neg(),
{
}

/// Products keep the order of sizes, and have the sign that the two signs give.
pub proof fn lemma_times_order(a: Single, b: Single, c: Single, d: Single)
    requires
        a.finite(),
        b.finite(),
        c.finite(),
        d.finite(),
        a.size() * b.size() <= c.size() * d.size(),
    ensures
        a.times_spec(b).abs_spec().le_spec(c.times_spec(d).abs_spec()),
        a.times_spec(b).neg() == (a.neg() != b.neg()),
{
    reveal(Single::times_spec);
    let m = a.size() * b.size();
    let n = c.size() * d.size();
    let t = pow2(149);
    lemma_pow2_pos(149);
    assert(m * t <= n * t) by (nonlinear_arith)
        requires
            m <= n,
            t > 0,
    ;
    lemma_rounded_mono(m, t, n, t);
    lemma_rounded_sign(m, t);
    lemma_rounded_sign(n, t);
}

/// The nearest integers keep the order of numbers.
pub proof fn lemma_nearest_order(a: Single, b: Single)
    requires
        a.finite(),
        b.finite(),
        a.value() <= b.value(),
    ensures
        a.nearest_u32_spec() <= b.nearest_u32_spec(),
{
    reveal(Single::nearest_u32_spec);
    lemma_pow2_pos(150);
    if !a.neg() && !b.neg() {
        lemma_div_is_ordered(
            (2 * a.size() + pow2(149)) as int,
            (2 * b.size() + pow2(149)) as int,
            pow2(150) as int,
        );
    } else if b.neg() && !a.neg() {
        assert(a.size() == 0);
        lemma_zero(a);
        lemma_pow2_unfold(150);
        lemma_basic_div(pow2(149) as int, pow2(150) as int);
    }
}

/// The nearest integer to an integer is that integer.
pub proof fn lemma_nearest_whole(n: nat, s: Single)
    requires
        n < 0x100_0000,
        s.finite(),
        s.value() == n * pow2(149),
    ensures
        s.nearest_u32_spec() == n,
{
    reveal(Single::nearest_u32_spec);
    lemma_pow2_pos(149);
    lemma_pow2_unfold(150);
    let t = pow2(149);
    if s.neg() {
        assert(n == 0) by (nonlinear_arith)
            requires
                n * t <= 0,
                t > 0,
                n >= 0,
        ;
    } else {
        assert(2 * (n * t) + t == n * (2 * t) + t) by (nonlinear_arith);
        lemma_fundamental_div_mod_converse(
            (2 * s.size() + t) as int,
            (2 * t) as int,
            n as int,
            t as int,
        );
    }
}

/// Quotients by a number over zero keep the order of what is divided.
pub proof fn lemma_over_order(a: Single, b: Single, d: Single)
    requires
        a.finite(),
        b.finite(),
        d.finite(),
        d.value() > 0,
        a.value() <= b.value(),
    ensures
        a.over_spec(d).le_spec(b.over_spec(d)),
{
    reveal(Single::over_spec);
    lemma_zero(a);
    lemma_zero(b);
    lemma_zero(d);
    let t = pow2(149);
    let m = a.size() * t;
    let n = b.size() * t;
    let k = d.size();
    lemma_rounded_sign(m, k);
    lemma_rounded_sign(n, k);
    if a.size() <= b.size() {
        assert(m * k <= n * k) by (nonlinear_arith)
            requires
                m == a.size() * t,
                n == b.size() * t,
                a.size() <= b.size(),
                k >= 0,
                t >= 0,
        ;
        lemma_rounded_mono(m, k, n, k);
    }
    if b.size() <= a.size() {
        assert(n * k <= m * k) by (nonlinear_arith)
            requires
                m == a.size() * t,
                n == b.size() * t,
                b.size() <= a.size(),
                k >= 0,
                t >= 0,
        ;
        lemma_rounded_mono(n, k, m, k);
    }
}

/// A quotient is at least a number that the exact quotient is at least.
pub proof fn lemma_over_least(a: Single, d: Single, s: Single)
    requires
        a.finite(),
        d.finite(),
        s.finite(),
        !a.neg(),
        !s.neg(),
        d.value() > 0,
        a.size() * pow2(149) >= s.size() * d.size(),
    ensures
        s.le_spec(a.over_spec(d)),
{
    reveal(Single::over_spec);
    lemma_zero(a);
    lemma_zero(d);
    lemma_zero(s);
    if a.size() == 0 {
        assert(s.size() == 0) by (nonlinear_arith)
            requires
                s.size() * d.size() <= 0,
                d.size() > 0,
                s.size() >= 0,
        ;
    } else {
        lemma_rounded_bounds(a.size() * pow2(149), d.size(), s);
        lemma_rounded_sign(a.size() * pow2(149), d.size());
    }
}

/// What a number is brought between two others keeps the order.
pub proof fn lemma_clamp_order(a: Single, b: Single, lo: Single, hi: Single)
    requires
        a.le_spec(b),
        lo.le_spec(hi),
    ensures
        a.clamp_spec(lo, hi).le_spec(b.clamp_spec(lo, hi)),
        lo.le_spec(a.clamp_spec(lo, hi)),
        a.clamp_spec(lo, hi).le_spec(hi),
{
}

/// A number times one is that number.
pub proof fn lemma_times_one(a: Single, one: Single)
    requires
        a.finite(),
        one.finite(),
        one.value() == pow2(149),
    ensures
        a.times_spec(one) == a,
{
    reveal(Single::times_spec);
    lemma_pow2_pos(149);
    lemma_rounded_scale(a.neg(), a.size(), 1, pow2(149));
    lemma_mul_basics(pow2(149) as int);
    lemma_rounded_exact(a);
}

/// A number over itself is one.
pub proof fn lemma_over_self(a: Single)
    requires
        a.finite(),
        a.size() > 0,
    ensures
        a.over_spec(a) == Single::whole_spec(1),
{
    reveal(Single::over_spec);
    lemma_zero(a);
    lemma_rounded_scale(false, pow2(149), 1, a.size());
    lemma_mul_is_commutative(pow2(149) as int, a.size() as int);
    lemma_mul_basics(a.size() as int);
    lemma_mul_basics(pow2(149) as int);
}

/// A number over the least normal one is rounded by at most its `2^24`th part.
pub proof fn lemma_rounded_close(n: nat, d: nat)
    requires
        d > 0,
        n >= 0x80_0000 * d,
        Single::rounded(false, n, d).finite(),
    ensures
        (Single::rounded(false, n, d).size() * d) * 0x100_0000 <= n * 0x100_0001,
        n * 0xff_ffff <= (Single::rounded(false, n, d).size() * d) * 0x100_0000,
{
    reveal(Single::rounded);
    let r = Single::rounded(false, n, d);
    let j = fit(n, d);
    let p = pow2(j);
    let q = d * p;
    let h = half_even(n, q);
    lemma_fit(n, d);
    lemma_pow2_pos(j);
    lemma2_to64();
    lemma_mul_basics(d as int);
    assert(q > 0) by (nonlinear_arith)
        requires
            q == d * p,
            d > 0,
            p > 0,
    ;
    assert(n >= 0x80_0000 * q) by {
        if j > 0 {
            lemma_pow2_unfold(j);
            let k = pow2((j - 1) as nat);
            assert(0x80_0000 * (d * (2 * k)) == 0x100_0000 * (d * k)) by (nonlinear_arith);
        }
    }
    lemma_half_even_bounds(n, q, 0x80_0000);
    lemma_half_even_bounds(n, q, 0x100_0000);
    lemma_fundamental_div_mod(n as int, q as int);
    let z = h * q;
    assert(2 * z <= 2 * n + q && 2 * n <= 2 * z + q) by (nonlinear_arith)
        requires
            n == q * (n / q) + n % q,
            (h == n / q && 2 * (n % q) <= q) || (h == n / q + 1 && 2 * (n % q) >= q),
            0 <= n % q < q,
            z == h * q,
    ;
    lemma_carried(h, j);
    assert(r.size() * d == z) by (nonlinear_arith)
        requires
            r.size() == h * p,
            q == d * p,
            z == h * q,
    ;
}

/// The size of a pattern without a sign, a significand that rounded up to `2^24`
/// included.
pub proof fn lemma_carried(h: nat, j: nat)
    requires
        0x80_0000 <= h <= 0x100_0000,
        j * 0x80_0000 + h < 0x7f80_0000,
    ensures
        ({
            let r = Single { bits: (j * 0x80_0000 + h) as u32 };
            r.finite() && r.size() == h * pow2(j)
        }),
{
    let r = Single { bits: (j * 0x80_0000 + h) as u32 };
    if h < 0x100_0000 {
        lemma_fundamental_div_mod_converse(
            r.bits as int,
            0x80_0000,
            (j + 1) as int,
            (h - 0x80_0000) as int,
        );
    } else {
        lemma_fundamental_div_mod_converse(r.bits as int, 0x80_0000, (j + 2) as int, 0);
        lemma_pow2_unfold(j + 1);
        let p = pow2(j);
        assert(0x80_0000 * (2 * p) == 0x100_0000 * p) by (nonlinear_arith);
    }
}

/// A sum of numbers is a number or an infinity.
pub proof fn lemma_plus_number(a: Single, b: Single)
    requires
        a.finite(),
        b.finite(),
    ensures
        !a.plus_spec(b).nan(),
{
    reveal(Single::plus_spec);
    let u = a.value() + b.value();
    lemma_rounded_sign((-u) as nat, 1);
    lemma_rounded_sign(u as nat, 1);
}

/// A quotient by a number other than zero is a number or an infinity.
pub proof fn lemma_over_number(a: Single, d: Single)
    requires
        !a.nan(),
        d.finite(),
        d.size() > 0,
    ensures
        !a.over_spec(d).nan(),
{
    reveal(Single::over_spec);
    lemma_zero(d);
    lemma_rounded_sign(a.size() * pow2(149), d.size());
}

/// Quotients by a number over zero keep the order of numbers and infinities.
pub proof fn lemma_over_order_wide(a: Single, b: Single, d: Single)
    requires
        a.le_spec(b),
        d.finite(),
        d.value() > 0,
    ensures
        a.over_spec(d).le_spec(b.over_spec(d)),
{
    lemma_over_number(a, d);
    lemma_over_number(b, d);
    if a.finite() && b.finite() {
        lemma_value_order(a, b);
        lemma_over_order(a, b, d);
    } else {
        lemma_zero(d);
        lemma_rounded_sign(a.size() * pow2(149), d.size());
        lemma_rounded_sign(b.size() * pow2(149), d.size());
        reveal(Single::over_spec);
    }
}

/// Turning the sign of what one divides by turns the sign of the quotient.
pub proof fn lemma_over_turned(x: Single, d: Single)
    requires
        !x.nan(),
        d.finite(),
        d.size() > 0,
    ensures
        x.over_spec(d).key() == -x.over_spec(d.negated_spec()).key(),
{
    reveal(Single::over_spec);
    lemma_negated(d);
    lemma_zero(d);
    lemma_zero(d.negated_spec());
    lemma_rounded_sign(x.size() * pow2(149), d.size());
}

/// The nearest integer to a number that is close to one is that one.
pub proof fn lemma_nearest_close(n: nat, s: Single)
    requires
        0 < n < 0x100_0000,
        s.finite(),
        16 * n * pow2(149) - pow2(149) <= 16 * s.value() <= 16 * n * pow2(149) + pow2(149),
    ensures
        s.nearest_u32_spec() == n,
{
    reveal(Single::nearest_u32_spec);
    lemma_pow2_pos(149);
    lemma_pow2_unfold(150);
    let t = pow2(149);
    assert(16 * n * t >= 16 * t && n * (2 * t) == 2 * (n * t) && 16 * n * t == 16 * (n * t))
        by (nonlinear_arith)
        requires
            n >= 1,
            t >= 0,
    ;
    let r: int = 2 * s.value() + t - 2 * (n * t);
    lemma_fundamental_div_mod_converse(
        (2 * s.size() + t) as int,
        (2 * t) as int,
        n as int,
        r,
    );
}

} // verus!
