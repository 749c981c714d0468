use vstd::prelude::*;

verus! {

/// Largest exponent magnitude the exponentiation routine evaluates in full.
/// Any base whose numerator or denominator has magnitude at least two
/// overflows an `i128` long before this bound, and bases with value `0`,
/// `1` or `-1` are handled separately, so the bound only cuts off results
/// that could never be represented exactly anyway.
pub const MAX_EXPONENT: i128 = 300;

/// An exact rational value `num / den`.  Well-formed values keep `den >= 1`;
/// the fraction is not necessarily reduced.
#[derive(Clone, Copy, Debug, PartialEq, Eq, Structural)]
pub struct Rat {
    pub num: i128,
    pub den: i128,
}

impl Rat {
    /// A well-formed rational keeps a positive denominator.
    pub open spec fn wf(self) -> bool {
        self.den >= 1
    }

    /// The rational denotes the integer `n`.
    pub open spec fn is_int(self, n: int) -> bool {
        self.num == n * self.den
    }

    pub fn from_u8(n: u8) -> (r: Rat)
        ensures
            r == rat_of_u8(n),
    {
        Rat { num: n as i128, den: 1 }
    }
}

/// The rational denoting a single card value.
pub open spec fn rat_of_u8(n: u8) -> Rat {
    Rat { num: n as i128, den: 1 }
}

/// Whether a mathematical integer is representable as an `i128`.
pub open spec fn in_i128(x: int) -> bool {
    i128::MIN <= x <= i128::MAX
}

/// Exact sum of two rationals, or `None` if any intermediate product or the
/// final numerator leaves the `i128` range.
pub open spec fn rat_add_spec(a: Rat, b: Rat) -> Option<Rat> {
    let p1 = a.num * b.den;
    let p2 = b.num * a.den;
    let d = a.den * b.den;
    if in_i128(p1) && in_i128(p2) && in_i128(p1 + p2) && in_i128(d) {
        Some(Rat { num: (p1 + p2) as i128, den: d as i128 })
    } else {
        None
    }
}

/// Exact difference of two rationals, with the same range discipline as
/// `rat_add_spec`.
pub open spec fn rat_sub_spec(a: Rat, b: Rat) -> Option<Rat> {
    let p1 = a.num * b.den;
    let p2 = b.num * a.den;
    let d = a.den * b.den;
    if in_i128(p1) && in_i128(p2) && in_i128(p1 - p2) && in_i128(d) {
        Some(Rat { num: (p1 - p2) as i128, den: d as i128 })
    } else {
        None
    }
}

/// Exact product of two rationals.
pub open spec fn rat_mul_spec(a: Rat, b: Rat) -> Option<Rat> {
    let n = a.num * b.num;
    let d = a.den * b.den;
    if in_i128(n) && in_i128(d) {
        Some(Rat { num: n as i128, den: d as i128 })
    } else {
        None
    }
}

/// Exact quotient of two rationals.  Division by zero has no value, and the
/// resulting denominator is normalised to stay positive.
pub open spec fn rat_div_spec(a: Rat, b: Rat) -> Option<Rat> {
    if b.num == 0 {
        None
    } else {
        let n = a.num * b.den;
        let d = a.den * b.num;
        if !(in_i128(n) && in_i128(d)) {
            None
        } else if d < 0 {
            if in_i128(-n) && in_i128(-d) {
                Some(Rat { num: (-n) as i128, den: (-d) as i128 })
            } else {
                None
            }
        } else {
            Some(Rat { num: n as i128, den: d as i128 })
        }
    }
}

/// Greatest common divisor, by Euclid's rule, of two nonnegative numbers.
pub open spec fn gcd_spec(a: int, b: int) -> int
    decreases b,
{
    if b <= 0 {
        a
    } else {
        gcd_spec(b, a % b)
    }
}

/// The divisor is at least one and at most either operand.
proof fn lemma_gcd_bounds(a: int, b: int)
    requires
        a >= 0,
        b >= 0,
    ensures
        (a >= 1 || b >= 1) ==> gcd_spec(a, b) >= 1,
        b >= 1 ==> gcd_spec(a, b) <= b,
        a >= 1 ==> gcd_spec(a, b) <= a,
    decreases b,
{
    if b >= 1 {
        lemma_gcd_bounds(b, a % b);
        if a >= 1 && b > a {
            vstd::arithmetic::div_mod::lemma_small_mod(a as nat, b as nat);
            assert(a % b == a);
        }
    }
}

/// Euclid's rule, executed.
fn gcd_i128(a: i128, b: i128) -> (g: i128)
    requires
        a >= 0,
        b >= 0,
    ensures
        g == gcd_spec(a as int, b as int),
{
    let mut x = a;
    let mut y = b;
    while y > 0
        invariant
            x >= 0,
            y >= 0,
            gcd_spec(x as int, y as int) == gcd_spec(a as int, b as int),
        decreases y,
    {
        let t = x % y;
        x = y;
        y = t;
    }
    x
}

/// Reads the exponent off a rational: the sign, then numerator and
/// denominator of the reduced magnitude `p / q`.
pub open spec fn exp_reduced(e: Rat) -> Option<(bool, i128, i128)> {
    if e.den < 1 {
        None
    } else if e.num == i128::MIN {
        None
    } else {
        let mag0: int = if e.num < 0 {
            -e.num
        } else {
            e.num as int
        };
        let g = gcd_spec(mag0, e.den as int);
        Some(((e.num < 0), (mag0 / g) as i128, ((e.den as int) / g) as i128))
    }
}

/// `b` to the power `e`, failing as soon as an intermediate product leaves
/// the `i128` range.
pub open spec fn pow_checked(b: i128, e: nat) -> Option<i128>
    decreases e,
{
    if e == 0 {
        Some(1i128)
    } else {
        match pow_checked(b, (e - 1) as nat) {
            Some(p) => if in_i128(b * p) {
                Some((b * p) as i128)
            } else {
                None
            },
            None => None,
        }
    }
}

/// Whether `r` is the exact nonnegative `q`-th root of `n`.
pub open spec fn is_exact_root(n: i128, q: nat, r: i128) -> bool {
    0 <= r && pow_checked(r, q) == Some(n)
}

/// The exact nonnegative `q`-th root of `n`, where one exists.
pub open spec fn exact_root(n: i128, q: nat) -> Option<i128> {
    if exists|r: i128| is_exact_root(n, q, r) {
        Some(choose|r: i128| is_exact_root(n, q, r))
    } else {
        None
    }
}

/// Exact power of a rational by a rational.  The exponent is reduced to
/// `p / q`; for `q == 1` this is iterated multiplication, with the base
/// inverted for a negative exponent.  For `q >= 2` the power exists
/// exactly when the reduced base's numerator and denominator are perfect
/// `q`-th powers (a negative base needs an odd `q`; with an even `q` the
/// power is not real).  `x^0 == 1` for every `x`, `0` to a negative power
/// has no value, and magnitudes beyond `MAX_EXPONENT` are cut off.
pub open spec fn rat_pow_spec(a: Rat, e: Rat) -> Option<Rat> {
    match exp_reduced(e) {
        None => None,
        Some((neg, p, q)) => {
            if p == 0 {
                Some(Rat { num: 1, den: 1 })
            } else if a.num == 0 {
                if neg {
                    None
                } else {
                    Some(Rat { num: 0, den: 1 })
                }
            } else if a.num == a.den {
                Some(Rat { num: 1, den: 1 })
            } else if a.num == -a.den {
                if q == 1 {
                    Some(Rat { num: if p % 2 == 0 { 1i128 } else { -1i128 }, den: 1 })
                } else {
                    None
                }
            } else if p > MAX_EXPONENT || q > MAX_EXPONENT {
                None
            } else if a.num == i128::MIN {
                None
            } else if q == 1 {
                let bn = if neg { if a.num < 0 { (-a.den) as i128 } else { a.den } } else { a.num };
                let bd = if neg { if a.num < 0 { (-a.num) as i128 } else { a.num } } else { a.den };
                match (pow_checked(bn, p as nat), pow_checked(bd, p as nat)) {
                    (Some(n), Some(d)) => Some(Rat { num: n, den: d }),
                    _ => None,
                }
            } else if a.num < 0 && q % 2 == 0 {
                None
            } else {
                let na: i128 = if a.num < 0 { (-a.num) as i128 } else { a.num };
                let g2 = gcd_spec(na as int, a.den as int);
                let bn0 = ((na as int) / g2) as i128;
                let bd0 = ((a.den as int) / g2) as i128;
                match (exact_root(bn0, q as nat), exact_root(bd0, q as nat)) {
                    (Some(rn), Some(rd)) => {
                        let sn: i128 = if a.num < 0 { (-rn) as i128 } else { rn };
                        let bn = if neg { if sn < 0 { (-rd) as i128 } else { rd } } else { sn };
                        let bd = if neg { if sn < 0 { (-sn) as i128 } else { sn } } else { rd };
                        match (pow_checked(bn, p as nat), pow_checked(bd, p as nat)) {
                            (Some(n), Some(d)) => Some(Rat { num: n, den: d }),
                            _ => None,
                        }
                    },
                    _ => None,
                }
            }
        },
    }
}

/// Exact rational addition.
pub fn rat_add(a: Rat, b: Rat) -> (r: Option<Rat>)
    ensures
        r == rat_add_spec(a, b),
{
    match a.num.checked_mul(b.den) {
        None => None,
        Some(p1) => match b.num.checked_mul(a.den) {
            None => None,
            Some(p2) => match p1.checked_add(p2) {
                None => None,
                Some(n) => match a.den.checked_mul(b.den) {
                    None => None,
                    Some(d) => Some(Rat { num: n, den: d }),
                },
            },
        },
    }
}

/// Exact rational subtraction.
pub fn rat_sub(a: Rat, b: Rat) -> (r: Option<Rat>)
    ensures
        r == rat_sub_spec(a, b),
{
    match a.num.checked_mul(b.den) {
        None => None,
        Some(p1) => match b.num.checked_mul(a.den) {
            None => None,
            Some(p2) => match p1.checked_sub(p2) {
                None => None,
                Some(n) => match a.den.checked_mul(b.den) {
                    None => None,
                    Some(d) => Some(Rat { num: n, den: d }),
                },
            },
        },
    }
}

/// Exact rational multiplication.
pub fn rat_mul(a: Rat, b: Rat) -> (r: Option<Rat>)
    ensures
        r == rat_mul_spec(a, b),
{
    match a.num.checked_mul(b.num) {
        None => None,
        Some(n) => match a.den.checked_mul(b.den) {
            None => None,
            Some(d) => Some(Rat { num: n, den: d }),
        },
    }
}

/// Exact rational division.
pub fn rat_div(a: Rat, b: Rat) -> (r: Option<Rat>)
    ensures
        r == rat_div_spec(a, b),
{
    if b.num == 0 {
        None
    } else {
        match a.num.checked_mul(b.den) {
            None => None,
            Some(n) => match a.den.checked_mul(b.num) {
                None => None,
                Some(d) => {
                    if d < 0 {
                        if n == i128::MIN || d == i128::MIN {
                            None
                        } else {
                            Some(Rat { num: -n, den: -d })
                        }
                    } else {
                        Some(Rat { num: n, den: d })
                    }
                },
            },
        }
    }
}

/// Reads the reduced exponent, as `exp_reduced` describes.
fn exp_reduced_exec(e: Rat) -> (r: Option<(bool, i128, i128)>)
    requires
        e.wf(),
    ensures
        r == exp_reduced(e),
        r matches Some((neg, p, q)) ==> p >= 0 && q >= 1,
{
    if e.num == i128::MIN {
        None
    } else {
        let neg = e.num < 0;
        let mag0 = if neg {
            -e.num
        } else {
            e.num
        };
        let g = gcd_i128(mag0, e.den);
        proof {
            lemma_gcd_bounds(mag0 as int, e.den as int);
            vstd::arithmetic::div_mod::lemma_div_nonincreasing(mag0 as int, g as int);
            vstd::arithmetic::div_mod::lemma_div_pos_is_pos(mag0 as int, g as int);
            vstd::arithmetic::div_mod::lemma_div_nonincreasing(e.den as int, g as int);
            vstd::arithmetic::div_mod::lemma_div_pos_is_pos(e.den as int, g as int);
            vstd::arithmetic::div_mod::lemma_div_non_zero(e.den as int, g as int);
        }
        Some((neg, mag0 / g, e.den / g))
    }
}

/// Iterated checked multiplication, following `pow_checked`.
fn pow_i128(b: i128, e: i128) -> (r: Option<i128>)
    requires
        0 <= e <= MAX_EXPONENT,
    ensures
        r == pow_checked(b, e as nat),
{
    let mut acc: i128 = 1;
    let mut i: i128 = 0;
    while i < e
        invariant
            0 <= i <= e,
            e <= MAX_EXPONENT,
            Some(acc) == pow_checked(b, i as nat),
        decreases e - i,
    {
        match b.checked_mul(acc) {
            None => {
                proof {
                    assert(pow_checked(b, (i + 1) as nat) is None);
                    lemma_pow_checked_none(b, (i + 1) as nat, e as nat);
                }
                return None;
            },
            Some(p) => {
                acc = p;
            },
        }
        i = i + 1;
    }
    Some(acc)
}

/// Once `pow_checked` fails it fails for every larger exponent.
proof fn lemma_pow_checked_none(b: i128, e1: nat, e2: nat)
    requires
        e1 <= e2,
        pow_checked(b, e1) is None,
    ensures
        pow_checked(b, e2) is None,
    decreases e2,
{
    if e2 > e1 {
        lemma_pow_checked_none(b, e1, (e2 - 1) as nat);
    }
}

/// A power of a positive base stays positive.
pub proof fn lemma_pow_checked_pos(b: i128, e: nat)
    requires
        b >= 1,
        pow_checked(b, e) is Some,
    ensures
        pow_checked(b, e)->Some_0 >= 1,
    decreases e,
{
    if e > 0 {
        lemma_pow_checked_pos(b, (e - 1) as nat);
        let p = pow_checked(b, (e - 1) as nat)->Some_0;
        assert(b * p >= 1) by (nonlinear_arith)
            requires
                b >= 1,
                p >= 1,
        ;
    }
}

/// The power of zero is zero.
proof fn lemma_pow_zero(q: nat)
    requires
        q >= 1,
    ensures
        pow_checked(0i128, q) == Some(0i128),
    decreases q,
{
    reveal_with_fuel(pow_checked, 2);
    if q > 1 {
        lemma_pow_zero((q - 1) as nat);
    }
}

/// The checked power is monotone in a nonnegative base, strictly so, and
/// at least the base itself.
proof fn lemma_pow_base_mono(r1: i128, r2: i128, q: nat)
    requires
        0 <= r1 <= r2,
        q >= 1,
        pow_checked(r2, q) is Some,
    ensures
        pow_checked(r1, q) is Some,
        0 <= pow_checked(r1, q)->Some_0 <= pow_checked(r2, q)->Some_0,
        pow_checked(r2, q)->Some_0 >= r2,
        r1 < r2 ==> pow_checked(r1, q)->Some_0 < pow_checked(r2, q)->Some_0,
    decreases q,
{
    if q == 1 {
        reveal_with_fuel(pow_checked, 2);
        assert(pow_checked(r1, 0) == Some(1i128));
        assert(pow_checked(r2, 0) == Some(1i128));
        assert(in_i128(r1 * 1) && in_i128(r2 * 1));
        assert(pow_checked(r1, 1) == Some((r1 * 1) as i128));
        assert(pow_checked(r2, 1) == Some((r2 * 1) as i128));
        assert(pow_checked(r1, q) == Some(r1));
        assert(pow_checked(r2, q) == Some(r2));
    } else {
        if pow_checked(r2, (q - 1) as nat) is None {
            lemma_pow_checked_none(r2, (q - 1) as nat, q);
        }
        lemma_pow_base_mono(r1, r2, (q - 1) as nat);
        let p1 = pow_checked(r1, (q - 1) as nat)->Some_0;
        let p2 = pow_checked(r2, (q - 1) as nat)->Some_0;
        assert(0 <= r1 * p1 <= r2 * p2) by (nonlinear_arith)
            requires
                0 <= r1 <= r2,
                0 <= p1 <= p2,
        ;
        if r2 >= 1 {
            lemma_pow_checked_pos(r2, (q - 1) as nat);
            assert(r2 * p2 >= r2) by (nonlinear_arith)
                requires
                    r2 >= 0,
                    p2 >= 1,
            ;
            if r1 < r2 {
                assert(r1 * p1 < r2 * p2) by (nonlinear_arith)
                    requires
                        0 <= r1 < r2,
                        0 <= p1 <= p2,
                        p2 >= 1,
                ;
            }
        }
    }
}

/// Two exact roots of the same number coincide.
proof fn lemma_root_unique(n: i128, q: nat, r1: i128, r2: i128)
    requires
        q >= 1,
        is_exact_root(n, q, r1),
        is_exact_root(n, q, r2),
    ensures
        r1 == r2,
{
    if r1 < r2 {
        lemma_pow_base_mono(r1, r2, q);
    }
    if r2 < r1 {
        lemma_pow_base_mono(r2, r1, q);
    }
}

/// Finds the exact `q`-th root by binary search, as `exact_root`
/// describes.
fn find_root(n: i128, q: i128) -> (res: Option<i128>)
    requires
        n >= 0,
        1 <= q <= MAX_EXPONENT,
    ensures
        res == exact_root(n, q as nat),
{
    proof {
        assert forall|c: i128| c > n implies !(#[trigger] is_exact_root(n, q as nat, c)) by {
            if is_exact_root(n, q as nat, c) {
                lemma_pow_base_mono(c, c, q as nat);
            }
        }
    }
    let mut lo: i128 = 0;
    let mut hi: i128 = n;
    while lo <= hi
        invariant
            n >= 0,
            1 <= q <= MAX_EXPONENT,
            0 <= lo,
            hi <= n,
            lo <= hi + 1,
            forall|c: i128| 0 <= c < lo ==> !(#[trigger] is_exact_root(n, q as nat, c)),
            forall|c: i128| c > hi ==> !(#[trigger] is_exact_root(n, q as nat, c)),
        decreases hi - lo + 1,
    {
        let mid = lo + (hi - lo) / 2;
        proof {
            vstd::arithmetic::div_mod::lemma_div_pos_is_pos((hi - lo) as int, 2);
            vstd::arithmetic::div_mod::lemma_div_nonincreasing((hi - lo) as int, 2);
        }
        match pow_i128(mid, q) {
            None => {
                proof {
                    assert forall|c: i128| c > mid - 1 implies !(#[trigger] is_exact_root(
                        n,
                        q as nat,
                        c,
                    )) by {
                        if c >= mid && is_exact_root(n, q as nat, c) {
                            lemma_pow_base_mono(mid, c, q as nat);
                        }
                    }
                }
                hi = mid - 1;
            },
            Some(v) => {
                if v == n {
                    proof {
                        assert(is_exact_root(n, q as nat, mid));
                        let w = choose|w: i128| #[trigger] is_exact_root(n, q as nat, w);
                        lemma_root_unique(n, q as nat, w, mid);
                    }
                    return Some(mid);
                } else if v < n {
                    proof {
                        lemma_pow_base_mono(mid, mid, q as nat);
                        assert(mid < n);
                        assert forall|c: i128| 0 <= c < mid + 1 implies !(#[trigger] is_exact_root(
                            n,
                            q as nat,
                            c,
                        )) by {
                            if is_exact_root(n, q as nat, c) {
                                lemma_pow_base_mono(c, mid, q as nat);
                            }
                        }
                    }
                    lo = mid + 1;
                } else {
                    proof {
                        assert forall|c: i128| c > mid - 1 implies !(#[trigger] is_exact_root(
                            n,
                            q as nat,
                            c,
                        )) by {
                            if c >= mid && is_exact_root(n, q as nat, c) {
                                lemma_pow_base_mono(mid, c, q as nat);
                            }
                        }
                    }
                    hi = mid - 1;
                }
            },
        }
    }
    proof {
        assert forall|c: i128| !(#[trigger] is_exact_root(n, q as nat, c)) by {
            if is_exact_root(n, q as nat, c) {
                assert(c >= 0);
                assert(c < lo || c > hi);
            }
        }
    }
    None
}

/// Exact rational exponentiation, as `rat_pow_spec` describes.
pub fn rat_pow(a: Rat, e: Rat) -> (r: Option<Rat>)
    requires
        a.wf(),
        e.wf(),
    ensures
        r == rat_pow_spec(a, e),
{
    match exp_reduced_exec(e) {
        None => None,
        Some((neg, p, q)) => {
            if p == 0 {
                Some(Rat { num: 1, den: 1 })
            } else if a.num == 0 {
                if neg {
                    None
                } else {
                    Some(Rat { num: 0, den: 1 })
                }
            } else if a.num == a.den {
                Some(Rat { num: 1, den: 1 })
            } else if a.num == -a.den {
                if q == 1 {
                    Some(Rat { num: if p % 2 == 0 { 1i128 } else { -1i128 }, den: 1 })
                } else {
                    None
                }
            } else if p > MAX_EXPONENT || q > MAX_EXPONENT {
                None
            } else if a.num == i128::MIN {
                None
            } else if q == 1 {
                let bn = if neg { if a.num < 0 { -a.den } else { a.den } } else { a.num };
                let bd = if neg { if a.num < 0 { -a.num } else { a.num } } else { a.den };
                match pow_i128(bn, p) {
                    None => None,
                    Some(n) => match pow_i128(bd, p) {
                        None => None,
                        Some(d) => Some(Rat { num: n, den: d }),
                    },
                }
            } else if a.num < 0 && q % 2 == 0 {
                None
            } else {
                let na: i128 = if a.num < 0 {
                    -a.num
                } else {
                    a.num
                };
                let g2 = gcd_i128(na, a.den);
                proof {
                    lemma_gcd_bounds(na as int, a.den as int);
                    vstd::arithmetic::div_mod::lemma_div_nonincreasing(na as int, g2 as int);
                    vstd::arithmetic::div_mod::lemma_div_pos_is_pos(na as int, g2 as int);
                    vstd::arithmetic::div_mod::lemma_div_nonincreasing(a.den as int, g2 as int);
                    vstd::arithmetic::div_mod::lemma_div_pos_is_pos(a.den as int, g2 as int);
                }
                let bn0 = na / g2;
                let bd0 = a.den / g2;
                match find_root(bn0, q) {
                    None => None,
                    Some(rn) => match find_root(bd0, q) {
                        None => None,
                        Some(rd) => {
                            proof {
                                assert(is_exact_root(bn0, q as nat, choose|r: i128|
                                    #[trigger] is_exact_root(bn0, q as nat, r)));
                                assert(is_exact_root(bd0, q as nat, choose|r: i128|
                                    #[trigger] is_exact_root(bd0, q as nat, r)));
                            }
                            let sn: i128 = if a.num < 0 {
                                -rn
                            } else {
                                rn
                            };
                            let bn = if neg { if sn < 0 { -rd } else { rd } } else { sn };
                            let bd = if neg { if sn < 0 { -sn } else { sn } } else { rd };
                            match pow_i128(bn, p) {
                                None => None,
                                Some(n) => match pow_i128(bd, p) {
                                    None => None,
                                    Some(d) => Some(Rat { num: n, den: d }),
                                },
                            }
                        },
                    },
                }
            }
        },
    }
}

/// A well-formed base and exponent give a well-formed power.
pub proof fn lemma_rat_pow_wf(a: Rat, e: Rat)
    requires
        a.wf(),
        e.wf(),
    ensures
        rat_pow_spec(a, e) matches Some(c) ==> c.wf(),
{
    if rat_pow_spec(a, e) is Some {
        let c = rat_pow_spec(a, e)->Some_0;
        if c.den != 1 {
            let (neg, p, q) = exp_reduced(e)->Some_0;
            let mag0: int = if e.num < 0 {
                -e.num
            } else {
                e.num as int
            };
            let g = gcd_spec(mag0, e.den as int);
            lemma_gcd_bounds(mag0, e.den as int);
            vstd::arithmetic::div_mod::lemma_div_pos_is_pos(mag0, g);
            vstd::arithmetic::div_mod::lemma_div_nonincreasing(mag0, g);
            vstd::arithmetic::div_mod::lemma_div_non_zero(e.den as int, g);
            vstd::arithmetic::div_mod::lemma_div_nonincreasing(e.den as int, g);
            assert(p >= 0 && q >= 1);
            if q == 1 {
                let bd = if neg { if a.num < 0 { (-a.num) as i128 } else { a.num } } else { a.den };
                assert(bd >= 1);
                lemma_pow_checked_pos(bd, p as nat);
            } else {
                let na: i128 = if a.num < 0 { (-a.num) as i128 } else { a.num };
                let g2 = gcd_spec(na as int, a.den as int);
                lemma_gcd_bounds(na as int, a.den as int);
                let bn0 = ((na as int) / g2) as i128;
                let bd0 = ((a.den as int) / g2) as i128;
                vstd::arithmetic::div_mod::lemma_div_non_zero(na as int, g2);
                vstd::arithmetic::div_mod::lemma_div_non_zero(a.den as int, g2);
                vstd::arithmetic::div_mod::lemma_div_nonincreasing(na as int, g2);
                vstd::arithmetic::div_mod::lemma_div_nonincreasing(a.den as int, g2);
                let rn = exact_root(bn0, q as nat)->Some_0;
                let rd = exact_root(bd0, q as nat)->Some_0;
                assert(is_exact_root(bn0, q as nat, rn));
                assert(is_exact_root(bd0, q as nat, rd));
                if rn == 0 {
                    lemma_pow_zero(q as nat);
                    assert(bn0 == 0);
                }
                if rd == 0 {
                    lemma_pow_zero(q as nat);
                    assert(bd0 == 0);
                }
                assert(rn >= 1 && rd >= 1);
                let sn: i128 = if a.num < 0 { (-rn) as i128 } else { rn };
                let bd = if neg { if sn < 0 { (-sn) as i128 } else { sn } } else { rd };
                assert(bd >= 1);
                lemma_pow_checked_pos(bd, p as nat);
            }
        }
    }
}

} // verus!
