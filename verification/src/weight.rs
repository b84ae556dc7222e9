//! Neighbour weights of the blur, as integers.
//!
//! A neighbour at distance `dist` counts with weight `1 / max(1, dist)`. A
//! squared distance `d` is written as `m * m * s`, with `m` as large as it
//! can be, so that the weight is `1 / (m * sqrt(s))`. The root `1 / sqrt(s)`
//! is held with 60 fractional bits, rounded down. The division by `m` is
//! exact: every weight of one blur is scaled by the product of all whole
//! numbers up to the largest distance that the blur can meet, its reach.
//! Weights under one root are therefore exact fractions of each other, and
//! weighted sums that cancel root by root cancel here to the last bit. That
//! is how a mean comes to be exactly a half, and why such a mean is a half
//! here too. Where the roots themselves are compared, 60 bits decide.

use vstd::prelude::*;
use vstd::arithmetic::div_mod::{
    lemma_basic_div,
    lemma_div_is_ordered_by_denominator,
    lemma_fundamental_div_mod,
    lemma_mod_multiples_basic,
};
use crate::big::Big;

verus! {

/// Scale of the roots: `2^60`.
pub const ROOT_SCALE: u64 = 0x1000_0000_0000_0000;

/// `ROOT_SCALE * ROOT_SCALE`.
pub const ROOT_SCALE_SQUARED: u128 = 0x100_0000_0000_0000_0000_0000_0000_0000;

/// Squared distance between two pixels that are `dx` columns and `dy` rows
/// apart.
pub open spec fn dist_sq(dx: int, dy: int) -> int {
    dx * dx + dy * dy
}

/// The square of `m` divides `d`.
pub open spec fn square_divides(m: int, d: int) -> bool {
    m >= 1 && d % (m * m) == 0
}

/// `m` is the largest number whose square divides `d`.
pub open spec fn is_root_part(m: int, d: int) -> bool {
    square_divides(m, d) && forall|j: int| #[trigger] square_divides(j, d) ==> j <= m
}

/// The largest number whose square divides `d`: the integer that can be
/// taken out of the root of `d`.
pub open spec fn root_part(d: int) -> int {
    choose|m: int| is_root_part(m, d)
}

/// What is left of `d` under the root: `d` without its largest square.
pub open spec fn free_part(d: int) -> int {
    d / (root_part(d) * root_part(d))
}

/// `w` is `ROOT_SCALE / sqrt(s)` rounded down: the largest integer whose
/// square, times `s`, does not exceed `ROOT_SCALE * ROOT_SCALE`.
pub open spec fn is_inverse_root(w: nat, s: int) -> bool {
    w * w * s <= ROOT_SCALE * ROOT_SCALE < (w + 1) * (w + 1) * s
}

/// `ROOT_SCALE / sqrt(s)` rounded down.
pub open spec fn inverse_root(s: int) -> nat {
    choose|w: nat| is_inverse_root(w, s)
}

/// The product of the numbers from 1 to `n`, without `skip`.
pub open spec fn product_without(n: nat, skip: int) -> nat
    decreases n,
{
    if n == 0 {
        1
    } else if n == skip {
        product_without((n - 1) as nat, skip)
    } else {
        n * product_without((n - 1) as nat, skip)
    }
}

/// Weight of a neighbour at squared distance `d`, in a blur of the given
/// reach: `inverse_root(s)` times the product of the numbers up to `reach`
/// without `m`, where `d` is `m * m * s` and `m` is as large as it can be.
/// That is `ROOT_SCALE / (m * sqrt(s))` times the product of all numbers up
/// to `reach`, as long as `m` is among them. The pixel itself weighs as
/// much as a neighbour at distance one.
pub open spec fn weight(d: int, reach: nat) -> nat {
    if d <= 0 {
        ROOT_SCALE as nat * product_without(reach, 1)
    } else {
        inverse_root(free_part(d)) * product_without(reach, root_part(d))
    }
}

proof fn lemma_square_monotonic(a: nat, b: nat, d: int)
    by (nonlinear_arith)
    requires
        a <= b,
        d >= 0,
    ensures
        a * a * d <= b * b * d,
{
}

/// At most one integer is the inverse root of a given number.
pub proof fn lemma_inverse_root_unique(w1: nat, w2: nat, s: int)
    requires
        s >= 1,
        is_inverse_root(w1, s),
        is_inverse_root(w2, s),
    ensures
        w1 == w2,
{
    if w1 < w2 {
        lemma_square_monotonic(w1 + 1, w2, s);
    } else if w2 < w1 {
        lemma_square_monotonic(w2 + 1, w1, s);
    }
}

/// A square that divides a positive number is not larger than it.
proof fn lemma_square_divisor_is_small(j: int, d: int)
    requires
        d >= 1,
        square_divides(j, d),
    ensures
        1 <= j,
        1 <= j * j <= d,
{
    assert(j * j >= 1) by (nonlinear_arith)
        requires
            j >= 1,
    ;
    if j * j > d {
        lemma_basic_div(d, j * j);
        lemma_fundamental_div_mod(d, j * j);
    }
}

proof fn lemma_root_part_search(d: int, i: int, m: int)
    requires
        d >= 1,
        1 <= m < i,
        square_divides(m, d),
        forall|j: int| #[trigger] square_divides(j, d) && j < i ==> j <= m,
    ensures
        is_root_part(root_part(d), d),
    decreases d + 1 - i,
{
    if i * i > d {
        assert forall|j: int| #[trigger] square_divides(j, d) implies j <= m by {
            lemma_square_divisor_is_small(j, d);
            if j >= i {
                assert(j * j >= i * i) by (nonlinear_arith)
                    requires
                        j >= i >= 1,
                ;
            }
        }
        assert(is_root_part(m, d));
    } else {
        assert(i <= d) by (nonlinear_arith)
            requires
                i >= 1,
                i * i <= d,
        ;
        if d % (i * i) == 0 {
            lemma_root_part_search(d, i + 1, i);
        } else {
            lemma_root_part_search(d, i + 1, m);
        }
    }
}

/// Every positive number has a largest square that divides it.
pub proof fn lemma_root_part(d: int)
    requires
        d >= 1,
    ensures
        is_root_part(root_part(d), d),
        1 <= root_part(d),
        1 <= root_part(d) * root_part(d) <= d,
        d == root_part(d) * root_part(d) * free_part(d),
        1 <= free_part(d),
{
    assert(square_divides(1, d));
    lemma_root_part_search(d, 2, 1);
    let m = root_part(d);
    lemma_square_divisor_is_small(m, d);
    lemma_fundamental_div_mod(d, m * m);
    assert(free_part(d) >= 1) by (nonlinear_arith)
        requires
            d == (m * m) * free_part(d),
            d >= 1,
            m * m >= 1,
    ;
}

/// What is left under the root has no square in it.
pub proof fn lemma_free_part_is_square_free(d: int)
    requires
        d >= 1,
    ensures
        root_part(free_part(d)) == 1,
        free_part(free_part(d)) == free_part(d),
{
    lemma_root_part(d);
    let m = root_part(d);
    let s = free_part(d);
    assert forall|j: int| #[trigger] square_divides(j, s) implies j <= 1 by {
        let t = s / (j * j);
        lemma_fundamental_div_mod(s, j * j);
        assert(d == t * ((j * m) * (j * m))) by (nonlinear_arith)
            requires
                d == m * m * s,
                s == (j * j) * t,
        ;
        lemma_mod_multiples_basic(t, (j * m) * (j * m));
        assert(j * m >= 1) by (nonlinear_arith)
            requires
                j >= 1,
                m >= 1,
        ;
        assert(square_divides(j * m, d));
        assert(j <= 1) by (nonlinear_arith)
            requires
                j * m <= m,
                m >= 1,
        ;
    }
    assert(square_divides(1, s));
    lemma_root_part(s);
    assert(square_divides(root_part(s), s));
    assert(root_part(s) == 1);
    assert(root_part(s) * root_part(s) == 1);
    assert(s / 1 == s);
}

/// A product of whole numbers is not zero.
pub proof fn lemma_product_is_positive(n: nat, skip: int)
    ensures
        product_without(n, skip) >= 1,
    decreases n,
{
    if n > 0 {
        lemma_product_is_positive((n - 1) as nat, skip);
        let rest = product_without((n - 1) as nat, skip);
        assert(n * rest >= 1) by (nonlinear_arith)
            requires
                n >= 1,
                rest >= 1,
        ;
    }
}

proof fn lemma_product_skips_nothing(n: nat, skip: int)
    requires
        skip > n || skip <= 1,
    ensures
        product_without(n, skip) == product_without(n, 1),
    decreases n,
{
    if n > 0 && skip != 1 {
        lemma_product_skips_nothing((n - 1) as nat, skip);
        let rest = product_without((n - 1) as nat, 1);
        assert(product_without(n, skip) == n * rest);
        if n == 1 {
            assert(rest == 1);
            assert(product_without(1, 1) == product_without(0, 1));
            assert(1 * rest == 1);
        } else {
            assert(product_without(n, 1) == n * rest);
        }
    }
}

/// Leaving `m` out of the product divides it by `m`.
pub proof fn lemma_product_without(n: nat, m: int)
    requires
        1 <= m <= n,
    ensures
        product_without(n, m) * m == product_without(n, 1),
    decreases n,
{
    if n == m {
        lemma_product_skips_nothing((n - 1) as nat, m);
        if n == 1 {
            assert(product_without(1, 1) * 1 == product_without(1, 1));
        } else {
            let rest = product_without((n - 1) as nat, 1);
            assert(rest * m == n * rest) by (nonlinear_arith)
                requires
                    m == n,
            ;
        }
    } else {
        lemma_product_without((n - 1) as nat, m);
        let left = product_without((n - 1) as nat, m);
        let right = product_without((n - 1) as nat, 1);
        assert((n * left) * m == n * right) by (nonlinear_arith)
            requires
                left * m == right,
        ;
    }
}

/// Weights under one root are exact fractions of each other: a weight
/// times the whole number taken out of its root is the weight of what is
/// left under the root.
pub proof fn lemma_weight_in_class(d: int, reach: nat)
    requires
        d >= 1,
        root_part(d) <= reach,
    ensures
        weight(d, reach) * root_part(d) == weight(free_part(d), reach),
{
    lemma_root_part(d);
    lemma_free_part_is_square_free(d);
    let m = root_part(d);
    let s = free_part(d);
    let root = inverse_root(s);
    lemma_product_without(reach, m);
    let part = product_without(reach, m);
    let whole = product_without(reach, 1);
    assert((root * part) * m == root * whole) by (nonlinear_arith)
        requires
            part * m == whole,
    ;
}

/// A neighbour at a whole distance `m` weighs exactly the `m`-th part of
/// what the pixel itself weighs.
pub proof fn lemma_weight_at_whole_distance(m: int, reach: nat)
    requires
        1 <= m <= reach,
    ensures
        weight(m * m, reach) * m == weight(0, reach),
{
    let d = m * m;
    assert(d >= 1) by (nonlinear_arith)
        requires
            d == m * m,
            m >= 1,
    ;
    lemma_root_part(d);
    lemma_mod_multiples_basic(1, d);
    assert(square_divides(m, d));
    assert forall|j: int| #[trigger] square_divides(j, d) implies j <= m by {
        lemma_square_divisor_is_small(j, d);
        assert(j <= m) by (nonlinear_arith)
            requires
                j >= 1,
                m >= 1,
                j * j <= m * m,
        ;
    }
    assert(square_divides(root_part(d), d));
    assert(root_part(d) == m);
    assert(d / d == 1) by (nonlinear_arith)
        requires
            d >= 1,
    ;
    assert(free_part(d) == 1);
    assert(is_inverse_root(ROOT_SCALE as nat, 1)) by (nonlinear_arith);
    lemma_inverse_root_unique(ROOT_SCALE as nat, inverse_root(1), 1);
    lemma_product_without(reach, m);
    let part = product_without(reach, m);
    let whole = product_without(reach, 1);
    assert((ROOT_SCALE * part) * m == ROOT_SCALE * whole) by (nonlinear_arith)
        requires
            part * m == whole,
    ;
}

/// Computes the largest number whose square divides `d`.
fn root_part_of(d: u128) -> (m: u128)
    requires
        d >= 1,
    ensures
        is_root_part(m as int, d as int),
        m == root_part(d as int),
        1 <= m,
        1 <= m * m <= d,
{
    let mut m: u128 = 1;
    let mut i: u128 = 2;
    assert(square_divides(1, d as int));
    assert forall|j: int| #[trigger] square_divides(j, d as int) && j < 2 implies j <= 1 by {}
    while i <= d / i
        invariant
            d >= 1,
            1 <= m < i,
            i <= 0x1_0000_0000_0000_0000,
            square_divides(m as int, d as int),
            forall|j: int| #[trigger] square_divides(j, d as int) && j < i ==> j <= m,
        decreases 0x1_0000_0000_0000_0001 - i,
    {
        assert(1 <= i * i <= d && i < 0x1_0000_0000_0000_0000) by (nonlinear_arith)
            requires
                1 <= i <= d / i,
                d <= u128::MAX,
        ;
        if d % (i * i) == 0 {
            m = i;
        }
        i = i + 1;
    }
    proof {
        assert(i * i > d) by (nonlinear_arith)
            requires
                i >= 1,
                i > d / i,
                d >= 0,
        ;
        assert forall|j: int| #[trigger] square_divides(j, d as int) implies j <= m by {
            lemma_square_divisor_is_small(j, d as int);
            if j >= i {
                assert(j * j >= i * i) by (nonlinear_arith)
                    requires
                        j >= i >= 1,
                ;
            }
        }
        lemma_square_divisor_is_small(m as int, d as int);
        let chosen = root_part(d as int);
        assert(is_root_part(m as int, d as int));
        assert(is_root_part(chosen, d as int));
        assert(square_divides(chosen, d as int));
        assert(square_divides(m as int, d as int));
    }
    m
}

/// Computes `ROOT_SCALE / sqrt(s)` rounded down.
fn inverse_root_of(s: u128) -> (w: u64)
    requires
        s >= 1,
    ensures
        is_inverse_root(w as nat, s as int),
        w == inverse_root(s as int),
        w <= ROOT_SCALE,
{
    if s == 1 {
        proof {
            assert(is_inverse_root(ROOT_SCALE as nat, 1)) by (nonlinear_arith);
            lemma_inverse_root_unique(ROOT_SCALE as nat, inverse_root(1), 1);
        }
        return ROOT_SCALE;
    }
    let q: u128 = ROOT_SCALE_SQUARED / s;
    let mut lo: u64 = 0;
    let mut hi: u64 = ROOT_SCALE;
    proof {
        lemma_div_is_ordered_by_denominator(ROOT_SCALE_SQUARED as int, 2, s as int);
    }
    assert(q < hi * hi) by (nonlinear_arith)
        requires
            q <= ROOT_SCALE_SQUARED / 2,
            hi == ROOT_SCALE,
    ;
    while hi - lo > 1
        invariant
            lo < hi <= ROOT_SCALE,
            lo * lo <= q < hi * hi,
        decreases hi - lo,
    {
        let mid: u64 = lo + (hi - lo) / 2;
        assert(mid * mid <= ROOT_SCALE * ROOT_SCALE) by (nonlinear_arith)
            requires
                mid <= ROOT_SCALE,
        ;
        if (mid as u128) * (mid as u128) <= q {
            lo = mid;
        } else {
            hi = mid;
        }
    }
    proof {
        let w = lo as nat;
        assert(w * w * s <= ROOT_SCALE * ROOT_SCALE < (w + 1) * (w + 1) * s) by (nonlinear_arith)
            requires
                s >= 2,
                q == (ROOT_SCALE * ROOT_SCALE) / (s as int),
                w * w <= q < (w + 1) * (w + 1),
        ;
        lemma_inverse_root_unique(w, inverse_root(s as int), s as int);
    }
    lo
}

/// Computes the product of the numbers from 1 to `reach`, without `skip`.
fn product_without_of(reach: usize, skip: u128) -> (product: Big)
    requires
        reach < usize::MAX,
    ensures
        product@ == product_without(reach as nat, skip as int),
{
    let mut product: Big = Big::from_u64(1);
    let mut j: usize = 0;
    while j < reach
        invariant
            j <= reach < usize::MAX,
            product@ == product_without(j as nat, skip as int),
        decreases reach - j,
    {
        j = j + 1;
        if j as u128 != skip {
            product = product.times(j as u64);
            proof {
                let rest = product_without((j - 1) as nat, skip as int);
                assert(rest * j == j * rest) by (nonlinear_arith);
            }
        }
    }
    product
}

/// Computes the weight of a neighbour at squared distance `d`, in a blur of
/// the given reach.
pub fn weight_of(d: u128, reach: usize) -> (w: Big)
    requires
        reach < usize::MAX,
    ensures
        w@ == weight(d as int, reach as nat),
{
    if d == 0 {
        let whole: Big = product_without_of(reach, 1);
        let w: Big = whole.times(ROOT_SCALE);
        proof {
            let part = product_without(reach as nat, 1);
            assert(part * ROOT_SCALE == ROOT_SCALE * part) by (nonlinear_arith);
        }
        return w;
    }
    let m: u128 = root_part_of(d);
    let s: u128 = d / (m * m);
    proof {
        lemma_fundamental_div_mod(d as int, m * m);
        assert(s >= 1) by (nonlinear_arith)
            requires
                d == (m * m) * s + 0,
                d >= 1,
                m >= 1,
        ;
    }
    let root: u64 = inverse_root_of(s);
    let part: Big = product_without_of(reach, m);
    let w: Big = part.times(root);
    proof {
        let p = product_without(reach as nat, m as int);
        assert(p * root == root * p) by (nonlinear_arith);
    }
    w
}

} // verus!
