//! Natural numbers of any size, with the three operations that the blur
//! needs of them: a product with a small number, a sum, and a comparison.

use vstd::prelude::*;

verus! {

/// The base of the digits: `2^32`.
pub const RADIX: u64 = 0x1_0000_0000;

/// `RADIX` to the power `n`.
pub open spec fn radix_pow(n: nat) -> nat
    decreases n,
{
    if n == 0 {
        1
    } else {
        RADIX as nat * radix_pow((n - 1) as nat)
    }
}

/// Digit `i` of a number, counted from the lowest; zero beyond its end.
pub open spec fn limb(digits: Seq<u32>, i: int) -> nat {
    if 0 <= i < digits.len() {
        digits[i] as nat
    } else {
        0
    }
}

/// The number that the lowest `n` digits stand for.
pub open spec fn value_upto(digits: Seq<u32>, n: nat) -> nat
    decreases n,
{
    if n == 0 {
        0
    } else {
        value_upto(digits, (n - 1) as nat) + limb(digits, n - 1) * radix_pow((n - 1) as nat)
    }
}

/// A natural number, held by its digits to the base `RADIX`, lowest first.
#[derive(Debug)]
pub struct Big {
    pub digits: Vec<u32>,
}

impl View for Big {
    type V = nat;

    open spec fn view(&self) -> nat {
        value_upto(self.digits@, self.digits@.len())
    }
}

proof fn lemma_value_agrees(a: Seq<u32>, b: Seq<u32>, n: nat)
    requires
        forall|j: int| 0 <= j < n ==> limb(a, j) == limb(b, j),
    ensures
        value_upto(a, n) == value_upto(b, n),
    decreases n,
{
    if n > 0 {
        lemma_value_agrees(a, b, (n - 1) as nat);
    }
}

proof fn lemma_value_beyond(a: Seq<u32>, n: nat)
    requires
        n >= a.len(),
    ensures
        value_upto(a, n) == value_upto(a, a.len()),
    decreases n,
{
    if n > a.len() {
        lemma_value_beyond(a, (n - 1) as nat);
        assert(limb(a, n - 1) * radix_pow((n - 1) as nat) == 0) by (nonlinear_arith)
            requires
                limb(a, n - 1) == 0,
        ;
    }
}

proof fn lemma_value_bound(a: Seq<u32>, n: nat)
    ensures
        value_upto(a, n) < radix_pow(n),
    decreases n,
{
    if n > 0 {
        lemma_value_bound(a, (n - 1) as nat);
        let low = value_upto(a, (n - 1) as nat);
        let top = limb(a, n - 1);
        let unit = radix_pow((n - 1) as nat);
        assert(low + top * unit < 0x1_0000_0000 * unit) by (nonlinear_arith)
            requires
                low < unit,
                top <= 0xffff_ffff,
        ;
    }
}

proof fn lemma_high_agrees(a: Seq<u32>, b: Seq<u32>, t: nat, n: nat)
    requires
        t <= n,
        forall|j: int| t <= j < n ==> limb(a, j) == limb(b, j),
    ensures
        value_upto(a, n) - value_upto(a, t) == value_upto(b, n) - value_upto(b, t),
    decreases n,
{
    if n > t {
        lemma_high_agrees(a, b, t, (n - 1) as nat);
    }
}

impl Big {
    /// The number `x`.
    pub fn from_u64(x: u64) -> (number: Big)
        ensures
            number@ == x,
    {
        let mut digits: Vec<u32> = Vec::new();
        digits.push((x % RADIX) as u32);
        digits.push((x / RADIX) as u32);
        proof {
            let s = digits@;
            reveal_with_fuel(value_upto, 3);
            reveal_with_fuel(radix_pow, 2);
            assert(limb(s, 0) == x % RADIX);
            assert(limb(s, 1) == x / RADIX);
            assert(radix_pow(0) == 1);
            assert(radix_pow(1) == 0x1_0000_0000);
            assert(value_upto(s, 2) == limb(s, 0) * 1 + limb(s, 1) * 0x1_0000_0000);
        }
        Big { digits }
    }

    /// The product of this number and `k`.
    pub fn times(&self, k: u64) -> (product: Big)
        ensures
            product@ == self@ * k,
    {
        let n: usize = self.digits.len();
        let ghost a = self.digits@;
        let mut out: Vec<u32> = Vec::new();
        let mut carry: u128 = 0;
        let mut i: usize = 0;
        assert(0 * radix_pow(0) == 0 && value_upto(a, 0) * k == 0) by (nonlinear_arith)
            requires
                value_upto(a, 0) == 0,
        ;
        while i < n
            invariant
                a == self.digits@,
                n == a.len(),
                i <= n,
                out@.len() == i,
                carry <= k,
                value_upto(out@, i as nat) + carry * radix_pow(i as nat) == value_upto(a, i as nat)
                    * k,
            decreases n - i,
        {
            let digit: u32 = self.digits[i];
            assert(digit * k + carry <= 0x1_0000_0000 * k) by (nonlinear_arith)
                requires
                    digit <= 0xffff_ffff,
                    carry <= k,
            ;
            let t: u128 = (digit as u128) * (k as u128) + carry;
            let low: u32 = (t % (RADIX as u128)) as u32;
            let next: u128 = t / (RADIX as u128);
            let ghost before = out@;
            out.push(low);
            proof {
                lemma_value_agrees(before, out@, i as nat);
                let unit = radix_pow(i as nat);
                let v_out = value_upto(before, i as nat);
                let v_in = value_upto(a, i as nat);
                assert(limb(out@, i as int) == low);
                assert(limb(a, i as int) == digit);
                assert(radix_pow((i + 1) as nat) == 0x1_0000_0000 * unit);
                assert(v_out + low * unit + next * (0x1_0000_0000 * unit) == (v_in + digit * unit)
                    * k) by (nonlinear_arith)
                    requires
                        v_out + carry * unit == v_in * k,
                        digit * k + carry == next * 0x1_0000_0000 + low,
                ;
            }
            carry = next;
            i = i + 1;
        }
        let ghost before = out@;
        assert(carry / (RADIX as u128) <= 0xffff_ffff);
        out.push((carry % (RADIX as u128)) as u32);
        let ghost middle = out@;
        out.push((carry / (RADIX as u128)) as u32);
        proof {
            lemma_value_agrees(before, middle, n as nat);
            lemma_value_agrees(middle, out@, (n + 1) as nat);
            let unit = radix_pow(n as nat);
            let c_low = carry % (RADIX as u128);
            let c_high = carry / (RADIX as u128);
            assert(limb(out@, n as int) == c_low);
            assert(limb(out@, n + 1) == c_high);
            assert(limb(middle, n as int) == c_low);
            assert(radix_pow((n + 1) as nat) == 0x1_0000_0000 * unit);
            assert(value_upto(out@, (n + 2) as nat) == value_upto(out@, (n + 1) as nat) + c_high
                * radix_pow((n + 1) as nat));
            assert(value_upto(out@, (n + 1) as nat) == value_upto(out@, n as nat) + c_low * unit);
            assert(value_upto(out@, n as nat) == value_upto(before, n as nat)) by {
                lemma_value_agrees(before, out@, n as nat);
            }
            assert(c_low * unit + c_high * (0x1_0000_0000 * unit) == carry * unit)
                by (nonlinear_arith)
                requires
                    carry == c_high * 0x1_0000_0000 + c_low,
            ;
        }
        Big { digits: out }
    }

    /// The sum of this number and `other`.
    pub fn plus(&self, other: &Big) -> (sum: Big)
        ensures
            sum@ == self@ + other@,
    {
        let len_a: usize = self.digits.len();
        let len_b: usize = other.digits.len();
        let n: usize = if len_a >= len_b {
            len_a
        } else {
            len_b
        };
        let ghost a = self.digits@;
        let ghost b = other.digits@;
        let mut out: Vec<u32> = Vec::new();
        let mut carry: u64 = 0;
        let mut i: usize = 0;
        while i < n
            invariant
                a == self.digits@,
                b == other.digits@,
                len_a == a.len(),
                len_b == b.len(),
                n >= len_a,
                n >= len_b,
                i <= n,
                out@.len() == i,
                carry <= 1,
                value_upto(out@, i as nat) + carry * radix_pow(i as nat) == value_upto(a, i as nat)
                    + value_upto(b, i as nat),
            decreases n - i,
        {
            let left: u64 = if i < len_a {
                self.digits[i] as u64
            } else {
                0
            };
            let right: u64 = if i < len_b {
                other.digits[i] as u64
            } else {
                0
            };
            let t: u64 = left + right + carry;
            let low: u32 = (t % RADIX) as u32;
            let next: u64 = t / RADIX;
            let ghost before = out@;
            out.push(low);
            proof {
                lemma_value_agrees(before, out@, i as nat);
                let unit = radix_pow(i as nat);
                let v_out = value_upto(before, i as nat);
                let v_a = value_upto(a, i as nat);
                let v_b = value_upto(b, i as nat);
                assert(limb(out@, i as int) == low);
                assert(limb(a, i as int) == left);
                assert(limb(b, i as int) == right);
                assert(radix_pow((i + 1) as nat) == 0x1_0000_0000 * unit);
                assert(v_out + low * unit + next * (0x1_0000_0000 * unit) == (v_a + left * unit) + (
                v_b + right * unit)) by (nonlinear_arith)
                    requires
                        v_out + carry * unit == v_a + v_b,
                        left + right + carry == next * 0x1_0000_0000 + low,
                ;
            }
            carry = next;
            i = i + 1;
        }
        let ghost before = out@;
        out.push(carry as u32);
        proof {
            lemma_value_agrees(before, out@, n as nat);
            lemma_value_beyond(a, n as nat);
            lemma_value_beyond(b, n as nat);
            assert(limb(out@, n as int) == carry);
        }
        Big { digits: out }
    }

    /// Whether this number is at least `other`.
    pub fn at_least(&self, other: &Big) -> (answer: bool)
        ensures
            answer == (self@ >= other@),
    {
        let len_a: usize = self.digits.len();
        let len_b: usize = other.digits.len();
        let n: usize = if len_a >= len_b {
            len_a
        } else {
            len_b
        };
        let ghost a = self.digits@;
        let ghost b = other.digits@;
        let mut i: usize = n;
        while i > 0
            invariant
                a == self.digits@,
                b == other.digits@,
                len_a == a.len(),
                len_b == b.len(),
                n >= len_a,
                n >= len_b,
                i <= n,
                forall|j: int| i <= j < n ==> limb(a, j) == limb(b, j),
            decreases i,
        {
            i = i - 1;
            let left: u32 = if i < len_a {
                self.digits[i]
            } else {
                0
            };
            let right: u32 = if i < len_b {
                other.digits[i]
            } else {
                0
            };
            if left != right {
                proof {
                    lemma_value_beyond(a, n as nat);
                    lemma_value_beyond(b, n as nat);
                    lemma_high_agrees(a, b, (i + 1) as nat, n as nat);
                    lemma_value_bound(a, i as nat);
                    lemma_value_bound(b, i as nat);
                    let unit = radix_pow(i as nat);
                    assert(limb(a, i as int) == left);
                    assert(limb(b, i as int) == right);
                    assert(value_upto(a, (i + 1) as nat) == value_upto(a, i as nat) + left * unit);
                    assert(value_upto(b, (i + 1) as nat) == value_upto(b, i as nat) + right * unit);
                    if left > right {
                        assert(left * unit >= right * unit + unit) by (nonlinear_arith)
                            requires
                                left >= right + 1,
                                unit >= 0,
                        ;
                    } else {
                        assert(right * unit >= left * unit + unit) by (nonlinear_arith)
                            requires
                                right >= left + 1,
                                unit >= 0,
                        ;
                    }
                }
                return left > right;
            }
        }
        proof {
            lemma_value_beyond(a, n as nat);
            lemma_value_beyond(b, n as nat);
            lemma_value_agrees(a, b, n as nat);
        }
        true
    }
}

} // verus!
