//! Natural numbers of any size, for sums of products that no machine integer
//! holds.

use vstd::prelude::*;

verus! {

/// How much one limb holds.
pub open spec fn base() -> int {
    0x1_0000_0000_0000_0000
}

/// What a unit of limb `i` counts.
pub open spec fn weight(i: nat) -> int
    decreases i,
{
    if i == 0 {
        1
    } else {
        base() * weight((i - 1) as nat)
    }
}

/// Limb `i`, zero past the end.
pub open spec fn limb(limbs: Seq<u64>, i: int) -> int {
    if 0 <= i < limbs.len() {
        limbs[i] as int
    } else {
        0
    }
}

/// What the first `n` limbs are worth.
pub open spec fn partial(limbs: Seq<u64>, n: nat) -> int
    decreases n,
{
    if n == 0 {
        0
    } else {
        partial(limbs, (n - 1) as nat) + limb(limbs, n - 1) * weight((n - 1) as nat)
    }
}

/// A natural number, in limbs of 64 bits, the lowest first.
#[derive(Debug)]
pub struct Wide {
    limbs: Vec<u64>,
}

proof fn lemma_weight_positive(i: nat)
    ensures
        weight(i) > 0,
    decreases i,
{
    if i > 0 {
        lemma_weight_positive((i - 1) as nat);
        assert(base() * weight((i - 1) as nat) > 0) by (nonlinear_arith)
            requires
                base() > 0,
                weight((i - 1) as nat) > 0,
        ;
    }
}

/// Limbs past the end add nothing.
proof fn lemma_partial_past_the_end(limbs: Seq<u64>, n: nat)
    requires
        n >= limbs.len(),
    ensures
        partial(limbs, n) == partial(limbs, limbs.len()),
    decreases n,
{
    if n > limbs.len() {
        lemma_partial_past_the_end(limbs, (n - 1) as nat);
        assert(0 * weight((n - 1) as nat) == 0) by (nonlinear_arith);
    }
}

/// The limbs below place `n` are worth less than a unit of limb `n`.
proof fn lemma_partial_bound(limbs: Seq<u64>, n: nat)
    ensures
        0 <= partial(limbs, n) < weight(n),
    decreases n,
{
    if n > 0 {
        let m = (n - 1) as nat;
        lemma_partial_bound(limbs, m);
        let l = limb(limbs, n - 1);
        let w = weight(m);
        assert(0 <= l * w && l * w + w <= base() * w) by (nonlinear_arith)
            requires
                0 <= l <= base() - 1,
                w > 0,
        ;
    }
}

/// What changing a limb does to the value.
proof fn lemma_updated(limbs: Seq<u64>, i: int, x: u64, n: nat)
    requires
        0 <= i < limbs.len(),
    ensures
        partial(limbs.update(i, x), n) == partial(limbs, n) + (if i < n {
            (x - limbs[i]) * weight(i as nat)
        } else {
            0
        }),
    decreases n,
{
    if n > 0 {
        let m = (n - 1) as nat;
        lemma_updated(limbs, i, x, m);
        if i == n - 1 {
            assert(x * weight(m) == limbs[i] * weight(m) + (x - limbs[i]) * weight(m))
                by (nonlinear_arith);
        } else {
            assert(limb(limbs.update(i, x), n - 1) == limb(limbs, n - 1));
        }
    }
}

/// A further limb of zero adds nothing.
proof fn lemma_zero_pushed(limbs: Seq<u64>, n: nat)
    ensures
        partial(limbs.push(0), n) == partial(limbs, n),
    decreases n,
{
    if n > 0 {
        lemma_zero_pushed(limbs, (n - 1) as nat);
        assert(limb(limbs.push(0), n - 1) == limb(limbs, n - 1));
    }
}

impl Wide {
    /// The number.
    pub closed spec fn value(self) -> int {
        partial(self.limbs@, self.limbs@.len())
    }

    /// Nought.
    pub fn new() -> (r: Wide)
        ensures
            r.value() == 0,
    {
        Wide { limbs: Vec::new() }
    }

    /// Adds `v` units of limb `at`.
    fn add_at(&mut self, at: usize, v: u64)
        requires
            at < usize::MAX,
        ensures
            final(self).value() == old(self).value() + v * weight(at as nat),
    {
        let ghost total = self.value() + v * weight(at as nat);
        while self.limbs.len() < at
            invariant
                at < usize::MAX,
                self.value() + v * weight(at as nat) == total,
            decreases at - self.limbs@.len(),
        {
            let ghost before = self.limbs@;
            self.limbs.push(0);
            proof {
                lemma_zero_pushed(before, before.len() + 1);
                lemma_partial_past_the_end(before, before.len() + 1);
            }
        }
        let mut i: usize = at;
        let mut carry: u64 = v;
        while i < self.limbs.len() && carry > 0
            invariant
                i <= self.limbs@.len(),
                self.value() + carry * weight(i as nat) == total,
            decreases self.limbs@.len() - i,
        {
            let ghost before = self.limbs@;
            let ghost was = carry;
            let sum: u128 = self.limbs[i] as u128 + carry as u128;
            let low: u64 = (sum % 0x1_0000_0000_0000_0000) as u64;
            self.limbs.set(i, low);
            carry = (sum / 0x1_0000_0000_0000_0000) as u64;
            proof {
                lemma_updated(before, i as int, low, before.len());
                let w = weight(i as nat);
                let l = before[i as int];
                assert(sum == low + carry * base());
                assert(weight((i + 1) as nat) == base() * w);
                assert((low - l) * w + carry * (base() * w) == was * w) by (nonlinear_arith)
                    requires
                        l + was == low + carry * base(),
                ;
            }
            i += 1;
        }
        if carry > 0 {
            let ghost before = self.limbs@;
            self.limbs.push(carry);
            proof {
                let n = before.len();
                assert(self.limbs@ =~= before.push(0).update(n as int, carry));
                lemma_updated(before.push(0), n as int, carry, n + 1);
                lemma_zero_pushed(before, n + 1);
                lemma_partial_past_the_end(before, n + 1);
            }
        } else {
            assert(0 * weight(i as nat) == 0) by (nonlinear_arith);
        }
    }

    /// Adds a product.
    pub fn add_product(&mut self, a: u128, b: u128)
        ensures
            final(self).value() == old(self).value() + a * b,
    {
        let a0: u128 = a % 0x1_0000_0000_0000_0000;
        let a1: u128 = a / 0x1_0000_0000_0000_0000;
        let b0: u128 = b % 0x1_0000_0000_0000_0000;
        let b1: u128 = b / 0x1_0000_0000_0000_0000;
        proof {
            lemma_limbs_multiply(a0, b0);
            lemma_limbs_multiply(a0, b1);
            lemma_limbs_multiply(a1, b0);
            lemma_limbs_multiply(a1, b1);
        }
        let p00: u128 = a0 * b0;
        let p01: u128 = a0 * b1;
        let p10: u128 = a1 * b0;
        let p11: u128 = a1 * b1;
        self.add_double(0, p00);
        self.add_double(1, p01);
        self.add_double(1, p10);
        self.add_double(2, p11);
        proof {
            assert(weight(0) == 1);
            assert(weight(1) == base() * weight(0));
            assert(weight(2) == base() * weight(1));
            let (x0, x1, y0, y1) = (a0 as int, a1 as int, b0 as int, b1 as int);
            assert(x0 * y0 * 1 + x0 * y1 * base() + x1 * y0 * base() + x1 * y1 * (base() * base())
                == (x0 + x1 * base()) * (y0 + y1 * base())) by (nonlinear_arith);
            assert(a == x0 + x1 * base());
            assert(b == y0 + y1 * base());
        }
    }

    /// Adds `v` units of limb `at`, where `v` is two limbs wide.
    fn add_double(&mut self, at: usize, v: u128)
        requires
            at < usize::MAX - 1,
        ensures
            final(self).value() == old(self).value() + v * weight(at as nat),
    {
        let low: u64 = (v % 0x1_0000_0000_0000_0000) as u64;
        let high: u64 = (v / 0x1_0000_0000_0000_0000) as u64;
        self.add_at(at, low);
        self.add_at(at + 1, high);
        proof {
            let w = weight(at as nat);
            assert(weight((at + 1) as nat) == base() * w);
            assert(low * w + high * (base() * w) == v * w) by (nonlinear_arith)
                requires
                    v == low + high * base(),
            ;
        }
    }

    /// Adds another number.
    pub fn add_wide(&mut self, other: &Wide)
        ensures
            final(self).value() == old(self).value() + other.value(),
    {
        let ghost start = self.value();
        let mut i: usize = 0;
        while i < other.limbs.len()
            invariant
                i <= other.limbs@.len(),
                self.value() == start + partial(other.limbs@, i as nat),
            decreases other.limbs@.len() - i,
        {
            self.add_at(i, other.limbs[i]);
            i += 1;
        }
    }

    /// Whether this is the smaller number.
    pub fn is_less(&self, other: &Wide) -> (r: bool)
        ensures
            r == (self.value() < other.value()),
    {
        let n: usize = if self.limbs.len() < other.limbs.len() {
            other.limbs.len()
        } else {
            self.limbs.len()
        };
        let mut less: bool = false;
        let mut i: usize = 0;
        while i < n
            invariant
                i <= n,
                less == (partial(self.limbs@, i as nat) < partial(other.limbs@, i as nat)),
            decreases n - i,
        {
            let a: u64 = if i < self.limbs.len() {
                self.limbs[i]
            } else {
                0
            };
            let b: u64 = if i < other.limbs.len() {
                other.limbs[i]
            } else {
                0
            };
            proof {
                let w = weight(i as nat);
                lemma_partial_bound(self.limbs@, i as nat);
                lemma_partial_bound(other.limbs@, i as nat);
                if a < b {
                    assert(a * w + w <= b * w) by (nonlinear_arith)
                        requires
                            a + 1 <= b,
                            w > 0,
                    ;
                }
                if b < a {
                    assert(b * w + w <= a * w) by (nonlinear_arith)
                        requires
                            b + 1 <= a,
                            w > 0,
                    ;
                }
            }
            if a != b {
                less = a < b;
            }
            i += 1;
        }
        proof {
            lemma_partial_past_the_end(self.limbs@, n as nat);
            lemma_partial_past_the_end(other.limbs@, n as nat);
        }
        less
    }
}

/// The product of two limbs is two limbs wide.
proof fn lemma_limbs_multiply(a: u128, b: u128)
    requires
        a < 0x1_0000_0000_0000_0000,
        b < 0x1_0000_0000_0000_0000,
    ensures
        0 <= a * b <= u128::MAX,
{
    assert(0 <= a * b <= 0xffff_ffff_ffff_ffff * 0xffff_ffff_ffff_ffff) by (nonlinear_arith)
        requires
            0 <= a <= 0xffff_ffff_ffff_ffff,
            0 <= b <= 0xffff_ffff_ffff_ffff,
    ;
}

} // verus!
