//! Natural numbers of any size.

use vstd::prelude::*;
use vstd::arithmetic::power2::{lemma2_to64, lemma_pow2_adds, lemma_pow2_pos, pow2};

verus! {

/// What a limb at that place counts for.
pub open spec fn place(i: nat) -> nat {
    pow2(32 * i)
}

/// The limb at that place; zero behind the last one.
pub open spec fn limb(s: Seq<u32>, i: nat) -> nat {
    if i < s.len() {
        s[i as int] as nat
    } else {
        0
    }
}

/// The number that the first `n` limbs make.
pub open spec fn part(s: Seq<u32>, n: nat) -> nat
    decreases n,
{
    if n == 0 {
        0
    } else {
        part(s, (n - 1) as nat) + limb(s, (n - 1) as nat) * place((n - 1) as nat)
    }
}

/// A natural number: limbs of 32 bits, the lowest first.
#[derive(Clone, Debug)]
pub struct Big {
    pub limbs: Vec<u32>,
}

impl View for Big {
    type V = nat;

    open spec fn view(&self) -> nat {
        part(self.limbs@, self.limbs@.len())
    }
}

/// One more place.
proof fn lemma_place(i: nat)
    ensures
        place(i + 1) == 0x1_0000_0000 * place(i),
        place(i) > 0,
{
    lemma2_to64();
    lemma_pow2_adds(32, 32 * i);
    lemma_pow2_pos(32 * i);
    assert(32 * (i + 1) == 32 + 32 * i);
}

/// Limbs make less than the next place.
proof fn lemma_part_bound(s: Seq<u32>, n: nat)
    ensures
        part(s, n) < place(n),
    decreases n,
{
    if n == 0 {
        lemma2_to64();
    } else {
        let k = (n - 1) as nat;
        lemma_part_bound(s, k);
        lemma_place(k);
        let (l, p) = (limb(s, k), place(k));
        assert(l * p <= 0xffff_ffff * p) by (nonlinear_arith)
            requires
                l <= 0xffff_ffff,
        ;
    }
}

/// There is nothing behind the last limb.
proof fn lemma_part_beyond(s: Seq<u32>, n: nat)
    requires
        n >= s.len(),
    ensures
        part(s, n) == part(s, s.len()),
    decreases n,
{
    if n > s.len() {
        lemma_part_beyond(s, (n - 1) as nat);
        assert(0 * place((n - 1) as nat) == 0);
    }
}

/// Further limbs change nothing in the ones in front.
proof fn lemma_part_push(s: Seq<u32>, x: u32, n: nat)
    requires
        n <= s.len(),
    ensures
        part(s.push(x), n) == part(s, n),
    decreases n,
{
    if n > 0 {
        lemma_part_push(s, x, (n - 1) as nat);
    }
}

impl Big {
    /// The limbs bound the number.
    pub proof fn lemma_bound(self)
        ensures
            self@ < pow2(32 * self.limbs@.len()),
    {
        lemma_part_bound(self.limbs@, self.limbs@.len());
    }

    /// Zero.
    pub fn zero() -> (r: Big)
        ensures
            r@ == 0,
    {
        Big { limbs: Vec::new() }
    }

    /// The product with a small number, and a small number added.
    pub fn times_plus(&self, m: u32, a: u32) -> (r: Big)
        ensures
            r@ == self@ * m + a,
    {
        let mut out: Vec<u32> = Vec::new();
        let mut carry: u64 = a as u64;
        let n: usize = self.limbs.len();
        proof {
            lemma2_to64();
            assert(0 * m == 0);
            assert(carry * 1 == carry);
        }
        for i in 0..n
            invariant
                n == self.limbs@.len(),
                out@.len() == i,
                carry <= 0xffff_ffff,
                part(out@, i as nat) + carry * place(i as nat) == part(self.limbs@, i as nat) * m + a,
        {
            let x: u64 = self.limbs[i] as u64;
            let w: u64 = m as u64;
            assert(x * w <= 0xffff_ffff * 0xffff_ffff) by (nonlinear_arith)
                requires
                    x <= 0xffff_ffff,
                    w <= 0xffff_ffff,
            ;
            let t: u64 = x * w + carry;
            let low: u32 = (t % 0x1_0000_0000) as u32;
            let up: u64 = t / 0x1_0000_0000;
            proof {
                let p = place(i as nat);
                let before = part(self.limbs@, i as nat);
                lemma_place(i as nat);
                lemma_part_push(out@, low, i as nat);
                assert(up * (0x1_0000_0000 * p) + low * p == x * w * p + carry * p)
                    by (nonlinear_arith)
                    requires
                        up * 0x1_0000_0000 + low == x * w + carry,
                ;
                assert((before + x * p) * m == before * m + x * w * p) by (nonlinear_arith)
                    requires
                        w == m,
                ;
            }
            out.push(low);
            carry = up;
        }
        proof {
            lemma_part_push(out@, carry as u32, n as nat);
        }
        out.push(carry as u32);
        Big { limbs: out }
    }

    fn at(&self, i: usize) -> (r: u32)
        ensures
            r == limb(self.limbs@, i as nat),
    {
        if i < self.limbs.len() {
            self.limbs[i]
        } else {
            0
        }
    }

    /// Compares two numbers.
    pub fn less(&self, other: &Big) -> (r: bool)
        ensures
            r == (self@ < other@),
    {
        let (a, b) = (self.limbs.len(), other.limbs.len());
        let n: usize = if a < b {
            b
        } else {
            a
        };
        let mut r = false;
        for i in 0..n
            invariant
                r == (part(self.limbs@, i as nat) < part(other.limbs@, i as nat)),
        {
            let x = self.at(i);
            let y = other.at(i);
            proof {
                let p = place(i as nat);
                lemma_part_bound(self.limbs@, i as nat);
                lemma_part_bound(other.limbs@, i as nat);
                if x < y {
                    assert(x * p + p <= y * p) by (nonlinear_arith)
                        requires
                            x + 1 <= y,
                    ;
                } else if y < x {
                    assert(y * p + p <= x * p) by (nonlinear_arith)
                        requires
                            y + 1 <= x,
                    ;
                }
            }
            if x != y {
                r = x < y;
            }
        }
        proof {
            lemma_part_beyond(self.limbs@, n as nat);
            lemma_part_beyond(other.limbs@, n as nat);
        }
        r
    }

    /// The difference.
    pub fn minus(&self, other: &Big) -> (r: Big)
        requires
            other@ <= self@,
        ensures
            r@ == self@ - other@,
    {
        let (a, b) = (self.limbs.len(), other.limbs.len());
        let n: usize = if a < b {
            b
        } else {
            a
        };
        let mut out: Vec<u32> = Vec::new();
        let mut borrow: u64 = 0;
        assert(borrow * place(0) == 0);
        for i in 0..n
            invariant
                out@.len() == i,
                borrow <= 1,
                part(out@, i as nat) == part(self.limbs@, i as nat) - part(other.limbs@, i as nat)
                    + borrow * place(i as nat),
        {
            let x: u64 = self.at(i) as u64;
            let y: u64 = other.at(i) as u64;
            let t: u64 = x + 0x1_0000_0000 - y - borrow;
            let low: u32 = (t % 0x1_0000_0000) as u32;
            let next: u64 = if t < 0x1_0000_0000 {
                1
            } else {
                0
            };
            proof {
                let p = place(i as nat);
                lemma_place(i as nat);
                lemma_part_push(out@, low, i as nat);
                assert(low * p == x * p - y * p - borrow * p + next * (0x1_0000_0000 * p))
                    by (nonlinear_arith)
                    requires
                        low == x - y - borrow + next * 0x1_0000_0000,
                ;
            }
            out.push(low);
            borrow = next;
        }
        proof {
            lemma_part_beyond(self.limbs@, n as nat);
            lemma_part_beyond(other.limbs@, n as nat);
            lemma_part_bound(out@, n as nat);
            let p = place(n as nat);
            if borrow == 1 {
                assert(1 * p == p);
            } else {
                assert(0 * p == 0);
            }
        }
        Big { limbs: out }
    }
}

} // verus!
