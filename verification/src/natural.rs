//! Natural numbers of any size, held as 32-bit limbs.

use vstd::arithmetic::div_mod::{lemma_fundamental_div_mod, lemma_fundamental_div_mod_converse};
use vstd::arithmetic::power2::{lemma2_to64, lemma_pow2_adds, pow2};
use vstd::prelude::*;

verus! {

/// The number that a sequence of 32-bit limbs denotes, least significant
/// limb first.
pub open spec fn limbs_value(limbs: Seq<u32>) -> nat
    decreases limbs.len(),
{
    if limbs.len() == 0 {
        0
    } else {
        limbs[0] as nat + 0x1_0000_0000 * limbs_value(limbs.skip(1))
    }
}

/// The limbs from position `k` on denote the limb at `k` plus `2^32` times
/// what the limbs after it denote.
pub proof fn lemma_value_unfold(limbs: Seq<u32>, k: int)
    requires
        0 <= k < limbs.len(),
    ensures
        limbs_value(limbs.skip(k)) == limbs[k] as nat + 0x1_0000_0000 * limbs_value(
            limbs.skip(k + 1),
        ),
{
    assert(limbs.skip(k).skip(1) =~= limbs.skip(k + 1));
}

/// Appending a limb adds it at the weight of the old length.
pub proof fn lemma_value_push(limbs: Seq<u32>, x: u32)
    ensures
        limbs_value(limbs.push(x)) == limbs_value(limbs) + x * pow2(32 * limbs.len()),
    decreases limbs.len(),
{
    lemma2_to64();
    let whole = limbs.push(x);
    if limbs.len() == 0 {
        assert(whole.skip(1) =~= Seq::<u32>::empty());
        assert(limbs_value(whole.skip(1)) == 0);
        assert(whole[0] == x);
        let p = pow2(32 * limbs.len());
        assert(x * p == x) by (nonlinear_arith)
            requires
                p == 1,
        ;
    } else {
        let rest = limbs.skip(1);
        assert(whole.skip(1) =~= rest.push(x));
        assert(whole[0] == limbs[0]);
        lemma_value_push(rest, x);
        lemma_pow2_adds(32, 32 * rest.len());
        assert(32 + 32 * rest.len() == 32 * limbs.len());
        let b = pow2(32);
        let p = pow2(32 * rest.len());
        let q = pow2(32 * limbs.len());
        let v = limbs_value(rest);
        assert(0x1_0000_0000 * (v + x * p) == 0x1_0000_0000 * v + x * q) by (nonlinear_arith)
            requires
                q == b * p,
                b == 0x1_0000_0000,
        ;
    }
}

/// A sequence of limbs denotes zero exactly when every limb is zero.
pub proof fn lemma_value_zero(limbs: Seq<u32>)
    ensures
        limbs_value(limbs) == 0 <==> forall|i: int| 0 <= i < limbs.len() ==> limbs[i] == 0,
    decreases limbs.len(),
{
    if limbs.len() > 0 {
        let rest = limbs.skip(1);
        lemma_value_zero(rest);
        if limbs_value(limbs) == 0 {
            assert forall|i: int| 0 <= i < limbs.len() implies limbs[i] == 0 by {
                if i > 0 {
                    assert(rest[i - 1] == limbs[i]);
                }
            }
        }
        if forall|i: int| 0 <= i < limbs.len() ==> limbs[i] == 0 {
            assert forall|i: int| 0 <= i < rest.len() implies rest[i] == 0 by {
                assert(rest[i] == limbs[i + 1]);
            }
        }
    }
}

/// A natural number of any size.
pub struct Natural {
    limbs: Vec<u32>,
}

impl View for Natural {
    type V = nat;

    closed spec fn view(&self) -> nat {
        limbs_value(self.limbs@)
    }
}

impl Natural {
    /// The number `x`.
    pub fn from_u32(x: u32) -> (r: Natural)
        ensures
            r@ == x,
    {
        let mut limbs: Vec<u32> = Vec::new();
        limbs.push(x);
        proof {
            lemma_value_push(Seq::<u32>::empty(), x);
            lemma2_to64();
            assert(limbs@ =~= Seq::<u32>::empty().push(x));
            let p = pow2(0);
            assert(x * p == x) by (nonlinear_arith)
                requires
                    p == 1,
            ;
        }
        Natural { limbs }
    }

    /// The number `d * 2^shift - 1`.
    pub fn below_shifted(d: u32, shift: u64) -> (r: Natural)
        requires
            d >= 1,
        ensures
            r@ == d * pow2(shift as nat) - 1,
    {
        let whole: u64 = shift / 32;
        let part: u64 = shift % 32;
        let mut limbs: Vec<u32> = Vec::new();
        let mut j: u64 = 0;
        proof {
            lemma2_to64();
        }
        while j < whole
            invariant
                j <= whole,
                limbs@.len() == j,
                limbs_value(limbs@) + 1 == pow2(32 * (j as nat)),
            decreases whole - j,
        {
            proof {
                lemma_value_push(limbs@, 0xffff_ffff);
                lemma_pow2_adds(32 * (j as nat), 32);
                lemma2_to64();
                let p = pow2(32 * (j as nat));
                assert(p - 1 + 0xffff_ffff * p == p * 0x1_0000_0000 - 1) by (nonlinear_arith);
                assert(32 * (j as nat) + 32 == 32 * ((j + 1) as nat));
            }
            limbs.push(0xffff_ffff);
            j = j + 1;
        }
        let scale: u64 = 1u64 << part;
        proof {
            lemma2_to64();
            vstd::bits::lemma_u64_pow2_no_overflow(part as nat);
            vstd::bits::lemma_u64_shl_is_mul(1u64, part);
            vstd::arithmetic::power2::lemma_pow2_strictly_increases(part as nat, 32);
            assert(scale == pow2(part as nat));
            assert(d * scale < 0x1_0000_0000 * 0x1_0000_0000) by (nonlinear_arith)
                requires
                    d < 0x1_0000_0000,
                    scale < 0x1_0000_0000,
            ;
            assert(d * scale >= 1) by (nonlinear_arith)
                requires
                    d >= 1,
                    scale >= 1,
            ;
        }
        let top: u64 = d as u64 * scale - 1;
        let low: u32 = (top % 0x1_0000_0000) as u32;
        let high: u32 = (top / 0x1_0000_0000) as u32;
        proof {
            let base = pow2(32 * (whole as nat));
            let with_low = limbs@.push(low);
            lemma_value_push(limbs@, low);
            lemma_value_push(with_low, high);
            lemma_pow2_adds(32 * (whole as nat), 32);
            lemma_pow2_adds(32 * (whole as nat), part as nat);
            assert(32 * (whole as nat) + 32 == 32 * with_low.len());
            assert(32 * (whole as nat) + part as nat == shift as nat);
            let v = limbs_value(limbs@);
            let total = limbs_value(with_low.push(high));
            assert(total == v + low * base + high * (base * 0x1_0000_0000));
            assert(total == d * pow2(shift as nat) - 1) by (nonlinear_arith)
                requires
                    total == v + low * base + high * (base * 0x1_0000_0000),
                    v + 1 == base,
                    top == low + 0x1_0000_0000 * high,
                    top == d * scale - 1,
                    pow2(shift as nat) == base * scale,
            ;
        }
        limbs.push(low);
        limbs.push(high);
        Natural { limbs }
    }

    /// Replaces the number by its quotient by `m`, rounded down.
    pub fn div_small(&mut self, m: u32)
        requires
            m > 0,
        ensures
            final(self)@ == old(self)@ / (m as nat),
    {
        let ghost before = self.limbs@;
        let n = self.limbs.len();
        let mut idx: usize = n;
        let mut rem: u64 = 0;
        proof {
            assert(before.skip(n as int) =~= Seq::<u32>::empty());
            assert(m * 0 + 0 == 0) by (nonlinear_arith);
        }
        while idx > 0
            invariant
                m > 0,
                idx <= n,
                n == before.len(),
                self.limbs@.len() == n,
                rem < m,
                forall|k: int| 0 <= k < idx ==> self.limbs@[k] == before[k],
                limbs_value(before.skip(idx as int)) == m * limbs_value(
                    self.limbs@.skip(idx as int),
                ) + rem,
            decreases idx,
        {
            idx = idx - 1;
            let ghost prev = self.limbs@;
            let limb = self.limbs[idx];
            assert(rem * 0x1_0000_0000 + limb < m * 0x1_0000_0000) by (nonlinear_arith)
                requires
                    rem < m,
                    limb < 0x1_0000_0000,
            ;
            let cur: u64 = rem * 0x1_0000_0000 + limb as u64;
            let quot: u64 = cur / (m as u64);
            let next: u64 = cur % (m as u64);
            proof {
                lemma_fundamental_div_mod(cur as int, m as int);
                assert(quot < 0x1_0000_0000) by (nonlinear_arith)
                    requires
                        cur == m * quot + next,
                        0 <= next,
                        cur < m * 0x1_0000_0000,
                        m > 0,
                ;
            }
            self.limbs.set(idx, quot as u32);
            proof {
                let now = self.limbs@;
                lemma_value_unfold(before, idx as int);
                lemma_value_unfold(now, idx as int);
                assert(now.skip(idx + 1) =~= prev.skip(idx + 1));
                let a = limbs_value(before.skip(idx + 1));
                let v = limbs_value(prev.skip(idx + 1));
                assert(limb as nat + 0x1_0000_0000 * a == m * (quot + 0x1_0000_0000 * v) + next)
                    by (nonlinear_arith)
                    requires
                        a == m * v + rem,
                        rem * 0x1_0000_0000 + limb == m * quot + next,
                ;
            }
            rem = next;
        }
        proof {
            assert(before.skip(0) =~= before);
            assert(self.limbs@.skip(0) =~= self.limbs@);
            let q = limbs_value(self.limbs@);
            assert(q * m == m * q) by (nonlinear_arith);
            lemma_fundamental_div_mod_converse(
                limbs_value(before) as int,
                m as int,
                q as int,
                rem as int,
            );
        }
    }

    /// Whether the limbs from position `from` on are all zero.
    fn zero_from(&self, from: usize) -> (r: bool)
        requires
            from <= self.limbs@.len(),
        ensures
            r == (limbs_value(self.limbs@.skip(from as int)) == 0),
    {
        let n = self.limbs.len();
        let mut i: usize = from;
        while i < n
            invariant
                from <= i <= n,
                n == self.limbs@.len(),
                forall|k: int| from <= k < i ==> self.limbs@[k] == 0,
            decreases n - i,
        {
            if self.limbs[i] != 0 {
                proof {
                    lemma_value_zero(self.limbs@.skip(from as int));
                    assert(self.limbs@.skip(from as int)[i - from] != 0);
                }
                return false;
            }
            i = i + 1;
        }
        proof {
            lemma_value_zero(self.limbs@.skip(from as int));
        }
        true
    }

    /// Whether the number is zero.
    pub fn is_zero(&self) -> (r: bool)
        ensures
            r == (self@ == 0),
    {
        proof {
            assert(self.limbs@.skip(0) =~= self.limbs@);
        }
        self.zero_from(0)
    }

    /// The number as a `u32`, where it fits.
    pub fn to_u32(&self) -> (r: Option<u32>)
        ensures
            r == if self@ <= u32::MAX {
                Some(self@ as u32)
            } else {
                None
            },
    {
        if self.limbs.len() == 0 {
            return Some(0);
        }
        proof {
            lemma_value_unfold(self.limbs@, 0);
            assert(self.limbs@.skip(0) =~= self.limbs@);
        }
        if self.zero_from(1) {
            Some(self.limbs[0])
        } else {
            None
        }
    }
}

} // verus!
