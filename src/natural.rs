//! Unbounded natural numbers stored as little-endian base 2^32 limbs.
use vstd::prelude::*;

verus! {

/// The limb base.
pub open spec fn base() -> nat {
    0x1_0000_0000
}

/// `base()` raised to the power `e`.
pub open spec fn base_pow(e: nat) -> nat
    decreases e,
{
    if e == 0 {
        1
    } else {
        base() * base_pow((e - 1) as nat)
    }
}

/// The limb at position `i`, or zero past the end.
pub open spec fn limb(s: Seq<u32>, i: int) -> nat {
    if 0 <= i < s.len() {
        s[i] as nat
    } else {
        0
    }
}

/// The value of the lowest `i` limbs of `s`.
pub open spec fn prefix_value(s: Seq<u32>, i: nat) -> nat
    decreases i,
{
    if i == 0 {
        0
    } else {
        prefix_value(s, (i - 1) as nat) + limb(s, i - 1) * base_pow((i - 1) as nat)
    }
}

/// The number that a sequence of limbs denotes.
pub open spec fn limbs_value(s: Seq<u32>) -> nat {
    prefix_value(s, s.len())
}

pub proof fn lemma_base_pow_positive(e: nat)
    ensures
        base_pow(e) >= 1,
    decreases e,
{
    if e > 0 {
        lemma_base_pow_positive((e - 1) as nat);
        assert(base() * base_pow((e - 1) as nat) >= base_pow((e - 1) as nat)) by (nonlinear_arith)
            requires
                base_pow((e - 1) as nat) >= 1,
        ;
    }
}

/// Two limb sequences that agree below `i` have the same value below `i`.
pub proof fn lemma_prefix_agree(s: Seq<u32>, t: Seq<u32>, i: nat)
    requires
        forall|j: int| 0 <= j < i ==> limb(s, j) == limb(t, j),
    ensures
        prefix_value(s, i) == prefix_value(t, i),
    decreases i,
{
    if i > 0 {
        lemma_prefix_agree(s, t, (i - 1) as nat);
    }
}

/// Limbs past the end contribute nothing.
pub proof fn lemma_prefix_past_end(s: Seq<u32>, i: nat)
    requires
        i >= s.len(),
    ensures
        prefix_value(s, i) == limbs_value(s),
    decreases i,
{
    if i > s.len() {
        lemma_prefix_past_end(s, (i - 1) as nat);
        assert(limb(s, i - 1) == 0);
        assert(prefix_value(s, i) == prefix_value(s, (i - 1) as nat));
    }
}

/// The value of `i` limbs is below `base_pow(i)`.
pub proof fn lemma_prefix_bound(s: Seq<u32>, i: nat)
    ensures
        prefix_value(s, i) < base_pow(i),
    decreases i,
{
    if i > 0 {
        let k = (i - 1) as nat;
        lemma_prefix_bound(s, k);
        let p = prefix_value(s, k);
        let d = limb(s, k as int);
        let bp = base_pow(k);
        assert(d < base());
        assert(p + d * bp < base() * bp) by (nonlinear_arith)
            requires
                p < bp,
                d < base(),
                d >= 0,
        ;
    }
}

/// The value of `i` limbs is zero exactly when each of them is.
pub proof fn lemma_prefix_zero(s: Seq<u32>, i: nat)
    ensures
        prefix_value(s, i) == 0 <==> forall|j: int| 0 <= j < i ==> limb(s, j) == 0,
    decreases i,
{
    if i > 0 {
        let k = (i - 1) as nat;
        lemma_prefix_zero(s, k);
        lemma_base_pow_positive(k);
        let d = limb(s, k as int);
        let bp = base_pow(k);
        assert(d * bp == 0 <==> d == 0) by (nonlinear_arith)
            requires
                bp >= 1,
                d >= 0,
        ;
        if prefix_value(s, i) == 0 {
            assert forall|j: int| 0 <= j < i implies limb(s, j) == 0 by {
                if j < k {
                } else {
                }
            }
        }
    }
}

pub proof fn lemma_base_pow_adds(e1: nat, e2: nat)
    ensures
        base_pow(e1 + e2) == base_pow(e1) * base_pow(e2),
    decreases e1,
{
    if e1 > 0 {
        let e0 = (e1 - 1) as nat;
        lemma_base_pow_adds(e0, e2);
        assert(base() * (base_pow(e0) * base_pow(e2)) == (base() * base_pow(e0)) * base_pow(e2))
            by (nonlinear_arith);
        assert(((e1 + e2) - 1) as nat == e0 + e2);
        assert(base_pow(e1 + e2) == base() * base_pow(e0 + e2));
    } else {
        assert(base_pow(e1) == 1);
        assert(1 * base_pow(e2) == base_pow(e2));
    }
}

/// Limbs `t` are limbs `p` moved up by `k` places.
pub open spec fn shifted(t: Seq<u32>, p: Seq<u32>, k: nat) -> bool {
    forall|i: int| #[trigger] limb(t, i) == if i < k { 0 } else { limb(p, i - k) }
}

pub proof fn lemma_shifted_value(t: Seq<u32>, p: Seq<u32>, k: nat, j: nat)
    requires
        shifted(t, p, k),
    ensures
        prefix_value(t, k + j) == base_pow(k) * prefix_value(p, j),
    decreases j,
{
    if j == 0 {
        assert forall|i: int| 0 <= i < k implies limb(t, i) == 0 by {
            assert(limb(t, i) == if i < k { 0 } else { limb(p, i - k) });
        }
        lemma_prefix_zero(t, k);
        assert(base_pow(k) * 0 == 0);
    } else {
        let j1 = (j - 1) as nat;
        lemma_shifted_value(t, p, k, j1);
        lemma_base_pow_adds(k, j1);
        assert(limb(t, (k + j1) as int) == limb(p, j1 as int));
        assert(k + j - 1 == k + j1);
        let bk = base_pow(k);
        let bj = base_pow(j1);
        let pv = prefix_value(p, j1);
        let d = limb(p, j1 as int);
        assert(bk * pv + d * (bk * bj) == bk * (pv + d * bj)) by (nonlinear_arith);
    }
}

/// A zero limb at the top adds nothing.
pub proof fn lemma_drop_zero_top(s: Seq<u32>)
    requires
        s.len() > 0,
        s.last() == 0,
    ensures
        limbs_value(s.drop_last()) == limbs_value(s),
{
    let n = (s.len() - 1) as nat;
    lemma_prefix_agree(s, s.drop_last(), n);
    assert(limb(s, n as int) == 0);
    assert(0 * base_pow(n) == 0);
}

/// An unbounded natural number.
#[derive(Debug)]
pub struct Natural {
    limbs: Vec<u32>,
}

impl View for Natural {
    type V = nat;

    closed spec fn view(&self) -> nat {
        limbs_value(self.limbs@)
    }
}

impl Clone for Natural {
    fn clone(&self) -> (r: Self)
        ensures
            r@ == self@,
    {
        let limbs = self.limbs.clone();
        assert(limbs@ =~= self.limbs@);
        Natural { limbs }
    }
}

impl Natural {
    /// The number zero.
    pub fn zero() -> (r: Natural)
        ensures
            r@ == 0,
    {
        Natural { limbs: Vec::new() }
    }

    /// The number that a `u64` holds.
    pub fn from_u64(v: u64) -> (r: Natural)
        ensures
            r@ == v as nat,
    {
        let lo = (v % 0x1_0000_0000) as u32;
        let hi = (v / 0x1_0000_0000) as u32;
        let mut limbs: Vec<u32> = Vec::new();
        limbs.push(lo);
        limbs.push(hi);
        proof {
            assert(base_pow(0) == 1);
            assert(base_pow(1) == base());
            assert(limb(limbs@, 0) == lo);
            assert(limb(limbs@, 1) == hi);
            assert(prefix_value(limbs@, 0) == 0);
            assert(prefix_value(limbs@, 1) == prefix_value(limbs@, 0) + limb(limbs@, 0) * base_pow(0));
            assert(prefix_value(limbs@, 1) == lo);
            assert(prefix_value(limbs@, 2) == prefix_value(limbs@, 1) + limb(limbs@, 1) * base_pow(1));
            assert(prefix_value(limbs@, 2) == lo as nat + hi as nat * base());
        }
        Natural::from_limbs(limbs)
    }

    /// Whether the number is zero.
    pub fn is_zero(&self) -> (r: bool)
        ensures
            r == (self@ == 0),
    {
        let n = self.limbs.len();
        let mut i: usize = 0;
        while i < n
            invariant
                n == self.limbs.len(),
                i <= n,
                forall|j: int| 0 <= j < i ==> limb(self.limbs@, j) == 0,
            decreases n - i,
        {
            if self.limbs[i] != 0 {
                proof {
                    lemma_prefix_zero(self.limbs@, n as nat);
                    assert(limb(self.limbs@, i as int) != 0);
                }
                return false;
            }
            i = i + 1;
        }
        proof {
            lemma_prefix_zero(self.limbs@, n as nat);
        }
        true
    }

    /// The number that `limbs` denote, with zero limbs at the top removed.
    fn from_limbs(limbs: Vec<u32>) -> (r: Natural)
        ensures
            r@ == limbs_value(limbs@),
    {
        let mut limbs = limbs;
        let ghost value = limbs_value(limbs@);
        while limbs.len() > 0 && limbs[limbs.len() - 1] == 0
            invariant
                limbs_value(limbs@) == value,
            decreases limbs.len(),
        {
            let ghost before = limbs@;
            proof {
                lemma_drop_zero_top(before);
            }
            limbs.pop();
            assert(limbs@ =~= before.drop_last());
        }
        Natural { limbs }
    }

    /// The sum of two numbers.
    pub fn add(&self, other: &Natural) -> (r: Natural)
        ensures
            r@ == self@ + other@,
    {
        let a = &self.limbs;
        let b = &other.limbs;
        let n: usize = if a.len() >= b.len() {
            a.len()
        } else {
            b.len()
        };
        let mut out: Vec<u32> = Vec::new();
        let mut carry: u64 = 0;
        let mut i: usize = 0;
        while i < n
            invariant
                n == if a.len() >= b.len() {
                    a.len()
                } else {
                    b.len()
                },
                i <= n,
                out.len() == i,
                carry <= 1,
                prefix_value(out@, i as nat) + carry * base_pow(i as nat) == prefix_value(a@, i as nat)
                    + prefix_value(b@, i as nat),
            decreases n - i,
        {
            let da: u64 = if i < a.len() {
                a[i] as u64
            } else {
                0
            };
            let db: u64 = if i < b.len() {
                b[i] as u64
            } else {
                0
            };
            let s: u64 = da + db + carry;
            let d = (s % 0x1_0000_0000) as u32;
            let c = s / 0x1_0000_0000;
            let ghost old_out = out@;
            out.push(d);
            proof {
                lemma_prefix_agree(old_out, out@, i as nat);
                let bp = base_pow(i as nat);
                assert(da == limb(a@, i as int));
                assert(db == limb(b@, i as int));
                assert(d == limb(out@, i as int));
                assert(s == d + c * base());
                assert((d + c * base()) * bp == d * bp + c * (base() * bp)) by (nonlinear_arith);
                assert((da + db + carry) * bp == da * bp + db * bp + carry * bp) by (nonlinear_arith);
            }
            carry = c;
            i = i + 1;
        }
        let ghost before = out@;
        out.push(carry as u32);
        proof {
            lemma_prefix_agree(before, out@, n as nat);
            lemma_prefix_past_end(a@, n as nat);
            lemma_prefix_past_end(b@, n as nat);
            assert(limb(out@, n as int) == carry);
        }
        Natural::from_limbs(out)
    }

    /// `self - other`, with a flag that tells whether it would go below zero
    /// (the number is then of no use).
    fn sub_with_borrow(&self, other: &Natural) -> (r: (Natural, bool))
        ensures
            r.1 == (self@ < other@),
            !r.1 ==> r.0@ == self@ - other@,
    {
        let a = &self.limbs;
        let b = &other.limbs;
        let n: usize = if a.len() >= b.len() {
            a.len()
        } else {
            b.len()
        };
        let mut out: Vec<u32> = Vec::new();
        let mut borrow: u64 = 0;
        let mut i: usize = 0;
        while i < n
            invariant
                n == if a.len() >= b.len() {
                    a.len()
                } else {
                    b.len()
                },
                i <= n,
                out.len() == i,
                borrow <= 1,
                prefix_value(out@, i as nat) - borrow * base_pow(i as nat) == prefix_value(a@, i as nat)
                    - prefix_value(b@, i as nat),
            decreases n - i,
        {
            let da: u64 = if i < a.len() {
                a[i] as u64
            } else {
                0
            };
            let db: u64 = if i < b.len() {
                b[i] as u64
            } else {
                0
            };
            let d: u32;
            let nb: u64;
            if da >= db + borrow {
                d = (da - db - borrow) as u32;
                nb = 0;
            } else {
                d = (da + 0x1_0000_0000 - db - borrow) as u32;
                nb = 1;
            }
            let ghost old_out = out@;
            out.push(d);
            proof {
                lemma_prefix_agree(old_out, out@, i as nat);
                let bp = base_pow(i as nat);
                assert(da == limb(a@, i as int));
                assert(db == limb(b@, i as int));
                assert(d == limb(out@, i as int));
                assert(d - nb * base() == da - db - borrow);
                assert((d - nb * base()) * bp == d * bp - nb * (base() * bp)) by (nonlinear_arith);
                assert((da - db - borrow) * bp == da * bp - db * bp - borrow * bp) by (nonlinear_arith);
            }
            borrow = nb;
            i = i + 1;
        }
        proof {
            lemma_prefix_past_end(a@, n as nat);
            lemma_prefix_past_end(b@, n as nat);
            lemma_prefix_bound(out@, n as nat);
            lemma_prefix_past_end(out@, n as nat);
        }
        (Natural::from_limbs(out), borrow == 1)
    }

    /// Whether `self` is below `other`.
    pub fn lt(&self, other: &Natural) -> (r: bool)
        ensures
            r == (self@ < other@),
    {
        let (_, borrow) = self.sub_with_borrow(other);
        borrow
    }

    /// The difference of two numbers, the larger first.
    pub fn sub(&self, other: &Natural) -> (r: Natural)
        requires
            other@ <= self@,
        ensures
            r@ == self@ - other@,
    {
        let (d, _) = self.sub_with_borrow(other);
        d
    }

    /// The number times `base_pow(k)`.
    fn shift(&self, k: usize) -> (r: Natural)
        ensures
            r@ == self@ * base_pow(k as nat),
    {
        let mut out: Vec<u32> = Vec::new();
        let mut i: usize = 0;
        while i < k
            invariant
                i <= k,
                out.len() == i,
                forall|j: int| 0 <= j < i ==> out@[j] == 0,
            decreases k - i,
        {
            out.push(0);
            i = i + 1;
        }
        let n = self.limbs.len();
        let mut i: usize = 0;
        while i < n
            invariant
                n == self.limbs.len(),
                i <= n,
                out.len() == k + i,
                forall|j: int| 0 <= j < k ==> out@[j] == 0,
                forall|j: int| k <= j < k + i ==> out@[j] == self.limbs@[j - k],
            decreases n - i,
        {
            out.push(self.limbs[i]);
            i = i + 1;
        }
        proof {
            assert forall|j: int| #[trigger] limb(out@, j) == if j < k {
                0
            } else {
                limb(self.limbs@, j - k)
            } by {}
            lemma_shifted_value(out@, self.limbs@, k as nat, n as nat);
            assert(base_pow(k as nat) * self@ == self@ * base_pow(k as nat)) by (nonlinear_arith);
        }
        Natural { limbs: out }
    }

    /// The product of two numbers.
    pub fn mul(&self, other: &Natural) -> (r: Natural)
        ensures
            r@ == self@ * other@,
    {
        let b = &other.limbs;
        let n = b.len();
        let mut acc = Natural::zero();
        let mut j: usize = 0;
        assert(prefix_value(b@, 0) == 0);
        assert(self@ * 0 == 0);
        while j < n
            invariant
                n == b.len(),
                j <= n,
                acc@ == self@ * prefix_value(b@, j as nat),
            decreases n - j,
        {
            let part = self.mul_limb(b[j]);
            let sh = part.shift(j);
            let ghost old_acc = acc@;
            acc = acc.add(&sh);
            proof {
                let x = self@;
                let pv = prefix_value(b@, j as nat);
                let d = b@[j as int] as nat;
                let bp = base_pow(j as nat);
                assert(limb(b@, j as int) == d);
                assert(x * pv + (x * d) * bp == x * (pv + d * bp)) by (nonlinear_arith);
            }
            j = j + 1;
        }
        acc
    }

    /// The quotient and remainder of division by a number other than zero.
    pub fn div_rem(&self, d: &Natural) -> (r: (Natural, Natural))
        requires
            d@ > 0,
        ensures
            r.0@ * d@ + r.1@ == self@,
            r.1@ < d@,
    {
        let mut multiples: Vec<Natural> = Vec::new();
        let mut powers: Vec<Natural> = Vec::new();
        multiples.push(d.clone());
        powers.push(Natural::from_u64(1));
        assert(d@ * 1 == d@);
        let mut top = d.clone();
        let mut top_power = Natural::from_u64(1);
        loop
            invariant
                d@ > 0,
                multiples@.len() == powers@.len(),
                multiples@.len() >= 1,
                top@ == multiples@[multiples@.len() - 1]@,
                top_power@ == powers@[powers@.len() - 1]@,
                top_power@ >= 1,
                top@ >= 1,
                top@ <= 2 * self@ + d@,
                forall|j: int| 0 <= j < multiples@.len() ==> (#[trigger] multiples@[j])@ == d@ * powers@[j]@,
                powers@[0]@ == 1,
                forall|j: int| 0 < j < powers@.len() ==> (#[trigger] powers@[j])@ == 2 * powers@[j - 1]@,
        ensures
            self@ < top@,
            decreases 2 * self@ + d@ - top@,
        {
            if self.lt(&top) {
                break;
            }
            let next = top.mul_limb(2);
            let next_power = top_power.mul_limb(2);
            proof {
                assert(d@ * (top_power@ * 2) == (d@ * top_power@) * 2) by (nonlinear_arith);
                assert(next@ == top@ * 2);
                assert(next@ > top@);
            }
            multiples.push(next.clone());
            powers.push(next_power.clone());
            top = next;
            top_power = next_power;
        }
        let mut q = Natural::zero();
        let mut rem = self.clone();
        let mut i: usize = multiples.len() - 1;
        proof {
            assert(0 * d@ == 0) by (nonlinear_arith);
        }
        while i > 0
            invariant
                d@ > 0,
                multiples@.len() == powers@.len(),
                i < multiples@.len(),
                forall|j: int| 0 <= j < multiples@.len() ==> (#[trigger] multiples@[j])@ == d@ * powers@[j]@,
                powers@[0]@ == 1,
                forall|j: int| 0 < j < powers@.len() ==> (#[trigger] powers@[j])@ == 2 * powers@[j - 1]@,
                rem@ < multiples@[i as int]@,
                q@ * d@ + rem@ == self@,
            decreases i,
        {
            let k = i - 1;
            let m = &multiples[k];
            proof {
                assert(multiples@[i as int]@ == 2 * multiples@[k as int]@) by (nonlinear_arith)
                    requires
                        multiples@[i as int]@ == d@ * powers@[i as int]@,
                        multiples@[k as int]@ == d@ * powers@[k as int]@,
                        powers@[i as int]@ == 2 * powers@[k as int]@,
                ;
            }
            if !rem.lt(m) {
                let ghost old_q = q@;
                rem = rem.sub(m);
                q = q.add(&powers[k]);
                proof {
                    assert((old_q + powers@[k as int]@) * d@ == old_q * d@ + d@ * powers@[k as int]@)
                        by (nonlinear_arith);
                }
            }
            i = k;
        }
        proof {
            assert(multiples@[0]@ == d@ * 1);
        }
        (q, rem)
    }

    /// The product of a number and one limb.
    pub fn mul_limb(&self, m: u32) -> (r: Natural)
        ensures
            r@ == self@ * m,
    {
        let a = &self.limbs;
        let n = a.len();
        let mut out: Vec<u32> = Vec::new();
        let mut carry: u64 = 0;
        let mut i: usize = 0;
        assert(prefix_value(a@, 0) == 0);
        assert(0 * (m as int) == 0);
        while i < n
            invariant
                n == a.len(),
                i <= n,
                out.len() == i,
                carry < base(),
                prefix_value(out@, i as nat) + carry * base_pow(i as nat) == prefix_value(a@, i as nat)
                    * m,
            decreases n - i,
        {
            let da = a[i] as u64;
            assert(da * (m as u64) <= 0xFFFF_FFFF * 0xFFFF_FFFF) by (nonlinear_arith)
                requires
                    da < base(),
                    m < base(),
            ;
            let s: u64 = da * (m as u64) + carry;
            let d = (s % 0x1_0000_0000) as u32;
            let c = s / 0x1_0000_0000;
            let ghost old_out = out@;
            out.push(d);
            proof {
                lemma_prefix_agree(old_out, out@, i as nat);
                let bp = base_pow(i as nat);
                assert(da == limb(a@, i as int));
                assert(d == limb(out@, i as int));
                assert(s == d + c * base());
                assert((d + c * base()) * bp == d * bp + c * (base() * bp)) by (nonlinear_arith);
                assert((prefix_value(a@, i as nat) + da * bp) * m == prefix_value(a@, i as nat) * m
                    + (da * m) * bp) by (nonlinear_arith);
                assert((da * m + carry) * bp == (da * m) * bp + carry * bp) by (nonlinear_arith);
            }
            carry = c;
            i = i + 1;
        }
        let ghost before = out@;
        out.push(carry as u32);
        proof {
            lemma_prefix_agree(before, out@, n as nat);
            assert(limb(out@, n as int) == carry);
        }
        Natural::from_limbs(out)
    }
}

} // verus!
