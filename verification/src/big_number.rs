//! Arbitrary-precision signed integers: a sign bit plus base-2^32 limbs,
//! little-endian. The most significant limb of a trimmed value is nonzero
//! unless the value is zero, and zero in canonical form is positive.

use vstd::prelude::*;

verus! {

/// An arbitrary-precision signed integer.
pub struct Num {
    /// Sign: `true` means the magnitude is taken positively.
    pub pos: bool,
    /// Magnitude in base 2^32, least significant limb first.
    pub val: Vec<u32>,
}

/// 2^32, the limb base, raised to the power `n`.
pub open spec fn pow_b(n: nat) -> nat
    decreases n,
{
    if n == 0 {
        1
    } else {
        pow_b((n - 1) as nat) * 0x1_0000_0000
    }
}

/// The magnitude denoted by a little-endian limb sequence.
pub open spec fn limbs_val(s: Seq<u32>) -> nat
    decreases s.len(),
{
    if s.len() == 0 {
        0
    } else {
        (s[0] as nat) + limbs_val(s.drop_first()) * 0x1_0000_0000
    }
}

impl View for Num {
    type V = int;

    open spec fn view(&self) -> int {
        if self.pos {
            limbs_val(self.val@) as int
        } else {
            -(limbs_val(self.val@) as int)
        }
    }
}

impl Num {
    /// Trimmed: at least one limb, and no trailing zero limb beyond the first.
    pub open spec fn wf(&self) -> bool {
        &&& self.val@.len() >= 1
        &&& self.val@.len() > 1 ==> self.val@.last() != 0
    }

    /// Canonical: trimmed, and zero carries a positive sign.
    pub open spec fn canon(&self) -> bool {
        &&& self.wf()
        &&& self@ == 0 ==> self.pos
    }
}

/// A single limb denotes itself.
pub proof fn lemma_limbs_val_singleton(x: u32)
    ensures
        limbs_val(seq![x]) == x as nat,
{
    assert(seq![x].drop_first() =~= Seq::<u32>::empty());
    assert(limbs_val(Seq::<u32>::empty()) == 0);
}

pub proof fn lemma_pow_b_one()
    ensures
        pow_b(1) == 0x1_0000_0000,
{
    assert(pow_b(0) == 1);
    assert(pow_b(1) == pow_b(0) * 0x1_0000_0000);
}

pub proof fn lemma_pow_b_pos(n: nat)
    ensures
        pow_b(n) >= 1,
    decreases n,
{
    if n > 0 {
        lemma_pow_b_pos((n - 1) as nat);
    }
}

/// Appending a most significant limb adds its value scaled by the base power.
pub proof fn lemma_limbs_val_push(s: Seq<u32>, x: u32)
    ensures
        limbs_val(s.push(x)) == limbs_val(s) + (x as nat) * pow_b(s.len()),
    decreases s.len(),
{
    if s.len() == 0 {
        assert(s.push(x).drop_first() =~= Seq::<u32>::empty());
        assert(limbs_val(Seq::<u32>::empty()) == 0);
        assert(limbs_val(s) == 0);
        assert(pow_b(0) == 1);
        assert(limbs_val(s.push(x)) == (x as nat) + 0 * 0x1_0000_0000);
    } else {
        assert(s.push(x).drop_first() =~= s.drop_first().push(x));
        lemma_limbs_val_push(s.drop_first(), x);
        assert(limbs_val(s.push(x)) == (s[0] as nat) + (limbs_val(s.drop_first()) + (x as nat)
            * pow_b((s.len() - 1) as nat)) * 0x1_0000_0000);
        assert((limbs_val(s.drop_first()) + (x as nat) * pow_b((s.len() - 1) as nat))
            * 0x1_0000_0000 == limbs_val(s.drop_first()) * 0x1_0000_0000 + (x as nat) * (pow_b(
            (s.len() - 1) as nat,
        ) * 0x1_0000_0000)) by (nonlinear_arith);
        assert(pow_b(s.len()) == pow_b((s.len() - 1) as nat) * 0x1_0000_0000);
        assert(limbs_val(s) == (s[0] as nat) + limbs_val(s.drop_first()) * 0x1_0000_0000);
    }
}

/// Extending a prefix by one limb.
pub proof fn lemma_take_push(s: Seq<u32>, i: int)
    requires
        0 <= i < s.len(),
    ensures
        limbs_val(s.take(i + 1)) == limbs_val(s.take(i)) + (s[i] as nat) * pow_b(i as nat),
{
    assert(s.take(i + 1) =~= s.take(i).push(s[i]));
    lemma_limbs_val_push(s.take(i), s[i]);
}

/// A limb sequence denotes less than the base power of its length.
pub proof fn lemma_limbs_val_bound(s: Seq<u32>)
    ensures
        limbs_val(s) < pow_b(s.len()),
    decreases s.len(),
{
    if s.len() == 0 {
    } else {
        lemma_limbs_val_bound(s.drop_first());
        assert(limbs_val(s.drop_first()) * 0x1_0000_0000 <= (pow_b((s.len() - 1) as nat) - 1)
            * 0x1_0000_0000) by (nonlinear_arith)
            requires
                limbs_val(s.drop_first()) <= pow_b((s.len() - 1) as nat) - 1,
        ;
    }
}

/// A trimmed, nonzero-topped sequence denotes at least the base power of
/// its length less one.
pub proof fn lemma_limbs_val_low(s: Seq<u32>)
    requires
        s.len() >= 1,
        s.last() != 0,
    ensures
        limbs_val(s) >= pow_b((s.len() - 1) as nat),
    decreases s.len(),
{
    if s.len() == 1 {
    } else {
        lemma_limbs_val_low(s.drop_first());
        assert(limbs_val(s.drop_first()) * 0x1_0000_0000 >= pow_b((s.len() - 2) as nat)
            * 0x1_0000_0000) by (nonlinear_arith)
            requires
                limbs_val(s.drop_first()) >= pow_b((s.len() - 2) as nat),
        ;
    }
}

/// A trimmed sequence denoting zero is the single zero limb.
pub proof fn lemma_limbs_val_zero(s: Seq<u32>)
    requires
        s.len() >= 1,
        s.len() > 1 ==> s.last() != 0,
        limbs_val(s) == 0,
    ensures
        s =~= seq![0u32],
{
    if s.len() > 1 {
        lemma_limbs_val_low(s);
        lemma_pow_b_pos((s.len() - 1) as nat);
    } else {
        assert(s[0] == 0);
    }
}

/// Trimmed limb sequence: nonempty, no trailing zero beyond the first limb.
pub open spec fn trimmed(s: Seq<u32>) -> bool {
    &&& s.len() >= 1
    &&& s.len() > 1 ==> s.last() != 0
}

/// The base power grows with the exponent.
pub proof fn lemma_pow_b_mono(n: nat, m: nat)
    requires
        n <= m,
    ensures
        pow_b(n) <= pow_b(m),
    decreases m,
{
    if n < m {
        lemma_pow_b_mono(n, (m - 1) as nat);
        lemma_pow_b_pos((m - 1) as nat);
        assert(pow_b((m - 1) as nat) * 0x1_0000_0000 >= pow_b((m - 1) as nat) * 1)
            by (nonlinear_arith)
            requires
                pow_b((m - 1) as nat) >= 1,
        ;
    }
}

/// A value splits into a low prefix and a scaled high suffix.
pub proof fn lemma_limbs_split(s: Seq<u32>, i: int)
    requires
        0 <= i <= s.len(),
    ensures
        limbs_val(s) == limbs_val(s.take(i)) + pow_b(i as nat) * limbs_val(s.skip(i)),
    decreases i,
{
    if i == 0 {
        assert(s.take(0) =~= Seq::<u32>::empty());
        assert(s.skip(0) =~= s);
        assert(limbs_val(Seq::<u32>::empty()) == 0);
        assert(pow_b(0) == 1);
        assert(pow_b(0) * limbs_val(s) == limbs_val(s)) by (nonlinear_arith)
            requires
                pow_b(0) == 1,
        ;
    } else {
        lemma_limbs_split(s, i - 1);
        lemma_take_push(s, i - 1);
        assert(s.skip(i - 1).len() > 0);
        assert(s.skip(i - 1)[0] == s[i - 1]);
        assert(s.skip(i - 1).drop_first() =~= s.skip(i));
        assert(limbs_val(s.skip(i - 1)) == (s[i - 1] as nat) + limbs_val(s.skip(i))
            * 0x1_0000_0000);
        assert(pow_b((i - 1) as nat) * ((s[i - 1] as nat) + limbs_val(s.skip(i)) * 0x1_0000_0000)
            == (s[i - 1] as nat) * pow_b((i - 1) as nat) + (pow_b((i - 1) as nat) * 0x1_0000_0000)
            * limbs_val(s.skip(i))) by (nonlinear_arith);
        assert(pow_b(i as nat) == pow_b((i - 1) as nat) * 0x1_0000_0000);
    }
}

/// Equal suffixes above a strictly smaller limb decide the order.
proof fn lemma_limbs_cmp_at(a: Seq<u32>, b: Seq<u32>, i: int)
    requires
        a.len() == b.len(),
        0 <= i < a.len(),
        a.skip(i + 1) =~= b.skip(i + 1),
        (a[i] as nat) < (b[i] as nat),
    ensures
        limbs_val(a) < limbs_val(b),
{
    lemma_limbs_split(a, i);
    lemma_limbs_split(b, i);
    assert(a.skip(i)[0] == a[i]);
    assert(a.skip(i).drop_first() =~= a.skip(i + 1));
    assert(b.skip(i)[0] == b[i]);
    assert(b.skip(i).drop_first() =~= b.skip(i + 1));
    let t = limbs_val(a.skip(i + 1));
    assert(limbs_val(a.skip(i)) == (a[i] as nat) + t * 0x1_0000_0000);
    assert(limbs_val(b.skip(i)) == (b[i] as nat) + t * 0x1_0000_0000);
    lemma_limbs_val_bound(a.take(i));
    assert(a.take(i).len() == i);
    lemma_pow_b_pos(i as nat);
    assert(limbs_val(a.take(i)) + pow_b(i as nat) * ((a[i] as nat) + t * 0x1_0000_0000) < pow_b(
        i as nat,
    ) * ((b[i] as nat) + t * 0x1_0000_0000)) by (nonlinear_arith)
        requires
            limbs_val(a.take(i)) < pow_b(i as nat),
            (a[i] as nat) + 1 <= (b[i] as nat),
            pow_b(i as nat) >= 1,
            t >= 0,
    ;
}

/// Two trimmed sequences with the same value are the same sequence.
pub proof fn lemma_limbs_val_injective(s: Seq<u32>, t: Seq<u32>)
    requires
        trimmed(s),
        trimmed(t),
        limbs_val(s) == limbs_val(t),
    ensures
        s =~= t,
    decreases s.len(),
{
    if s.len() < t.len() {
        lemma_limbs_val_bound(s);
        lemma_limbs_val_low(t);
        lemma_pow_b_mono(s.len(), (t.len() - 1) as nat);
        assert(false);
    } else if t.len() < s.len() {
        lemma_limbs_val_bound(t);
        lemma_limbs_val_low(s);
        lemma_pow_b_mono(t.len(), (s.len() - 1) as nat);
        assert(false);
    } else if s.len() == 1 {
        assert(s.drop_first() =~= Seq::<u32>::empty());
        assert(t.drop_first() =~= Seq::<u32>::empty());
        assert(limbs_val(Seq::<u32>::empty()) == 0);
        assert(limbs_val(s) == s[0] as nat);
        assert(limbs_val(t) == t[0] as nat);
    } else {
        let sd = s.drop_first();
        let td = t.drop_first();
        assert(limbs_val(s) == (s[0] as nat) + limbs_val(sd) * 0x1_0000_0000);
        assert(limbs_val(t) == (t[0] as nat) + limbs_val(td) * 0x1_0000_0000);
        assert(s[0] == t[0] && limbs_val(sd) == limbs_val(td)) by (nonlinear_arith)
            requires
                (s[0] as nat) + limbs_val(sd) * 0x1_0000_0000 == (t[0] as nat) + limbs_val(td)
                    * 0x1_0000_0000,
                (s[0] as nat) < 0x1_0000_0000,
                (t[0] as nat) < 0x1_0000_0000,
        ;
        lemma_limbs_val_injective(sd, td);
        assert forall|j: int| 0 <= j < s.len() implies s[j] == t[j] by {
            if j > 0 {
                assert(s[j] == sd[j - 1]);
                assert(t[j] == td[j - 1]);
            }
        }
    }
}

impl Num {
    /// Compares two equally long limb sequences, most significant first.
    fn less_core(lhs: &Vec<u32>, rhs: &Vec<u32>) -> (r: bool)
        requires
            lhs@.len() == rhs@.len(),
        ensures
            r == (limbs_val(lhs@) < limbs_val(rhs@)),
    {
        let n = lhs.len();
        let mut i: usize = n;
        while i > 0
            invariant
                i <= n,
                n == lhs@.len() == rhs@.len(),
                lhs@.skip(i as int) =~= rhs@.skip(i as int),
            decreases i,
        {
            i -= 1;
            if lhs[i] < rhs[i] {
                proof {
                    lemma_limbs_cmp_at(lhs@, rhs@, i as int);
                }
                return true;
            }
            if rhs[i] < lhs[i] {
                proof {
                    lemma_limbs_cmp_at(rhs@, lhs@, i as int);
                }
                return false;
            }
            proof {
                assert forall|j: int| 0 <= j < lhs@.skip(i as int).len() implies lhs@.skip(
                    i as int,
                )[j] == rhs@.skip(i as int)[j] by {
                    assert(lhs@.skip(i as int)[j] == lhs@[i as int + j]);
                    assert(rhs@.skip(i as int)[j] == rhs@[i as int + j]);
                    if j > 0 {
                        assert(lhs@[i as int + j] == lhs@.skip(i as int + 1)[j - 1]);
                        assert(rhs@[i as int + j] == rhs@.skip(i as int + 1)[j - 1]);
                    }
                }
                assert(lhs@.skip(i as int) =~= rhs@.skip(i as int));
            }
        }
        proof {
            assert(lhs@.skip(0) =~= lhs@);
            assert(rhs@.skip(0) =~= rhs@);
        }
        false
    }

    /// Magnitude order of two limb vectors, shorter padded with zeros.
    fn less(lhs: &Vec<u32>, rhs: &Vec<u32>) -> (r: bool)
        ensures
            r == (limbs_val(lhs@) < limbs_val(rhs@)),
    {
        let n = if lhs.len() < rhs.len() {
            rhs.len()
        } else {
            lhs.len()
        };
        let a = Num::pad_to(lhs, n);
        let b = Num::pad_to(rhs, n);
        Num::less_core(&a, &b)
    }

    /// A copy of `v` extended with zero limbs up to length `n`.
    fn pad_to(v: &Vec<u32>, n: usize) -> (r: Vec<u32>)
        requires
            v@.len() <= n,
        ensures
            r@.len() == n,
            limbs_val(r@) == limbs_val(v@),
    {
        let mut r: Vec<u32> = Vec::new();
        let mut i: usize = 0;
        while i < v.len()
            invariant
                i <= v@.len(),
                r@ =~= v@.take(i as int),
            decreases v@.len() - i,
        {
            r.push(v[i]);
            i += 1;
        }
        proof {
            assert(r@ =~= v@);
        }
        while r.len() < n
            invariant
                r@.len() <= n,
                limbs_val(r@) == limbs_val(v@),
            decreases n - r@.len(),
        {
            proof {
                lemma_limbs_val_push(r@, 0u32);
            }
            r.push(0u32);
        }
        r
    }

    /// Limb-wise sum of two equally long vectors plus a final carry limb.
    fn add_core(lhs: &Vec<u32>, rhs: &Vec<u32>) -> (r: Vec<u32>)
        ensures
            limbs_val(r@) == limbs_val(lhs@) + limbs_val(rhs@),
    {
        let n = if lhs.len() < rhs.len() {
            rhs.len()
        } else {
            lhs.len()
        };
        let a = Num::pad_to(lhs, n);
        let b = Num::pad_to(rhs, n);
        let mut v: Vec<u32> = Vec::new();
        let mut carry: u64 = 0;
        let mut i: usize = 0;
        while i < n
            invariant
                i <= n,
                n == a@.len() == b@.len(),
                carry <= 1,
                v@.len() == i,
                limbs_val(v@) + carry * pow_b(i as nat) == limbs_val(a@.take(i as int))
                    + limbs_val(b@.take(i as int)),
            decreases n - i,
        {
            let t: u64 = (a[i] as u64) + (b[i] as u64) + carry;
            let lo: u32 = (t % 0x1_0000_0000) as u32;
            let hi: u64 = t / 0x1_0000_0000;
            proof {
                vstd::arithmetic::div_mod::lemma_fundamental_div_mod(t as int, 0x1_0000_0000);
                lemma_limbs_val_push(v@, lo);
                lemma_take_push(a@, i as int);
                lemma_take_push(b@, i as int);
                assert((t as nat) * pow_b(i as nat) == (lo as nat) * pow_b(i as nat) + (hi as nat)
                    * (pow_b(i as nat) * 0x1_0000_0000)) by (nonlinear_arith)
                    requires
                        t as nat == (lo as nat) + (hi as nat) * 0x1_0000_0000,
                ;
                assert(pow_b((i + 1) as nat) == pow_b(i as nat) * 0x1_0000_0000);
                assert(((a@[i as int] as nat) + (b@[i as int] as nat) + carry) * pow_b(i as nat)
                    == (a@[i as int] as nat) * pow_b(i as nat) + (b@[i as int] as nat) * pow_b(
                    i as nat,
                ) + (carry as nat) * pow_b(i as nat)) by (nonlinear_arith);
            }
            v.push(lo);
            carry = hi;
            i += 1;
        }
        proof {
            assert(a@.take(n as int) =~= a@);
            assert(b@.take(n as int) =~= b@);
            lemma_limbs_val_push(v@, carry as u32);
        }
        v.push(carry as u32);
        v
    }

    /// Limb-wise difference of the larger magnitude minus the smaller;
    /// the flag reports whether the operands were swapped.
    fn sub_core(lhs: &Vec<u32>, rhs: &Vec<u32>) -> (r: (Vec<u32>, bool))
        ensures
            limbs_val(r.0@) == if limbs_val(lhs@) < limbs_val(rhs@) {
                limbs_val(rhs@) - limbs_val(lhs@)
            } else {
                limbs_val(lhs@) - limbs_val(rhs@)
            },
            r.1 == (limbs_val(lhs@) < limbs_val(rhs@)),
    {
        let swapped = Num::less(lhs, rhs);
        let n = if lhs.len() < rhs.len() {
            rhs.len()
        } else {
            lhs.len()
        };
        let (a, b) = if swapped {
            (Num::pad_to(rhs, n), Num::pad_to(lhs, n))
        } else {
            (Num::pad_to(lhs, n), Num::pad_to(rhs, n))
        };
        let mut v: Vec<u32> = Vec::new();
        let mut borrow: u64 = 0;
        let mut i: usize = 0;
        while i < n
            invariant
                i <= n,
                n == a@.len() == b@.len(),
                borrow <= 1,
                v@.len() == i,
                limbs_val(v@) + limbs_val(b@.take(i as int)) == limbs_val(a@.take(i as int)) + (
                borrow as nat) * pow_b(i as nat),
            decreases n - i,
        {
            let x: i64 = (a[i] as i64) - (b[i] as i64) - (borrow as i64);
            let (d, nb): (u32, u64) = if x < 0 {
                ((x + 0x1_0000_0000) as u32, 1)
            } else {
                (x as u32, 0)
            };
            proof {
                lemma_limbs_val_push(v@, d);
                lemma_take_push(a@, i as int);
                lemma_take_push(b@, i as int);
                assert((d as int) == (a@[i as int] as int) - (b@[i as int] as int) - (borrow as int)
                    + (nb as int) * 0x1_0000_0000);
                assert(pow_b((i + 1) as nat) == pow_b(i as nat) * 0x1_0000_0000);
                assert(((a@[i as int] as int) - (b@[i as int] as int) - (borrow as int) + (
                nb as int) * 0x1_0000_0000) * pow_b(i as nat) == (a@[i as int] as int) * pow_b(
                    i as nat,
                ) - (b@[i as int] as int) * pow_b(i as nat) - (borrow as int) * pow_b(i as nat) + (
                nb as int) * (pow_b(i as nat) * 0x1_0000_0000)) by (nonlinear_arith);
            }
            v.push(d);
            borrow = nb;
            i += 1;
        }
        proof {
            assert(a@.take(n as int) =~= a@);
            assert(b@.take(n as int) =~= b@);
            if borrow == 1 {
                lemma_limbs_val_bound(v@);
                assert(false);
            }
        }
        (v, swapped)
    }
}

impl Num {
    /// A fresh value equal to the signed machine integer `n`.
    pub fn new(n: isize) -> (r: Num)
        ensures
            r.canon(),
            r@ == n as int,
    {
        let wide: i128 = n as i128;
        let mag: u128 = if wide >= 0 {
            wide as u128
        } else {
            (-wide) as u128
        };
        let lo: u32 = (mag % 0x1_0000_0000) as u32;
        let hi: u32 = (mag / 0x1_0000_0000) as u32;
        let mut v: Vec<u32> = Vec::new();
        v.push(lo);
        v.push(hi);
        proof {
            assert(mag <= 0x8000_0000_0000_0000u128);
            assert(mag / 0x1_0000_0000u128 < 0x1_0000_0000);
            vstd::arithmetic::div_mod::lemma_fundamental_div_mod(mag as int, 0x1_0000_0000);
            assert(v@ =~= seq![lo].push(hi));
            lemma_limbs_val_push(seq![lo], hi);
            lemma_limbs_val_singleton(lo);
            lemma_pow_b_one();
            assert(mag as nat == (lo as nat) + (hi as nat) * 0x1_0000_0000);
        }
        let mut res = Num { pos: n >= 0, val: v };
        res.shrink_to_fit();
        res
    }

    /// A fresh value equal to the unsigned machine integer `u`.
    pub fn from_u64(u: u64) -> (r: Num)
        ensures
            r.canon(),
            r@ == u as int,
    {
        let lo: u32 = (u % 0x1_0000_0000) as u32;
        let hi: u32 = (u / 0x1_0000_0000) as u32;
        let mut v: Vec<u32> = Vec::new();
        v.push(lo);
        v.push(hi);
        proof {
            assert(u / 0x1_0000_0000u64 < 0x1_0000_0000);
            vstd::arithmetic::div_mod::lemma_fundamental_div_mod(u as int, 0x1_0000_0000);
            assert(v@ =~= seq![lo].push(hi));
            lemma_limbs_val_push(seq![lo], hi);
            lemma_limbs_val_singleton(lo);
            lemma_pow_b_one();
            assert(u as nat == (lo as nat) + (hi as nat) * 0x1_0000_0000);
        }
        let mut res = Num { pos: true, val: v };
        res.shrink_to_fit();
        res
    }

    /// A nonnegative value from a raw limb vector, trimming trailing zeros.
    pub fn from_vec(v: Vec<u32>) -> (r: Num)
        ensures
            r.canon(),
            r@ == limbs_val(v@) as int,
    {
        let mut res = Num { pos: true, val: v };
        res.shrink_to_fit();
        res
    }

    /// The canonical zero.
    pub fn zero() -> (r: Num)
        ensures
            r.canon(),
            r@ == 0,
    {
        let v = vec![0u32];
        proof {
            assert(v@ =~= seq![0u32]);
            lemma_limbs_val_singleton(0u32);
        }
        Num { pos: true, val: v }
    }

    /// The canonical one.
    pub fn one() -> (r: Num)
        ensures
            r.canon(),
            r@ == 1,
    {
        let v = vec![1u32];
        proof {
            assert(v@ =~= seq![1u32]);
            lemma_limbs_val_singleton(1u32);
        }
        Num { pos: true, val: v }
    }

    /// A structural copy: same sign, same limbs.
    pub fn clone(&self) -> (r: Num)
        ensures
            r.pos == self.pos,
            r.val@ == self.val@,
            r@ == self@,
            self.wf() ==> r.wf(),
            self.canon() ==> r.canon(),
    {
        let mut v: Vec<u32> = Vec::new();
        let mut i: usize = 0;
        while i < self.val.len()
            invariant
                i <= self.val.len(),
                v@ =~= self.val@.take(i as int),
            decreases self.val.len() - i,
        {
            v.push(self.val[i]);
            i += 1;
        }
        proof {
            assert(v@ =~= self.val@);
        }
        Num { pos: self.pos, val: v }
    }

    /// Whether the sign bit is positive.
    pub fn is_pos(&self) -> (r: bool)
        ensures
            r == self.pos,
            self.canon() ==> (r == (self@ >= 0)),
    {
        self.pos
    }

    /// Whether the value is zero.
    pub fn is_zero(&self) -> (r: bool)
        requires
            self.wf(),
        ensures
            r == (self@ == 0),
    {
        proof {
            if self.val@.len() == 1 && self.val@[0] == 0 {
                assert(self.val@ =~= seq![0u32]);
                lemma_limbs_val_singleton(0u32);
            } else {
                if limbs_val(self.val@) == 0 {
                    lemma_limbs_val_zero(self.val@);
                }
            }
        }
        self.val.len() == 1 && self.val[0] == 0
    }

    /// Negates in place; the limbs stay as they are, and a zero keeps
    /// its canonical positive sign.
    pub fn minus(&mut self)
        requires
            old(self).wf(),
        ensures
            final (self).canon(),
            final (self).val@ == old(self).val@,
            final (self)@ == -old(self)@,
            old(self)@ != 0 ==> final (self).pos == !old(self).pos,
    {
        self.pos = !self.pos;
        if self.is_zero() {
            self.pos = true;
        }
    }

    /// The negation of `v` as a fresh value; negating zero gives the
    /// canonical positive zero back.
    pub fn neg(v: &Num) -> (r: Num)
        requires
            v.wf(),
        ensures
            r.canon(),
            r.val@ == v.val@,
            r@ == -v@,
            v@ != 0 ==> r.pos == !v.pos,
    {
        let mut r = v.clone();
        r.minus();
        r
    }

    /// Removes trailing zero limbs, leaving a single zero limb at least.
    fn shrink_to_fit(&mut self)
        ensures
            final (self).wf(),
            final (self).pos == old(self).pos,
            limbs_val(final (self).val@) == limbs_val(old(self).val@),
    {
        while self.val.len() > 1 && self.val[self.val.len() - 1] == 0
            invariant
                limbs_val(self.val@) == limbs_val(old(self).val@),
                self.pos == old(self).pos,
            decreases self.val.len(),
        {
            proof {
                let s = self.val@;
                assert(s =~= s.drop_last().push(s.last()));
                lemma_limbs_val_push(s.drop_last(), s.last());
            }
            self.val.pop();
        }
        if self.val.len() == 0 {
            self.val.push(0u32);
            proof {
                assert(self.val@ =~= seq![0u32]);
                lemma_limbs_val_singleton(0u32);
            }
        }
    }
}

/// The absolute value of `a`.
pub open spec fn abs_int(a: int) -> int {
    if a >= 0 {
        a
    } else {
        -a
    }
}

/// Division truncated toward zero, the rounding `div` implements.
pub open spec fn trunc_div(a: int, b: int) -> int
    recommends
        b != 0,
{
    if (a >= 0) == (b >= 0) {
        abs_int(a) / abs_int(b)
    } else {
        -(abs_int(a) / abs_int(b))
    }
}

/// The greatest common divisor by the Euclidean recursion;
/// `gcd_nat(a, 0) == a`, so `gcd_nat(0, 0) == 0`.
pub open spec fn gcd_nat(a: nat, b: nat) -> nat
    decreases b,
{
    if b == 0 {
        a
    } else {
        gcd_nat(b, a % b)
    }
}

impl Num {
    /// The magnitude of `v` as a fresh nonnegative value.
    pub fn abs_of(v: &Num) -> (r: Num)
        requires
            v.wf(),
        ensures
            r.canon(),
            r@ == abs_int(v@),
    {
        let c = v.clone();
        Num { pos: true, val: c.val }
    }

    /// Strict order on values.
    pub fn lt(lhs: &Num, rhs: &Num) -> (r: bool)
        requires
            lhs.canon(),
            rhs.canon(),
        ensures
            r == (lhs@ < rhs@),
    {
        if lhs.pos && !rhs.pos {
            false
        } else if !lhs.pos && rhs.pos {
            true
        } else if lhs.pos {
            Num::less(&lhs.val, &rhs.val)
        } else {
            Num::less(&rhs.val, &lhs.val)
        }
    }

    /// The sum of two values.
    pub fn add(lhs: &Num, rhs: &Num) -> (r: Num)
        requires
            lhs.wf(),
            rhs.wf(),
        ensures
            r.canon(),
            r@ == lhs@ + rhs@,
    {
        if lhs.pos == rhs.pos {
            let mut res = Num::from_vec(Num::add_core(&lhs.val, &rhs.val));
            if !lhs.pos && !res.is_zero() {
                res.minus();
            }
            res
        } else {
            let (v, swapped) = Num::sub_core(&lhs.val, &rhs.val);
            let neg = if lhs.pos {
                swapped
            } else {
                !swapped
            };
            let mut res = Num::from_vec(v);
            if neg && !res.is_zero() {
                res.minus();
            }
            res
        }
    }

    /// The difference of two values.
    pub fn sub(lhs: &Num, rhs: &Num) -> (r: Num)
        requires
            lhs.wf(),
            rhs.wf(),
        ensures
            r.canon(),
            r@ == lhs@ - rhs@,
    {
        let t = Num::neg(rhs);
        Num::add(lhs, &t)
    }

    /// A copy of the limbs moved up one place: the value times 2^32.
    fn shift_up(v: Vec<u32>) -> (r: Vec<u32>)
        ensures
            limbs_val(r@) == limbs_val(v@) * 0x1_0000_0000,
    {
        let mut r: Vec<u32> = Vec::new();
        r.push(0u32);
        let mut i: usize = 0;
        while i < v.len()
            invariant
                i <= v@.len(),
                r@ =~= seq![0u32] + v@.take(i as int),
            decreases v@.len() - i,
        {
            r.push(v[i]);
            i += 1;
        }
        proof {
            assert(r@ =~= seq![0u32] + v@);
            assert(r@[0] == 0);
            assert(r@.drop_first() =~= v@);
            assert(limbs_val(r@) == 0 + limbs_val(v@) * 0x1_0000_0000);
        }
        r
    }

    /// The limbs scaled by a single limb factor.
    fn mul_limb(v: &Vec<u32>, x: u32) -> (r: Vec<u32>)
        ensures
            limbs_val(r@) == limbs_val(v@) * (x as nat),
    {
        let n = v.len();
        let mut r: Vec<u32> = Vec::new();
        let mut carry: u64 = 0;
        let mut i: usize = 0;
        proof {
            assert(v@.take(0) =~= Seq::<u32>::empty());
            assert(limbs_val(Seq::<u32>::empty()) == 0);
            assert(limbs_val(Seq::<u32>::empty()) * (x as nat) == 0) by (nonlinear_arith)
                requires
                    limbs_val(Seq::<u32>::empty()) == 0,
            ;
        }
        while i < n
            invariant
                i <= n,
                n == v@.len(),
                carry < 0x1_0000_0000,
                r@.len() == i,
                limbs_val(r@) + carry * pow_b(i as nat) == limbs_val(v@.take(i as int)) * (x as nat),
            decreases n - i,
        {
            proof {
                assert((v@[i as int] as u64) * (x as u64) <= 0xFFFF_FFFFu64 * 0xFFFF_FFFFu64)
                    by (nonlinear_arith)
                    requires
                        v@[i as int] <= 0xFFFF_FFFFu32,
                        x <= 0xFFFF_FFFFu32,
                ;
            }
            let t: u64 = (v[i] as u64) * (x as u64) + carry;
            let lo: u32 = (t % 0x1_0000_0000) as u32;
            let hi: u64 = t / 0x1_0000_0000;
            proof {
                assert((v@[i as int] as u64) * (x as u64) <= 0xFFFF_FFFFu64 * 0xFFFF_FFFFu64)
                    by (nonlinear_arith)
                    requires
                        v@[i as int] <= 0xFFFF_FFFFu32,
                        x <= 0xFFFF_FFFFu32,
                ;
                vstd::arithmetic::div_mod::lemma_fundamental_div_mod(t as int, 0x1_0000_0000);
                lemma_limbs_val_push(r@, lo);
                lemma_take_push(v@, i as int);
                assert(pow_b((i + 1) as nat) == pow_b(i as nat) * 0x1_0000_0000);
                assert((t as nat) * pow_b(i as nat) == (lo as nat) * pow_b(i as nat) + (hi as nat)
                    * (pow_b(i as nat) * 0x1_0000_0000)) by (nonlinear_arith)
                    requires
                        t as nat == (lo as nat) + (hi as nat) * 0x1_0000_0000,
                ;
                assert(((v@[i as int] as nat) * (x as nat) + carry) * pow_b(i as nat) == (v@[i as int] as nat)
                    * pow_b(i as nat) * (x as nat) + (carry as nat) * pow_b(i as nat))
                    by (nonlinear_arith);
                assert((limbs_val(v@.take(i as int)) + (v@[i as int] as nat) * pow_b(i as nat)) * (
                x as nat) == limbs_val(v@.take(i as int)) * (x as nat) + (v@[i as int] as nat)
                    * pow_b(i as nat) * (x as nat)) by (nonlinear_arith);
            }
            r.push(lo);
            carry = hi;
            i += 1;
        }
        proof {
            assert(v@.take(n as int) =~= v@);
            lemma_limbs_val_push(r@, carry as u32);
        }
        r.push(carry as u32);
        r
    }

    /// The product of two values.
    pub fn mul(lhs: &Num, rhs: &Num) -> (r: Num)
        requires
            lhs.wf(),
            rhs.wf(),
        ensures
            r.canon(),
            r@ == lhs@ * rhs@,
    {
        let ghost a = limbs_val(lhs.val@);
        let ghost b = limbs_val(rhs.val@);
        let mut acc: Vec<u32> = Vec::new();
        let mut i: usize = lhs.val.len();
        proof {
            assert(lhs.val@.skip(i as int) =~= Seq::<u32>::empty());
            assert(limbs_val(Seq::<u32>::empty()) == 0);
            assert(limbs_val(Seq::<u32>::empty()) * b == 0) by (nonlinear_arith)
                requires
                    limbs_val(Seq::<u32>::empty()) == 0,
            ;
        }
        while i > 0
            invariant
                i <= lhs.val@.len(),
                b == limbs_val(rhs.val@),
                limbs_val(acc@) == limbs_val(lhs.val@.skip(i as int)) * b,
            decreases i,
        {
            i -= 1;
            let shifted = Num::shift_up(acc);
            let part = Num::mul_limb(&rhs.val, lhs.val[i]);
            acc = Num::add_core(&shifted, &part);
            proof {
                let s = lhs.val@;
                assert(s.skip(i as int)[0] == s[i as int]);
                assert(s.skip(i as int).drop_first() =~= s.skip(i as int + 1));
                assert(limbs_val(s.skip(i as int)) == (s[i as int] as nat) + limbs_val(
                    s.skip(i as int + 1),
                ) * 0x1_0000_0000);
                assert(limbs_val(s.skip(i as int + 1)) * b * 0x1_0000_0000 + b * (s[i as int] as nat)
                    == ((s[i as int] as nat) + limbs_val(s.skip(i as int + 1)) * 0x1_0000_0000) * b)
                    by (nonlinear_arith);
                assert(b * (s[i as int] as nat) == limbs_val(rhs.val@) * (s[i as int] as nat));
            }
        }
        proof {
            assert(lhs.val@.skip(0) =~= lhs.val@);
        }
        let mut res = Num::from_vec(acc);
        let neg = lhs.pos != rhs.pos;
        if neg && !res.is_zero() {
            res.minus();
        }
        proof {
            assert(lhs@ * rhs@ == if lhs.pos == rhs.pos {
                (a * b) as int
            } else {
                -((a * b) as int)
            }) by (nonlinear_arith)
                requires
                    lhs@ == if lhs.pos {
                        a as int
                    } else {
                        -(a as int)
                    },
                    rhs@ == if rhs.pos {
                        b as int
                    } else {
                        -(b as int)
                    },
            ;
        }
        res
    }

    /// Quotient and remainder of nonnegative values by double-and-subtract.
    fn divmod_mag(a: &Num, b: &Num) -> (r: (Num, Num))
        requires
            a.canon(),
            b.canon(),
            a@ >= 0,
            b@ >= 1,
        ensures
            r.0.canon(),
            r.1.canon(),
            r.0@ >= 0,
            0 <= r.1@ < b@,
            a@ == r.0@ * b@ + r.1@,
    {
        let mut q = Num::zero();
        let mut rem = a.clone();
        loop
            invariant
                q.canon(),
                rem.canon(),
                b.canon(),
                q@ >= 0,
                rem@ >= 0,
                b@ >= 1,
                a@ == q@ * b@ + rem@,
            ensures
                rem@ < b@,
            decreases limbs_val(rem.val@),
        {
            if Num::lt(&rem, b) {
                break ;
            }
            let mut t = b.clone();
            let mut p = Num::one();
            loop
                invariant
                    t.canon(),
                    p.canon(),
                    rem.canon(),
                    b.canon(),
                    p@ >= 1,
                    b@ >= 1,
                    t@ == b@ * p@,
                    t@ <= rem@,
                ensures
                    t@ == b@ * p@,
                    p@ >= 1,
                    t@ <= rem@,
                decreases limbs_val(rem.val@) - limbs_val(t.val@),
            {
                let t2 = Num::add(&t, &t);
                if Num::lt(&rem, &t2) {
                    break ;
                }
                proof {
                    assert(t2@ == b@ * (p@ + p@)) by (nonlinear_arith)
                        requires
                            t2@ == t@ + t@,
                            t@ == b@ * p@,
                    ;
                    assert(t2@ >= t@ + 1) by (nonlinear_arith)
                        requires
                            t2@ == t@ + t@,
                            t@ == b@ * p@,
                            b@ >= 1,
                            p@ >= 1,
                    ;
                }
                t = t2;
                p = Num::add(&p, &p);
            }
            proof {
                assert((q@ + p@) * b@ + (rem@ - t@) == q@ * b@ + rem@) by (nonlinear_arith)
                    requires
                        t@ == b@ * p@,
                ;
                assert(t@ >= 1) by (nonlinear_arith)
                    requires
                        t@ == b@ * p@,
                        b@ >= 1,
                        p@ >= 1,
                ;
            }
            q = Num::add(&q, &p);
            let nrem = Num::sub(&rem, &t);
            rem = nrem;
        }
        (q, rem)
    }

    /// The quotient truncated toward zero.
    pub fn div(lhs: &Num, rhs: &Num) -> (r: Num)
        requires
            lhs.canon(),
            rhs.canon(),
            rhs@ != 0,
        ensures
            r.canon(),
            r@ == trunc_div(lhs@, rhs@),
    {
        let am = Num::abs_of(lhs);
        let bm = Num::abs_of(rhs);
        let (q, rm) = Num::divmod_mag(&am, &bm);
        proof {
            vstd::arithmetic::div_mod::lemma_fundamental_div_mod_converse(
                am@,
                bm@,
                q@,
                rm@,
            );
            assert(q@ == abs_int(lhs@) / abs_int(rhs@));
        }
        let neg = lhs.pos != rhs.pos;
        let mut res = q;
        if neg && !res.is_zero() {
            res.minus();
        }
        res
    }

    /// The remainder of truncated division; it has the dividend's sign.
    pub fn rem(lhs: &Num, rhs: &Num) -> (r: Num)
        requires
            lhs.canon(),
            rhs.canon(),
            rhs@ != 0,
        ensures
            r.canon(),
            r@ == lhs@ - trunc_div(lhs@, rhs@) * rhs@,
    {
        let q = Num::div(&lhs, &rhs);
        let m = Num::mul(&q, &rhs);
        Num::sub(&lhs, &m)
    }

    /// The greatest common divisor of the magnitudes.
    pub fn gcd(lhs: &Num, rhs: &Num) -> (r: Num)
        requires
            lhs.canon(),
            rhs.canon(),
        ensures
            r.canon(),
            r@ == gcd_nat(abs_int(lhs@) as nat, abs_int(rhs@) as nat),
    {
        let mut x = Num::abs_of(lhs);
        let mut y = Num::abs_of(rhs);
        loop
            invariant
                x.canon(),
                y.canon(),
                x@ >= 0,
                y@ >= 0,
                gcd_nat(x@ as nat, y@ as nat) == gcd_nat(
                    abs_int(lhs@) as nat,
                    abs_int(rhs@) as nat,
                ),
            ensures
                y@ == 0,
                gcd_nat(x@ as nat, y@ as nat) == gcd_nat(
                    abs_int(lhs@) as nat,
                    abs_int(rhs@) as nat,
                ),
            decreases limbs_val(y.val@),
        {
            if y.is_zero() {
                break ;
            }
            let (q, rm) = Num::divmod_mag(&x, &y);
            proof {
                vstd::arithmetic::div_mod::lemma_fundamental_div_mod_converse(x@, y@, q@, rm@);
                assert(rm@ == x@ % y@);
                assert(gcd_nat(x@ as nat, y@ as nat) == gcd_nat(y@ as nat, rm@ as nat));
            }
            x = y;
            y = rm;
        }
        x
    }
}

impl Num {
    /// Limb-by-limb equality of two vectors.
    fn eq_limbs(lhs: &Vec<u32>, rhs: &Vec<u32>) -> (r: bool)
        ensures
            r == (lhs@ == rhs@),
    {
        if lhs.len() != rhs.len() {
            return false;
        }
        let mut i: usize = 0;
        while i < lhs.len()
            invariant
                i <= lhs@.len(),
                lhs@.len() == rhs@.len(),
                forall|k: int| 0 <= k < i ==> lhs@[k] == rhs@[k],
            decreases lhs@.len() - i,
        {
            if lhs[i] != rhs[i] {
                return false;
            }
            i += 1;
        }
        proof {
            assert(lhs@ =~= rhs@);
        }
        true
    }
}

impl PartialEq for Num {
    /// Equality treats positive and negative zero as equal; otherwise it
    /// compares sign and limbs.
    fn eq(&self, other: &Num) -> (r: bool) {
        let zz = self.val.len() == 1 && self.val[0] == 0 && other.val.len() == 1 && other.val[0]
            == 0;
        if zz {
            proof {
                assert(self.val@ =~= seq![0u32]);
                assert(other.val@ =~= seq![0u32]);
            }
            true
        } else {
            proof {
                if self.val@ == seq![0u32] && other.val@ == seq![0u32] {
                    assert(self.val@.len() == 1 && self.val@[0] == 0);
                    assert(other.val@.len() == 1 && other.val@[0] == 0);
                }
            }
            self.pos == other.pos && Num::eq_limbs(&self.val, &other.val)
        }
    }
}

impl vstd::std_specs::cmp::PartialEqSpecImpl for Num {
    open spec fn obeys_eq_spec() -> bool {
        true
    }

    open spec fn eq_spec(&self, other: &Num) -> bool {
        (self.val@ == seq![0u32] && other.val@ == seq![0u32]) || (self.pos == other.pos
            && self.val@ == other.val@)
    }
}

/// Two canonical representations of the same value are identical.
pub proof fn lemma_canon_unique(a: Num, b: Num)
    requires
        a.canon(),
        b.canon(),
        a@ == b@,
    ensures
        a.pos == b.pos,
        a.val@ == b.val@,
{
    if limbs_val(a.val@) == 0 {
        lemma_limbs_val_zero(a.val@);
        assert(a@ == 0);
        assert(limbs_val(b.val@) == 0);
        lemma_limbs_val_zero(b.val@);
    } else {
        assert(a@ != 0);
        assert(limbs_val(b.val@) != 0);
        assert(a.pos == b.pos);
        lemma_limbs_val_injective(a.val@, b.val@);
    }
}

/// Adding zero gives back the very same canonical representation.
pub proof fn lemma_add_zero(n: Num, r: Num)
    requires
        n.canon(),
        r.canon(),
        r@ == n@ + 0,
    ensures
        r.pos == n.pos,
        r.val@ == n.val@,
{
    lemma_canon_unique(n, r);
}

/// Subtracting a value from itself gives the canonical zero.
pub proof fn lemma_sub_self(n: Num, r: Num)
    requires
        r.canon(),
        r@ == n@ - n@,
    ensures
        r.pos,
        r.val@ == seq![0u32],
{
    assert(limbs_val(r.val@) == 0);
    lemma_limbs_val_zero(r.val@);
}

/// Multiplying by one gives back the very same canonical representation.
pub proof fn lemma_mul_one(n: Num, r: Num)
    requires
        n.canon(),
        r.canon(),
        r@ == n@ * 1,
    ensures
        r.pos == n.pos,
        r.val@ == n.val@,
{
    lemma_canon_unique(n, r);
}

/// Multiplying by zero gives the canonical zero.
pub proof fn lemma_mul_zero(n: Num, r: Num)
    requires
        r.canon(),
        r@ == n@ * 0,
    ensures
        r.pos,
        r.val@ == seq![0u32],
{
    assert(r@ == 0);
    assert(limbs_val(r.val@) == 0);
    lemma_limbs_val_zero(r.val@);
}

/// An exact product divided by its nonzero factor gives the other factor.
pub proof fn lemma_mul_div_exact(n: int, m: int)
    requires
        m != 0,
    ensures
        trunc_div(n * m, m) == n,
{
    assert(abs_int(n * m) == abs_int(n) * abs_int(m)) by (nonlinear_arith);
    vstd::arithmetic::div_mod::lemma_fundamental_div_mod_converse(
        abs_int(n) * abs_int(m),
        abs_int(m),
        abs_int(n),
        0,
    );
    assert(abs_int(n * m) / abs_int(m) == abs_int(n));
    if n == 0 {
        assert(trunc_div(0 * m, m) == 0);
    } else {
        assert(((n * m >= 0) == (m >= 0)) == (n >= 0)) by (nonlinear_arith)
            requires
                n != 0 && m != 0,
        ;
    }
}

/// The ASCII byte printing one digit value, lowercase above nine.
pub open spec fn digit_byte(d: nat) -> u8 {
    if d < 10 {
        (48 + d) as u8
    } else if d < 16 {
        (87 + d) as u8
    } else {
        63
    }
}

/// The digit values of `n` in the given base, most significant first.
pub open spec fn digits_of(n: nat, base: nat) -> Seq<nat>
    recommends
        2 <= base,
    decreases n,
    when base >= 2
    via digits_of_decreases
{
    if n < base {
        seq![n]
    } else {
        digits_of(n / base, base).push(n % base)
    }
}

#[via_fn]
proof fn digits_of_decreases(n: nat, base: nat) {
    if n >= base {
        assert(n / base < n) by (nonlinear_arith)
            requires
                base >= 2,
                n >= base,
        ;
    }
}

/// The ASCII bytes printing a nonnegative value in the given base.
pub open spec fn digit_bytes_of(v: nat, base: nat) -> Seq<u8> {
    digits_of(v, base).map_values(|d: nat| digit_byte(d))
}

/// The ASCII bytes printing a signed value in the given base,
/// a leading minus sign for a negative one.
pub open spec fn int_bytes_of(v: int, base: nat) -> Seq<u8> {
    if v < 0 {
        seq![45u8] + digit_bytes_of((-v) as nat, base)
    } else {
        digit_bytes_of(v as nat, base)
    }
}

/// ASCII bytes read as characters, one for one.
pub open spec fn bytes_chars(s: Seq<u8>) -> Seq<char> {
    s.map_values(|b: u8| b as char)
}

/// Relies on `String::from_utf8`: bytes below 0x80 decode to one
/// character per byte, with equal code points.
#[verifier::external_body]
fn ascii_to_string(bytes: &Vec<u8>) -> (r: String)
    requires
        forall|i: int| 0 <= i < bytes@.len() ==> bytes@[i] < 128,
    ensures
        r@ == bytes_chars(bytes@),
{
    String::from_utf8(bytes.clone()).unwrap_or_default()
}

impl Num {
    /// The ASCII byte for one digit value.
    fn digit_to_byte(d: u32) -> (r: u8)
        requires
            d < 16,
        ensures
            r == digit_byte(d as nat),
    {
        if d < 10 {
            (48 + d) as u8
        } else {
            (87 + d) as u8
        }
    }

    /// The digit bytes of a nonnegative value, most significant first.
    fn mag_to_bytes(x: &Num, base: usize) -> (r: Vec<u8>)
        requires
            x.canon(),
            x@ >= 0,
            2 <= base <= 16,
        ensures
            r@ == digit_bytes_of(x@ as nat, base as nat),
    {
        let ghost n0: nat = x@ as nat;
        if x.is_zero() {
            let mut out: Vec<u8> = Vec::new();
            out.push(48u8);
            proof {
                assert(digits_of(0, base as nat) =~= seq![0nat]);
                assert(out@ =~= digit_bytes_of(0, base as nat));
            }
            return out;
        }
        let bn = Num::new(base as isize);
        let mut cur = x.clone();
        let mut ds: Vec<u8> = Vec::new();
        let ghost mut dsg: Seq<nat> = Seq::empty();
        loop
            invariant
                cur.canon(),
                cur@ >= 0,
                bn.canon(),
                bn@ == base as int,
                2 <= base <= 16,
                ds@.len() == dsg.len(),
                forall|k: int| 0 <= k < dsg.len() ==> ds@[k] == digit_byte(dsg[k]),
                cur@ > 0 ==> digits_of(n0, base as nat) =~= digits_of(cur@ as nat, base as nat)
                    + dsg.reverse(),
                cur@ == 0 ==> digits_of(n0, base as nat) =~= dsg.reverse(),
            ensures
                cur@ == 0,
                digits_of(n0, base as nat) =~= dsg.reverse(),
                ds@.len() == dsg.len(),
                forall|k: int| 0 <= k < dsg.len() ==> ds@[k] == digit_byte(dsg[k]),
            decreases limbs_val(cur.val@),
        {
            if cur.is_zero() {
                break ;
            }
            let (q, rm) = Num::divmod_mag(&cur, &bn);
            proof {
                vstd::arithmetic::div_mod::lemma_fundamental_div_mod_converse(cur@, bn@, q@, rm@);
                if rm.val@.len() > 1 {
                    lemma_limbs_val_low(rm.val@);
                    lemma_pow_b_one();
                    lemma_pow_b_mono(1, (rm.val@.len() - 1) as nat);
                    assert(limbs_val(rm.val@) >= 0x1_0000_0000);
                    assert(limbs_val(rm.val@) < 16);
                    assert(false);
                }
                assert(rm.val@.drop_first() =~= Seq::<u32>::empty());
                assert(limbs_val(rm.val@) == rm.val@[0] as nat);
            }
            let db = Num::digit_to_byte(rm.val[0]);
            ds.push(db);
            let ghost old_dsg = dsg;
            proof {
                dsg = dsg.push(rm@ as nat);
                assert(dsg.reverse() =~= seq![rm@ as nat] + old_dsg.reverse());
                if q@ == 0 {
                    assert(q@ * bn@ == 0) by (nonlinear_arith)
                        requires
                            q@ == 0,
                    ;
                    assert(cur@ == rm@);
                    assert(digits_of(cur@ as nat, base as nat) =~= seq![rm@ as nat]);
                    assert(digits_of(n0, base as nat) =~= digits_of(cur@ as nat, base as nat)
                        + old_dsg.reverse());
                    assert(seq![rm@ as nat] + old_dsg.reverse() =~= dsg.reverse());
                    assert(digits_of(n0, base as nat) =~= dsg.reverse());
                } else {
                    assert(cur@ >= base) by (nonlinear_arith)
                        requires
                            cur@ == q@ * (base as int) + rm@,
                            q@ >= 1,
                            rm@ >= 0,
                            base >= 2,
                    ;
                    assert(digits_of(cur@ as nat, base as nat) == digits_of(
                        (cur@ as nat) / (base as nat),
                        base as nat,
                    ).push((cur@ as nat) % (base as nat)));
                    assert((cur@ as nat) / (base as nat) == q@ as nat);
                    assert((cur@ as nat) % (base as nat) == rm@ as nat);
                    assert(digits_of(n0, base as nat) =~= digits_of(q@ as nat, base as nat)
                        + dsg.reverse());
                }
                assert(q@ < cur@) by (nonlinear_arith)
                    requires
                        cur@ == q@ * (base as int) + rm@,
                        q@ >= 0,
                        rm@ >= 0,
                        base >= 2,
                        cur@ >= 1,
                ;
            }
            cur = q;
        }
        let mut out: Vec<u8> = Vec::new();
        let mut j: usize = ds.len();
        while j > 0
            invariant
                j <= ds@.len(),
                out@.len() == ds@.len() - j,
                forall|k: int| 0 <= k < out@.len() ==> out@[k] == ds@[ds@.len() - 1 - k],
            decreases j,
        {
            j -= 1;
            out.push(ds[j]);
        }
        proof {
            let goal = digit_bytes_of(n0, base as nat);
            assert(goal.len() == dsg.len());
            assert forall|k: int| 0 <= k < out@.len() implies out@[k] == goal[k] by {
                assert(digits_of(n0, base as nat)[k] == dsg.reverse()[k]);
                assert(dsg.reverse()[k] == dsg[dsg.len() - 1 - k]);
                assert(out@[k] == ds@[ds@.len() - 1 - k]);
            }
            assert(out@ =~= goal);
        }
        out
    }

    /// The ASCII bytes printing this value in the given base.
    pub fn to_bytes_base(&self, base: usize) -> (r: Vec<u8>)
        requires
            self.canon(),
            2 <= base <= 16,
        ensures
            r@ == int_bytes_of(self@, base as nat),
    {
        let mag = Num::abs_of(self);
        let digits = Num::mag_to_bytes(&mag, base);
        let mut out: Vec<u8> = Vec::new();
        if !self.is_pos() {
            out.push(45u8);
        }
        let ghost prefix = out@;
        let mut i: usize = 0;
        while i < digits.len()
            invariant
                i <= digits@.len(),
                out@ =~= prefix + digits@.take(i as int),
            decreases digits@.len() - i,
        {
            out.push(digits[i]);
            i += 1;
        }
        proof {
            assert(digits@.take(digits@.len() as int) =~= digits@);
            if self@ < 0 {
                assert(out@ =~= seq![45u8] + digits@);
            } else {
                assert(out@ =~= digits@);
            }
        }
        out
    }

    /// The decimal string for this value.
    pub fn to_string(&self) -> (r: String)
        requires
            self.canon(),
        ensures
            r@ == bytes_chars(int_bytes_of(self@, 10)),
    {
        self.to_string_base(10)
    }

    /// The string for this value in the given base, lowercase digits.
    pub fn to_string_base(&self, base: usize) -> (r: String)
        requires
            self.canon(),
            2 <= base <= 16,
        ensures
            r@ == bytes_chars(int_bytes_of(self@, base as nat)),
    {
        let bytes = self.to_bytes_base(base);
        proof {
            lemma_int_bytes_ascii(self@, base as nat);
        }
        ascii_to_string(&bytes)
    }
}

impl Num {
    /// The value saturated into the signed machine integer range.
    pub fn to_isize_sat(&self) -> (r: isize)
        requires
            self.canon(),
        ensures
            r as int == if self@ < isize::MIN as int {
                isize::MIN as int
            } else if self@ > isize::MAX as int {
                isize::MAX as int
            } else {
                self@
            },
    {
        let min_n = Num::new(isize::MIN);
        let max_n = Num::new(isize::MAX);
        if Num::lt(self, &min_n) {
            isize::MIN
        } else if Num::lt(&max_n, self) {
            isize::MAX
        } else {
            proof {
                if self.val@.len() > 2 {
                    lemma_limbs_val_low(self.val@);
                    lemma_pow_b_one();
                    lemma_pow_b_mono(2, (self.val@.len() - 1) as nat);
                    assert(pow_b(2) == pow_b(1) * 0x1_0000_0000);
                    assert(limbs_val(self.val@) >= 0x1_0000_0000_0000_0000);
                    assert(limbs_val(self.val@) <= 0x8000_0000_0000_0000);
                    assert(false);
                }
            }
            let lo: u64 = self.val[0] as u64;
            let hi: u64 = if self.val.len() >= 2 {
                self.val[1] as u64
            } else {
                0
            };
            let mag: u64 = lo + hi * 0x1_0000_0000;
            proof {
                if self.val@.len() == 1 {
                    assert(self.val@.drop_first() =~= Seq::<u32>::empty());
                    assert(limbs_val(Seq::<u32>::empty()) == 0);
                    assert(limbs_val(self.val@) == lo as nat);
                } else {
                    assert(self.val@.drop_first() =~= seq![self.val@[1]]);
                    lemma_limbs_val_singleton(self.val@[1]);
                    assert(limbs_val(self.val@) == (lo as nat) + (hi as nat) * 0x1_0000_0000);
                }
            }
            if self.pos {
                mag as isize
            } else {
                (-(mag as i128)) as isize
            }
        }
    }
}

/// Every byte of a printed value is ASCII.
pub proof fn lemma_int_bytes_ascii(v: int, base: nat)
    ensures
        forall|i: int| 0 <= i < int_bytes_of(v, base).len() ==> int_bytes_of(v, base)[i] < 128,
{
    let s = int_bytes_of(v, base);
    assert forall|i: int| 0 <= i < s.len() implies s[i] < 128 by {
        let m = if v < 0 {
            (-v) as nat
        } else {
            v as nat
        };
        let ds = digits_of(m, base);
        if v < 0 {
            if i > 0 {
                assert(s[i] == digit_bytes_of(m, base)[i - 1]);
                assert(digit_bytes_of(m, base)[i - 1] == digit_byte(ds[i - 1]));
            }
        } else {
            assert(s[i] == digit_byte(ds[i]));
        }
    }
}

} // verus!
