//! Total rational arithmetic: a fraction of two big integers kept in
//! lowest terms with a positive denominator, plus the three non-finite
//! sentinels. Every operation is total; nothing here panics.

use crate::big_number::{abs_int, gcd_nat, Num};
use vstd::prelude::*;

verus! {

use crate::big_number;

/// A rational with non-finite sentinels.
pub enum Number {
    /// Undefined: the result of any operation touching it.
    Nan,
    /// Positive infinity.
    PosInf,
    /// Negative infinity.
    NegInf,
    /// A finite fraction `n / d`.
    Finite { n: Num, d: Num },
}

/// The mathematical value of a `Number`.
pub enum NumberV {
    Nan,
    PosInf,
    NegInf,
    Rat { n: int, d: int },
}

impl View for Number {
    type V = NumberV;

    open spec fn view(&self) -> NumberV {
        match self {
            Number::Nan => NumberV::Nan,
            Number::PosInf => NumberV::PosInf,
            Number::NegInf => NumberV::NegInf,
            Number::Finite { n, d } => NumberV::Rat { n: n@, d: d@ },
        }
    }
}

impl Number {
    /// Canonical form: a finite value keeps coprime parts and a positive
    /// denominator, so zero is exactly `0 / 1`.
    pub open spec fn wf(&self) -> bool {
        match self {
            Number::Finite { n, d } => {
                &&& n.canon()
                &&& d.canon()
                &&& d@ >= 1
                &&& gcd_nat(abs_int(n@) as nat, d@ as nat) == 1
            },
            _ => true,
        }
    }
}

/// The canonical fraction for `n / d`, both parts divided by their gcd.
pub open spec fn rat_norm(n: int, d: int) -> NumberV
    recommends
        d >= 1,
{
    let g = gcd_nat(abs_int(n) as nat, d as nat) as int;
    NumberV::Rat { n: n / g, d: d / g }
}

/// Negation: sign symmetry on every variant.
pub open spec fn rat_neg(a: NumberV) -> NumberV {
    match a {
        NumberV::Nan => NumberV::Nan,
        NumberV::PosInf => NumberV::NegInf,
        NumberV::NegInf => NumberV::PosInf,
        NumberV::Rat { n, d } => NumberV::Rat { n: -n, d: d },
    }
}

/// Addition: any undefined operand or opposite infinities are undefined;
/// an infinity absorbs the rest; finite parts add over a common denominator.
pub open spec fn rat_add(a: NumberV, b: NumberV) -> NumberV {
    match (a, b) {
        (NumberV::Nan, _) => NumberV::Nan,
        (_, NumberV::Nan) => NumberV::Nan,
        (NumberV::PosInf, NumberV::NegInf) => NumberV::Nan,
        (NumberV::NegInf, NumberV::PosInf) => NumberV::Nan,
        (NumberV::PosInf, _) => NumberV::PosInf,
        (_, NumberV::PosInf) => NumberV::PosInf,
        (NumberV::NegInf, _) => NumberV::NegInf,
        (_, NumberV::NegInf) => NumberV::NegInf,
        (NumberV::Rat { n: n1, d: d1 }, NumberV::Rat { n: n2, d: d2 }) => rat_norm(
            n1 * d2 + n2 * d1,
            d1 * d2,
        ),
    }
}

/// Subtraction is addition of the negated right operand.
pub open spec fn rat_sub(a: NumberV, b: NumberV) -> NumberV {
    rat_add(a, rat_neg(b))
}

/// Multiplication: zero times an infinity is undefined; infinities
/// multiply by sign; finite parts multiply componentwise.
pub open spec fn rat_mul(a: NumberV, b: NumberV) -> NumberV {
    match (a, b) {
        (NumberV::Nan, _) => NumberV::Nan,
        (_, NumberV::Nan) => NumberV::Nan,
        (NumberV::PosInf, NumberV::PosInf) => NumberV::PosInf,
        (NumberV::PosInf, NumberV::NegInf) => NumberV::NegInf,
        (NumberV::NegInf, NumberV::PosInf) => NumberV::NegInf,
        (NumberV::NegInf, NumberV::NegInf) => NumberV::PosInf,
        (NumberV::PosInf, NumberV::Rat { n, d }) => if n == 0 {
            NumberV::Nan
        } else if n > 0 {
            NumberV::PosInf
        } else {
            NumberV::NegInf
        },
        (NumberV::Rat { n, d }, NumberV::PosInf) => if n == 0 {
            NumberV::Nan
        } else if n > 0 {
            NumberV::PosInf
        } else {
            NumberV::NegInf
        },
        (NumberV::NegInf, NumberV::Rat { n, d }) => if n == 0 {
            NumberV::Nan
        } else if n > 0 {
            NumberV::NegInf
        } else {
            NumberV::PosInf
        },
        (NumberV::Rat { n, d }, NumberV::NegInf) => if n == 0 {
            NumberV::Nan
        } else if n > 0 {
            NumberV::NegInf
        } else {
            NumberV::PosInf
        },
        (NumberV::Rat { n: n1, d: d1 }, NumberV::Rat { n: n2, d: d2 }) => rat_norm(
            n1 * n2,
            d1 * d2,
        ),
    }
}

/// Division: undefined over undefined, infinity over infinity and zero
/// over zero; a nonzero finite over zero is the infinity with the
/// numerator's sign; a finite over an infinity is zero; an infinity over
/// a finite keeps the combined sign, a zero divisor counting as positive.
pub open spec fn rat_div(a: NumberV, b: NumberV) -> NumberV {
    match (a, b) {
        (NumberV::Nan, _) => NumberV::Nan,
        (_, NumberV::Nan) => NumberV::Nan,
        (NumberV::PosInf, NumberV::PosInf) => NumberV::Nan,
        (NumberV::PosInf, NumberV::NegInf) => NumberV::Nan,
        (NumberV::NegInf, NumberV::PosInf) => NumberV::Nan,
        (NumberV::NegInf, NumberV::NegInf) => NumberV::Nan,
        (NumberV::PosInf, NumberV::Rat { n, d }) => if n >= 0 {
            NumberV::PosInf
        } else {
            NumberV::NegInf
        },
        (NumberV::NegInf, NumberV::Rat { n, d }) => if n >= 0 {
            NumberV::NegInf
        } else {
            NumberV::PosInf
        },
        (NumberV::Rat { n, d }, NumberV::PosInf) => NumberV::Rat { n: 0, d: 1 },
        (NumberV::Rat { n, d }, NumberV::NegInf) => NumberV::Rat { n: 0, d: 1 },
        (NumberV::Rat { n: n1, d: d1 }, NumberV::Rat { n: n2, d: d2 }) => if n2 == 0 {
            if n1 == 0 {
                NumberV::Nan
            } else if n1 > 0 {
                NumberV::PosInf
            } else {
                NumberV::NegInf
            }
        } else if n2 > 0 {
            rat_norm(n1 * d2, d1 * n2)
        } else {
            rat_norm(-(n1 * d2), -(d1 * n2))
        },
    }
}

/// Reciprocal: zero flips to positive infinity, infinities flip to zero.
pub open spec fn rat_flip(a: NumberV) -> NumberV {
    match a {
        NumberV::Nan => NumberV::Nan,
        NumberV::PosInf => NumberV::Rat { n: 0, d: 1 },
        NumberV::NegInf => NumberV::Rat { n: 0, d: 1 },
        NumberV::Rat { n, d } => if n == 0 {
            NumberV::PosInf
        } else if n > 0 {
            NumberV::Rat { n: d, d: n }
        } else {
            NumberV::Rat { n: -d, d: -n }
        },
    }
}

/// Floor: the greatest integer below a finite value; fixed on the rest.
pub open spec fn rat_floor(a: NumberV) -> NumberV {
    match a {
        NumberV::Rat { n, d } => NumberV::Rat { n: n / d, d: 1 },
        _ => a,
    }
}

/// Positive and finite: the one case printed as a raw byte.
pub open spec fn rat_is_pos(a: NumberV) -> bool {
    match a {
        NumberV::Rat { n, d } => n > 0,
        _ => false,
    }
}

/// The floor saturated into the signed machine integer range.
pub open spec fn rat_to_int(a: NumberV) -> int {
    match a {
        NumberV::Nan => 0,
        NumberV::PosInf => isize::MAX as int,
        NumberV::NegInf => isize::MIN as int,
        NumberV::Rat { n, d } => if n / d < isize::MIN as int {
            isize::MIN as int
        } else if n / d > isize::MAX as int {
            isize::MAX as int
        } else {
            n / d
        },
    }
}

/// Strictly below zero: a negative finite value or negative infinity.
pub open spec fn rat_is_neg(a: NumberV) -> bool {
    match a {
        NumberV::Rat { n, d } => n < 0,
        NumberV::NegInf => true,
        _ => false,
    }
}

/// The outcome of a comparison; undefined operands do not compare.
pub enum NumOrder {
    Less,
    Equal,
    Greater,
    Unordered,
}

/// Total comparison: undefined is unordered, infinities bound everything,
/// finite values compare by cross-multiplication.
pub open spec fn rat_cmp(a: NumberV, b: NumberV) -> NumOrder {
    match (a, b) {
        (NumberV::Nan, _) => NumOrder::Unordered,
        (_, NumberV::Nan) => NumOrder::Unordered,
        (NumberV::PosInf, NumberV::PosInf) => NumOrder::Equal,
        (NumberV::PosInf, _) => NumOrder::Greater,
        (_, NumberV::PosInf) => NumOrder::Less,
        (NumberV::NegInf, NumberV::NegInf) => NumOrder::Equal,
        (NumberV::NegInf, _) => NumOrder::Less,
        (_, NumberV::NegInf) => NumOrder::Greater,
        (NumberV::Rat { n: n1, d: d1 }, NumberV::Rat { n: n2, d: d2 }) => if n1 * d2 < n2 * d1 {
            NumOrder::Less
        } else if n1 * d2 == n2 * d1 {
            NumOrder::Equal
        } else {
            NumOrder::Greater
        },
    }
}

/// A positive second argument keeps the gcd positive.
pub proof fn lemma_gcd_pos(a: nat, b: nat)
    requires
        b >= 1,
    ensures
        gcd_nat(a, b) >= 1,
    decreases b,
{
    if a % b == 0 {
        assert(gcd_nat(a, b) == gcd_nat(b, 0));
    } else {
        lemma_gcd_pos(b, a % b);
    }
}

/// The gcd divides both of its arguments.
pub proof fn lemma_gcd_divides(a: nat, b: nat)
    requires
        b >= 1,
    ensures
        gcd_nat(a, b) >= 1,
        (a as int) % (gcd_nat(a, b) as int) == 0,
        (b as int) % (gcd_nat(a, b) as int) == 0,
    decreases b,
{
    lemma_gcd_pos(a, b);
    let g = gcd_nat(a, b) as int;
    if a % b == 0 {
        assert(gcd_nat(a, b) == gcd_nat(b, 0));
        assert(g == b);
        vstd::arithmetic::div_mod::lemma_fundamental_div_mod_converse(b as int, b as int, 1, 0);
    } else {
        lemma_gcd_divides(b, a % b);
        assert(gcd_nat(a, b) == gcd_nat(b, a % b));
        vstd::arithmetic::div_mod::lemma_fundamental_div_mod(a as int, b as int);
        let q = a as int / b as int;
        let r = (a % b) as int;
        assert((b as int) % g == 0);
        assert(r % g == 0);
        vstd::arithmetic::div_mod::lemma_fundamental_div_mod(b as int, g);
        vstd::arithmetic::div_mod::lemma_fundamental_div_mod(r, g);
        let bb = b as int / g;
        let rr = r / g;
        assert(a as int == (q * bb + rr) * g) by (nonlinear_arith)
            requires
                a as int == (b as int) * q + r,
                b as int == g * bb + 0,
                r == g * rr + 0,
        ;
        vstd::arithmetic::div_mod::lemma_fundamental_div_mod_converse(a as int, g, q * bb + rr, 0);
    }
}

/// The gcd scales with a common factor.
pub proof fn lemma_gcd_scale(k: nat, a: nat, b: nat)
    requires
        k >= 1,
        b >= 1,
    ensures
        gcd_nat(k * a, k * b) == k * gcd_nat(a, b),
    decreases b,
{
    vstd::arithmetic::div_mod::lemma_fundamental_div_mod(a as int, b as int);
    let q = a as int / b as int;
    let r = a % b;
    assert((k * a) as int == q * ((k * b) as int) + (k * r) as int) by (nonlinear_arith)
        requires
            a as int == (b as int) * q + r as int,
    ;
    assert(0 <= ((k * r) as int) && ((k * r) as int) < ((k * b) as int)) by (nonlinear_arith)
        requires
            k >= 1,
            0 <= r < b,
    ;
    vstd::arithmetic::div_mod::lemma_fundamental_div_mod_converse(
        (k * a) as int,
        (k * b) as int,
        q,
        (k * r) as int,
    );
    assert((k * a) % (k * b) == k * r);
    assert(gcd_nat(k * a, k * b) == gcd_nat(k * b, k * r));
    if r == 0 {
        assert(k * r == 0) by (nonlinear_arith)
            requires
                r == 0,
        ;
        assert(gcd_nat(k * b, 0) == k * b);
        assert(gcd_nat(a, b) == gcd_nat(b, 0));
    } else {
        lemma_gcd_scale(k, b, r);
        assert(gcd_nat(a, b) == gcd_nat(b, r));
    }
}

/// Dividing both arguments by their gcd leaves coprime parts.
pub proof fn lemma_coprime_div(a: nat, b: nat)
    requires
        b >= 1,
    ensures
        gcd_nat(a, b) >= 1,
        a as int == gcd_nat(a, b) as int * (a as int / gcd_nat(a, b) as int),
        b as int == gcd_nat(a, b) as int * (b as int / gcd_nat(a, b) as int),
        b as int / gcd_nat(a, b) as int >= 1,
        gcd_nat((a as int / gcd_nat(a, b) as int) as nat, (b as int / gcd_nat(a, b) as int) as nat)
            == 1,
{
    lemma_gcd_divides(a, b);
    let g = gcd_nat(a, b) as int;
    vstd::arithmetic::div_mod::lemma_fundamental_div_mod(a as int, g);
    vstd::arithmetic::div_mod::lemma_fundamental_div_mod(b as int, g);
    let aa = a as int / g;
    let bb = b as int / g;
    assert(a as int == g * aa);
    assert(b as int == g * bb);
    assert(aa >= 0 && bb >= 1) by (nonlinear_arith)
        requires
            a as int == g * aa,
            b as int == g * bb,
            a >= 0,
            b >= 1,
            g >= 1,
    ;
    lemma_gcd_scale(g as nat, aa as nat, bb as nat);
    assert((g as nat) * (aa as nat) == a && (g as nat) * (bb as nat) == b) by (nonlinear_arith)
        requires
            a as int == g * aa,
            b as int == g * bb,
            aa >= 0,
            bb >= 1,
            g >= 1,
    ;
    assert(gcd_nat(a, b) == (g as nat) * gcd_nat(aa as nat, bb as nat));
    assert(gcd_nat(aa as nat, bb as nat) == 1) by (nonlinear_arith)
        requires
            (g as nat) * gcd_nat(aa as nat, bb as nat) == g as nat,
            g >= 1,
    ;
}

/// The gcd is symmetric in its arguments.
pub proof fn lemma_gcd_sym(a: nat, b: nat)
    ensures
        gcd_nat(a, b) == gcd_nat(b, a),
{
    if a == 0 && b == 0 {
    } else if b == 0 {
        assert(0int % (a as int) == 0) by (nonlinear_arith)
            requires
                a >= 1,
        ;
        assert(gcd_nat(b, a) == gcd_nat(a, 0));
    } else if a == 0 {
        assert(0int % (b as int) == 0) by (nonlinear_arith)
            requires
                b >= 1,
        ;
        assert(gcd_nat(a, b) == gcd_nat(b, 0));
    } else if a < b {
        assert(a % b == a) by (nonlinear_arith)
            requires
                0 <= a < b,
        ;
        assert(gcd_nat(a, b) == gcd_nat(b, a));
    } else if b < a {
        assert(b % a == b) by (nonlinear_arith)
            requires
                0 <= b < a,
        ;
        assert(gcd_nat(b, a) == gcd_nat(a, b));
    } else {
        assert(a % b == 0) by (nonlinear_arith)
            requires
                a == b,
                b >= 1,
        ;
        assert(gcd_nat(a, b) == gcd_nat(b, 0));
        assert(gcd_nat(b, a) == gcd_nat(a, 0));
    }
}

/// Anything is coprime with one.
pub proof fn lemma_gcd_one(a: nat)
    ensures
        gcd_nat(a, 1) == 1,
{
    assert(a % 1 == 0) by (nonlinear_arith);
    assert(gcd_nat(a, 1) == gcd_nat(1, 0));
}

/// A fraction over one is already canonical.
pub proof fn lemma_norm_one(x: int)
    ensures
        rat_norm(x, 1) == (NumberV::Rat { n: x, d: 1 }),
{
    lemma_gcd_one(abs_int(x) as nat);
    vstd::arithmetic::div_mod::lemma_fundamental_div_mod_converse(x, 1, x, 0);
    vstd::arithmetic::div_mod::lemma_fundamental_div_mod_converse(1, 1, 1, 0);
}

impl Number {
    /// The canonical finite value for the fraction `nn / dd`.
    fn canon_new(nn: Num, dd: Num) -> (r: Number)
        requires
            nn.canon(),
            dd.canon(),
            dd@ >= 1,
        ensures
            r.wf(),
            r@ == rat_norm(nn@, dd@),
    {
        let g = Num::gcd(&nn, &dd);
        proof {
            lemma_coprime_div(abs_int(nn@) as nat, dd@ as nat);
            let gi = g@;
            let na = abs_int(nn@) / gi;
            assert(abs_int(nn@) == gi * na);
            if nn@ < 0 {
                assert(nn@ == (-na) * gi + 0) by (nonlinear_arith)
                    requires
                        abs_int(nn@) == gi * na,
                        nn@ == -abs_int(nn@),
                ;
                vstd::arithmetic::div_mod::lemma_fundamental_div_mod_converse(nn@, gi, -na, 0);
                assert(nn@ / gi == -na);
                assert(big_number::trunc_div(nn@, gi) == -na);
            } else {
                assert(big_number::trunc_div(nn@, gi) == nn@ / gi);
            }
            assert(big_number::trunc_div(dd@, gi) == dd@ / gi);
        }
        let n2 = Num::div(&nn, &g);
        let d2 = Num::div(&dd, &g);
        proof {
            let gi = g@;
            assert(abs_int(n2@) == abs_int(nn@) / gi);
        }
        Number::Finite { n: n2, d: d2 }
    }

    /// The undefined value.
    pub fn nan() -> (r: Number)
        ensures
            r.wf(),
            r@ == NumberV::Nan,
    {
        Number::Nan
    }

    /// Positive infinity.
    pub fn pos_inf() -> (r: Number)
        ensures
            r.wf(),
            r@ == NumberV::PosInf,
    {
        Number::PosInf
    }

    /// Negative infinity.
    pub fn neg_inf() -> (r: Number)
        ensures
            r.wf(),
            r@ == NumberV::NegInf,
    {
        Number::NegInf
    }

    /// The canonical zero, `0 / 1`.
    pub fn zero() -> (r: Number)
        ensures
            r.wf(),
            r@ == (NumberV::Rat { n: 0, d: 1 }),
    {
        proof {
            lemma_gcd_one(0);
        }
        Number::Finite { n: Num::zero(), d: Num::one() }
    }

    /// The canonical one, `1 / 1`.
    pub fn one() -> (r: Number)
        ensures
            r.wf(),
            r@ == (NumberV::Rat { n: 1, d: 1 }),
    {
        proof {
            lemma_gcd_one(1);
        }
        Number::Finite { n: Num::one(), d: Num::one() }
    }

    /// The integer `v` as a canonical fraction over one.
    pub fn from_int(v: isize) -> (r: Number)
        ensures
            r.wf(),
            r@ == (NumberV::Rat { n: v as int, d: 1 }),
    {
        let n = Num::new(v);
        proof {
            lemma_gcd_one(abs_int(n@) as nat);
        }
        Number::Finite { n, d: Num::one() }
    }

    /// The unsigned machine integer `u` as a canonical fraction over one.
    pub fn from_usize(u: usize) -> (r: Number)
        ensures
            r.wf(),
            r@ == (NumberV::Rat { n: u as int, d: 1 }),
    {
        let n = Num::from_u64(u as u64);
        proof {
            lemma_gcd_one(abs_int(n@) as nat);
        }
        Number::Finite { n, d: Num::one() }
    }

    /// Whether the value is strictly below zero.
    pub fn is_neg(&self) -> (r: bool)
        requires
            self.wf(),
        ensures
            r == rat_is_neg(self@),
    {
        match self {
            Number::NegInf => true,
            Number::Finite { n, d } => !n.is_pos(),
            _ => false,
        }
    }

    /// A structural copy.
    pub fn clone(&self) -> (r: Number)
        ensures
            r@ == self@,
            self.wf() ==> r.wf(),
    {
        match self {
            Number::Nan => Number::Nan,
            Number::PosInf => Number::PosInf,
            Number::NegInf => Number::NegInf,
            Number::Finite { n, d } => Number::Finite { n: n.clone(), d: d.clone() },
        }
    }

    /// The negation as a fresh value.
    pub fn neg(&self) -> (r: Number)
        requires
            self.wf(),
        ensures
            r.wf(),
            r@ == rat_neg(self@),
    {
        match self {
            Number::Nan => Number::Nan,
            Number::PosInf => Number::NegInf,
            Number::NegInf => Number::PosInf,
            Number::Finite { n, d } => {
                let z = Num::zero();
                Number::Finite { n: Num::sub(&z, n), d: d.clone() }
            },
        }
    }

    /// Negates in place.
    pub fn minus(&mut self)
        requires
            old(self).wf(),
        ensures
            final (self).wf(),
            final (self)@ == rat_neg(old(self)@),
    {
        let t = self.neg();
        *self = t;
    }

    /// The sum, with the non-finite rules of `rat_add`.
    pub fn add(&self, rhs: &Number) -> (r: Number)
        requires
            self.wf(),
            rhs.wf(),
        ensures
            r.wf(),
            r@ == rat_add(self@, rhs@),
    {
        match (self, rhs) {
            (Number::Nan, _) => Number::Nan,
            (_, Number::Nan) => Number::Nan,
            (Number::PosInf, Number::NegInf) => Number::Nan,
            (Number::NegInf, Number::PosInf) => Number::Nan,
            (Number::PosInf, _) => Number::PosInf,
            (_, Number::PosInf) => Number::PosInf,
            (Number::NegInf, _) => Number::NegInf,
            (_, Number::NegInf) => Number::NegInf,
            (Number::Finite { n: n1, d: d1 }, Number::Finite { n: n2, d: d2 }) => {
                let a = Num::mul(n1, d2);
                let b = Num::mul(n2, d1);
                let nn = Num::add(&a, &b);
                let dd = Num::mul(d1, d2);
                proof {
                    assert(dd@ >= 1) by (nonlinear_arith)
                        requires
                            dd@ == d1@ * d2@,
                            d1@ >= 1,
                            d2@ >= 1,
                    ;
                }
                Number::canon_new(nn, dd)
            },
        }
    }

    /// The difference: the sum with the negated right operand.
    pub fn sub(&self, rhs: &Number) -> (r: Number)
        requires
            self.wf(),
            rhs.wf(),
        ensures
            r.wf(),
            r@ == rat_sub(self@, rhs@),
    {
        let t = rhs.neg();
        self.add(&t)
    }

    /// The product, with the non-finite rules of `rat_mul`.
    pub fn mul(&self, rhs: &Number) -> (r: Number)
        requires
            self.wf(),
            rhs.wf(),
        ensures
            r.wf(),
            r@ == rat_mul(self@, rhs@),
    {
        match (self, rhs) {
            (Number::Nan, _) => Number::Nan,
            (_, Number::Nan) => Number::Nan,
            (Number::PosInf, Number::PosInf) => Number::PosInf,
            (Number::PosInf, Number::NegInf) => Number::NegInf,
            (Number::NegInf, Number::PosInf) => Number::NegInf,
            (Number::NegInf, Number::NegInf) => Number::PosInf,
            (Number::PosInf, Number::Finite { n, d }) => {
                if n.is_zero() {
                    Number::Nan
                } else if n.is_pos() {
                    Number::PosInf
                } else {
                    Number::NegInf
                }
            },
            (Number::Finite { n, d }, Number::PosInf) => {
                if n.is_zero() {
                    Number::Nan
                } else if n.is_pos() {
                    Number::PosInf
                } else {
                    Number::NegInf
                }
            },
            (Number::NegInf, Number::Finite { n, d }) => {
                if n.is_zero() {
                    Number::Nan
                } else if n.is_pos() {
                    Number::NegInf
                } else {
                    Number::PosInf
                }
            },
            (Number::Finite { n, d }, Number::NegInf) => {
                if n.is_zero() {
                    Number::Nan
                } else if n.is_pos() {
                    Number::NegInf
                } else {
                    Number::PosInf
                }
            },
            (Number::Finite { n: n1, d: d1 }, Number::Finite { n: n2, d: d2 }) => {
                let nn = Num::mul(n1, n2);
                let dd = Num::mul(d1, d2);
                proof {
                    assert(dd@ >= 1) by (nonlinear_arith)
                        requires
                            dd@ == d1@ * d2@,
                            d1@ >= 1,
                            d2@ >= 1,
                    ;
                }
                Number::canon_new(nn, dd)
            },
        }
    }

    /// The quotient, with the non-finite rules of `rat_div`.
    pub fn div(&self, rhs: &Number) -> (r: Number)
        requires
            self.wf(),
            rhs.wf(),
        ensures
            r.wf(),
            r@ == rat_div(self@, rhs@),
    {
        match (self, rhs) {
            (Number::Nan, _) => Number::Nan,
            (_, Number::Nan) => Number::Nan,
            (Number::PosInf, Number::PosInf) => Number::Nan,
            (Number::PosInf, Number::NegInf) => Number::Nan,
            (Number::NegInf, Number::PosInf) => Number::Nan,
            (Number::NegInf, Number::NegInf) => Number::Nan,
            (Number::PosInf, Number::Finite { n, d }) => {
                if n.is_pos() || n.is_zero() {
                    Number::PosInf
                } else {
                    Number::NegInf
                }
            },
            (Number::NegInf, Number::Finite { n, d }) => {
                if n.is_pos() || n.is_zero() {
                    Number::NegInf
                } else {
                    Number::PosInf
                }
            },
            (Number::Finite { n, d }, Number::PosInf) => Number::zero(),
            (Number::Finite { n, d }, Number::NegInf) => Number::zero(),
            (Number::Finite { n: n1, d: d1 }, Number::Finite { n: n2, d: d2 }) => {
                if n2.is_zero() {
                    if n1.is_zero() {
                        Number::Nan
                    } else if n1.is_pos() {
                        Number::PosInf
                    } else {
                        Number::NegInf
                    }
                } else {
                    let nn = Num::mul(n1, d2);
                    let dd = Num::mul(d1, n2);
                    if n2.is_pos() {
                        proof {
                            assert(dd@ >= 1) by (nonlinear_arith)
                                requires
                                    dd@ == d1@ * n2@,
                                    d1@ >= 1,
                                    n2@ >= 1,
                            ;
                        }
                        Number::canon_new(nn, dd)
                    } else {
                        let z = Num::zero();
                        let nn2 = Num::sub(&z, &nn);
                        let dd2 = Num::sub(&z, &dd);
                        proof {
                            assert(dd2@ >= 1) by (nonlinear_arith)
                                requires
                                    dd2@ == -(d1@ * n2@),
                                    d1@ >= 1,
                                    n2@ <= -1,
                            ;
                        }
                        Number::canon_new(nn2, dd2)
                    }
                }
            },
        }
    }

    /// The reciprocal, with the non-finite rules of `rat_flip`.
    pub fn flip(&self) -> (r: Number)
        requires
            self.wf(),
        ensures
            r.wf(),
            r@ == rat_flip(self@),
    {
        match self {
            Number::Nan => Number::Nan,
            Number::PosInf => Number::zero(),
            Number::NegInf => Number::zero(),
            Number::Finite { n, d } => {
                if n.is_zero() {
                    Number::PosInf
                } else if n.is_pos() {
                    proof {
                        lemma_gcd_sym(abs_int(n@) as nat, d@ as nat);
                    }
                    Number::Finite { n: d.clone(), d: n.clone() }
                } else {
                    let z = Num::zero();
                    let nd = Num::sub(&z, d);
                    let dn = Num::abs_of(n);
                    proof {
                        lemma_gcd_sym(abs_int(n@) as nat, d@ as nat);
                        assert(abs_int(nd@) == d@);
                        assert(dn@ == abs_int(n@));
                    }
                    Number::Finite { n: nd, d: dn }
                }
            },
        }
    }

    /// The floor: the greatest integer not above a finite value.
    pub fn floor(&self) -> (r: Number)
        requires
            self.wf(),
        ensures
            r.wf(),
            r@ == rat_floor(self@),
    {
        match self {
            Number::Nan => Number::Nan,
            Number::PosInf => Number::PosInf,
            Number::NegInf => Number::NegInf,
            Number::Finite { n, d } => {
                let q = Num::div(n, d);
                let m = Num::mul(&q, d);
                let rmv = Num::sub(n, &m);
                let qq = if !n.is_pos() && !rmv.is_zero() {
                    proof {
                        lemma_trunc_to_floor(n@, d@);
                    }
                    Num::sub(&q, &Num::one())
                } else {
                    proof {
                        if n@ >= 0 {
                            vstd::arithmetic::div_mod::lemma_fundamental_div_mod(n@, d@);
                            vstd::arithmetic::div_mod::lemma_fundamental_div_mod_converse(
                                n@,
                                d@,
                                big_number::trunc_div(n@, d@),
                                n@ - big_number::trunc_div(n@, d@) * d@,
                            );
                        } else {
                            vstd::arithmetic::div_mod::lemma_fundamental_div_mod_converse(
                                n@,
                                d@,
                                big_number::trunc_div(n@, d@),
                                0,
                            );
                        }
                    }
                    q
                };
                proof {
                    lemma_gcd_one(abs_int(qq@) as nat);
                }
                Number::Finite { n: qq, d: Num::one() }
            },
        }
    }

    /// Whether the value is finite and strictly positive.
    pub fn is_pos(&self) -> (r: bool)
        requires
            self.wf(),
        ensures
            r == rat_is_pos(self@),
    {
        match self {
            Number::Finite { n, d } => n.is_pos() && !n.is_zero(),
            _ => false,
        }
    }

    /// Whether the value is finite zero.
    pub fn is_zero(&self) -> (r: bool)
        requires
            self.wf(),
        ensures
            r == (self@ == (NumberV::Rat { n: 0, d: 1 })),
    {
        match self {
            Number::Finite { n, d } => {
                proof {
                    if n@ == 0 {
                        assert(gcd_nat(0, d@ as nat) == gcd_nat(d@ as nat, 0));
                        assert(d@ == 1);
                    }
                }
                n.is_zero()
            },
            _ => false,
        }
    }

    /// Whether the value is undefined.
    pub fn is_nan(&self) -> (r: bool)
        ensures
            r == (self@ == NumberV::Nan),
    {
        match self {
            Number::Nan => true,
            _ => false,
        }
    }

    /// The floor saturated into the signed machine integer range; the
    /// undefined value maps to zero, the infinities to the two ends.
    pub fn to_int(&self) -> (r: isize)
        requires
            self.wf(),
        ensures
            r as int == rat_to_int(self@),
    {
        match self {
            Number::Nan => 0,
            Number::PosInf => isize::MAX,
            Number::NegInf => isize::MIN,
            Number::Finite { n, d } => {
                let fl = self.floor();
                match fl {
                    Number::Finite { n: q, d: _one } => q.to_isize_sat(),
                    _ => {
                        proof {
                            assert(false);
                        }
                        0
                    },
                }
            },
        }
    }

    /// Total comparison of two values.
    pub fn cmp(&self, rhs: &Number) -> (r: NumOrder)
        requires
            self.wf(),
            rhs.wf(),
        ensures
            r == rat_cmp(self@, rhs@),
    {
        match (self, rhs) {
            (Number::Nan, _) => NumOrder::Unordered,
            (_, Number::Nan) => NumOrder::Unordered,
            (Number::PosInf, Number::PosInf) => NumOrder::Equal,
            (Number::PosInf, _) => NumOrder::Greater,
            (_, Number::PosInf) => NumOrder::Less,
            (Number::NegInf, Number::NegInf) => NumOrder::Equal,
            (Number::NegInf, _) => NumOrder::Less,
            (_, Number::NegInf) => NumOrder::Greater,
            (Number::Finite { n: n1, d: d1 }, Number::Finite { n: n2, d: d2 }) => {
                let c1 = Num::mul(n1, d2);
                let c2 = Num::mul(n2, d1);
                if Num::lt(&c1, &c2) {
                    NumOrder::Less
                } else if Num::lt(&c2, &c1) {
                    NumOrder::Greater
                } else {
                    NumOrder::Equal
                }
            },
        }
    }
}

/// For a negative, inexact dividend, the floor is one below the
/// truncated quotient.
proof fn lemma_trunc_to_floor(n: int, d: int)
    requires
        d >= 1,
        n < 0,
        n - big_number::trunc_div(n, d) * d != 0,
    ensures
        n / d == big_number::trunc_div(n, d) - 1,
{
    let a = -n;
    vstd::arithmetic::div_mod::lemma_fundamental_div_mod(a, d);
    let q = a / d;
    let s = a % d;
    assert(a == d * q + s);
    assert(big_number::trunc_div(n, d) == -q);
    assert(s != 0) by (nonlinear_arith)
        requires
            a == d * q + s,
            n == -a,
            n - (-q) * d != 0,
    ;
    assert(n == (-q - 1) * d + (d - s)) by (nonlinear_arith)
        requires
            a == d * q + s,
            n == -a,
    ;
    vstd::arithmetic::div_mod::lemma_fundamental_div_mod_converse(n, d, -q - 1, d - s);
}

/// Flipping a finite nonzero value twice gives it back.
pub proof fn lemma_flip_flip(x: Number)
    requires
        x.wf(),
        x@ matches NumberV::Rat { n, d } && n != 0,
    ensures
        rat_flip(rat_flip(x@)) == x@,
{
}

/// A finite value plus its negation is the canonical zero.
pub proof fn lemma_add_neg_zero(x: Number)
    requires
        x.wf(),
        x@ matches NumberV::Rat { .. },
    ensures
        rat_add(x@, rat_neg(x@)) == (NumberV::Rat { n: 0, d: 1 }),
{
    let v = x@;
    match v {
        NumberV::Rat { n, d } => {
            assert(n * d + (-n) * d == 0) by (nonlinear_arith);
            assert(d * d >= 1) by (nonlinear_arith)
                requires
                    d >= 1,
            ;
            let dd = d * d;
            assert(rat_add(v, rat_neg(v)) == rat_norm(0, dd));
            assert(0int % dd == 0) by (nonlinear_arith)
                requires
                    dd >= 1,
            ;
            assert(gcd_nat(abs_int(0) as nat, dd as nat) == gcd_nat(dd as nat, 0));
            assert(gcd_nat(0, dd as nat) == dd as nat) by {
                assert((0nat % (dd as nat)) == 0);
                assert(gcd_nat(0, dd as nat) == gcd_nat(dd as nat, 0nat % (dd as nat)));
            }
            vstd::arithmetic::div_mod::lemma_fundamental_div_mod_converse(dd, dd, 1, 0);
            vstd::arithmetic::div_mod::lemma_fundamental_div_mod_converse(0, dd, 0, 0);
            assert(rat_norm(0, dd) == (NumberV::Rat { n: 0, d: 1 }));
        },
        _ => {},
    }
}

/// Subtracting an infinity from itself is undefined.
pub proof fn lemma_inf_sub_nan()
    ensures
        rat_sub(NumberV::PosInf, NumberV::PosInf) == NumberV::Nan,
        rat_sub(NumberV::NegInf, NumberV::NegInf) == NumberV::Nan,
{
}

} // verus!
