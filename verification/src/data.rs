//! The unified real/complex value of the numeric tower.  A value is either a
//! real double or a complex pair of doubles, each carried as its 64-bit
//! pattern.  Arithmetic consumes operands by value and never mutates; mixed
//! real/complex operands are combined by the standard complex formulas,
//! treating a real operand as a complex value with zero imaginary part.

use vstd::prelude::*;
use crate::scalar::{
    abs_bits, add_bits, is_nan_bits, cos_bits, div_bits, eq_bits, exp_bits, mul_bits, neg_bits, pow_bits,
    sin_bits, sqrt_bits, sub_bits, scalar_abs, scalar_add, scalar_cos, scalar_div, scalar_eq,
    scalar_exp, scalar_mul, scalar_neg, scalar_pow, scalar_sin, scalar_sqrt, scalar_sub,
    ZERO_BITS,
};

verus! {

/// A value of the tower: a real double or a complex pair, by bit pattern.
#[derive(Clone, Copy, PartialEq, Eq, Structural, Debug)]
pub enum Data {
    Double(u64),
    Complex(u64, u64),
}

impl Data {
    /// The real component: the value itself for a real, the first field
    /// for a complex value.
    pub open spec fn spec_real(self) -> u64 {
        match self {
            Data::Double(d) => d,
            Data::Complex(r, _) => r,
        }
    }

    /// The imaginary component, for complex values only.
    pub open spec fn spec_im(self) -> Option<u64> {
        match self {
            Data::Double(_) => None::<u64>,
            Data::Complex(_, c) => Some(c),
        }
    }

    /// The magnitude as a bit pattern: `|x|` for a real value,
    /// `sqrt(re^2 + im^2)` for a complex one.
    pub open spec fn spec_abs_bits(self) -> u64 {
        match self {
            Data::Double(d) => abs_bits(d),
            Data::Complex(r, c) => sqrt_bits(add_bits(mul_bits(r, r), mul_bits(c, c))),
        }
    }

    /// The sum: reals add plainly; a real meets a complex value
    /// component-wise, contributing zero to the imaginary part.
    pub open spec fn spec_add(self, rhs: Data) -> Data {
        match (self, rhs) {
            (Data::Double(sd), Data::Double(od)) => Data::Double(add_bits(sd, od)),
            (Data::Double(sd), Data::Complex(or, oc)) => Data::Complex(add_bits(sd, or), oc),
            (Data::Complex(sr, sc), Data::Double(od)) => Data::Complex(add_bits(sr, od), sc),
            (Data::Complex(sr, sc), Data::Complex(or, oc)) => Data::Complex(
                add_bits(sr, or),
                add_bits(sc, oc),
            ),
        }
    }

    /// The difference, component-wise; subtracting a complex value from a
    /// real negates its imaginary part.
    pub open spec fn spec_sub(self, rhs: Data) -> Data {
        match (self, rhs) {
            (Data::Double(sd), Data::Double(od)) => Data::Double(sub_bits(sd, od)),
            (Data::Double(sd), Data::Complex(or, oc)) => Data::Complex(
                sub_bits(sd, or),
                neg_bits(oc),
            ),
            (Data::Complex(sr, sc), Data::Double(od)) => Data::Complex(sub_bits(sr, od), sc),
            (Data::Complex(sr, sc), Data::Complex(or, oc)) => Data::Complex(
                sub_bits(sr, or),
                sub_bits(sc, oc),
            ),
        }
    }

    /// The product: reals multiply plainly; a real factor scales both
    /// components of a complex one; two complex values follow
    /// `(a+bi)(c+di) = (ac-bd) + (ad+bc)i`.
    pub open spec fn spec_mul(self, rhs: Data) -> Data {
        match (self, rhs) {
            (Data::Double(sd), Data::Double(od)) => Data::Double(mul_bits(sd, od)),
            (Data::Double(sd), Data::Complex(or, oc)) => Data::Complex(
                mul_bits(sd, or),
                mul_bits(sd, oc),
            ),
            (Data::Complex(sr, sc), Data::Double(od)) => Data::Complex(
                mul_bits(sr, od),
                mul_bits(sc, od),
            ),
            (Data::Complex(sr, sc), Data::Complex(or, oc)) => Data::Complex(
                sub_bits(mul_bits(sr, or), mul_bits(sc, oc)),
                add_bits(mul_bits(sr, oc), mul_bits(sc, or)),
            ),
        }
    }

    /// The quotient: reals divide plainly; otherwise both operands are taken
    /// as complex and `a/c = a·conj(c) / |c|^2` is applied:
    /// `(a+bi)/(c+di) = ((ac+bd) + (bc-ad)i) / (c^2+d^2)`.
    pub open spec fn spec_div(self, rhs: Data) -> Data {
        match (self, rhs) {
            (Data::Double(sd), Data::Double(od)) => Data::Double(div_bits(sd, od)),
            _ => {
                let a = self.spec_real();
                let b = if self is Double { ZERO_BITS } else { self->Complex_1 };
                let c = rhs.spec_real();
                let d = if rhs is Double { ZERO_BITS } else { rhs->Complex_1 };
                let den = add_bits(mul_bits(c, c), mul_bits(d, d));
                Data::Complex(
                    div_bits(add_bits(mul_bits(a, c), mul_bits(b, d)), den),
                    div_bits(sub_bits(mul_bits(b, c), mul_bits(a, d)), den),
                )
            },
        }
    }

    /// The power: the real parts of base and exponent alone decide, and the
    /// result is always real.
    pub open spec fn spec_pow(self, rhs: Data) -> Data {
        Data::Double(pow_bits(self.spec_real(), rhs.spec_real()))
    }

    /// The exponential: real for a real operand; for `Complex(r, i)`,
    /// Euler's formula `(exp(r)·cos(i), exp(r)·sin(i))`.
    pub open spec fn spec_exp(self) -> Data {
        match self {
            Data::Double(d) => Data::Double(exp_bits(d)),
            Data::Complex(r, i) => Data::Complex(
                mul_bits(exp_bits(r), cos_bits(i)),
                mul_bits(exp_bits(r), sin_bits(i)),
            ),
        }
    }

    /// The sine, defined for real operands only.
    pub open spec fn spec_sin(self) -> Option<Data> {
        match self {
            Data::Double(d) => Some(Data::Double(sin_bits(d))),
            Data::Complex(_, _) => None::<Data>,
        }
    }

    /// The cosine, defined for real operands only.
    pub open spec fn spec_cos(self) -> Option<Data> {
        match self {
            Data::Double(d) => Some(Data::Double(cos_bits(d))),
            Data::Complex(_, _) => None::<Data>,
        }
    }

    /// The real component of the value.
    pub fn real_part(&self) -> (r: u64)
        ensures
            r == self.spec_real(),
    {
        match self {
            Data::Double(d) => *d,
            Data::Complex(r, _) => *r,
        }
    }

    /// The imaginary component: `None` for a real value.
    pub fn im(&self) -> (r: Option<u64>)
        ensures
            r == self.spec_im(),
    {
        match self {
            Data::Double(_) => None,
            Data::Complex(_, c) => Some(*c),
        }
    }

    /// The magnitude, as a real value.
    pub fn abs(&self) -> (r: Data)
        ensures
            r == Data::Double(self.spec_abs_bits()),
    {
        Data::Double(self.abs_as_bits())
    }

    /// The magnitude, as a bare bit pattern.
    pub fn abs_as_bits(&self) -> (r: u64)
        ensures
            r == self.spec_abs_bits(),
    {
        match self {
            Data::Double(d) => scalar_abs(*d),
            Data::Complex(r, c) => scalar_sqrt(
                scalar_add(scalar_mul(*r, *r), scalar_mul(*c, *c)),
            ),
        }
    }

    /// Adds two values, as `spec_add` states; the sum of two non-NaN
    /// reals does not depend on the operand order.
    pub fn add(self, rhs: Data) -> (r: Data)
        ensures
            r == self.spec_add(rhs),
            self is Double && rhs is Double && !is_nan_bits(self->Double_0) && !is_nan_bits(
                rhs->Double_0,
            ) ==> r == rhs.spec_add(self),
    {
        match (self, rhs) {
            (Data::Double(sd), Data::Double(od)) => Data::Double(scalar_add(sd, od)),
            (Data::Double(sd), Data::Complex(or, oc)) => Data::Complex(scalar_add(sd, or), oc),
            (Data::Complex(sr, sc), Data::Double(od)) => Data::Complex(scalar_add(sr, od), sc),
            (Data::Complex(sr, sc), Data::Complex(or, oc)) => Data::Complex(
                scalar_add(sr, or),
                scalar_add(sc, oc),
            ),
        }
    }

    /// Subtracts `rhs`, as `spec_sub` states.
    pub fn sub(self, rhs: Data) -> (r: Data)
        ensures
            r == self.spec_sub(rhs),
    {
        match (self, rhs) {
            (Data::Double(sd), Data::Double(od)) => Data::Double(scalar_sub(sd, od)),
            (Data::Double(sd), Data::Complex(or, oc)) => Data::Complex(
                scalar_sub(sd, or),
                scalar_neg(oc),
            ),
            (Data::Complex(sr, sc), Data::Double(od)) => Data::Complex(scalar_sub(sr, od), sc),
            (Data::Complex(sr, sc), Data::Complex(or, oc)) => Data::Complex(
                scalar_sub(sr, or),
                scalar_sub(sc, oc),
            ),
        }
    }

    /// Multiplies two values, as `spec_mul` states.
    pub fn mul(self, rhs: Data) -> (r: Data)
        ensures
            r == self.spec_mul(rhs),
    {
        match (self, rhs) {
            (Data::Double(sd), Data::Double(od)) => Data::Double(scalar_mul(sd, od)),
            (Data::Double(sd), Data::Complex(or, oc)) => Data::Complex(
                scalar_mul(sd, or),
                scalar_mul(sd, oc),
            ),
            (Data::Complex(sr, sc), Data::Double(od)) => Data::Complex(
                scalar_mul(sr, od),
                scalar_mul(sc, od),
            ),
            (Data::Complex(sr, sc), Data::Complex(or, oc)) => Data::Complex(
                scalar_sub(scalar_mul(sr, or), scalar_mul(sc, oc)),
                scalar_add(scalar_mul(sr, oc), scalar_mul(sc, or)),
            ),
        }
    }

    /// Divides by `rhs`, as `spec_div` states.
    pub fn div(self, rhs: Data) -> (r: Data)
        ensures
            r == self.spec_div(rhs),
    {
        match (self, rhs) {
            (Data::Double(sd), Data::Double(od)) => Data::Double(scalar_div(sd, od)),
            _ => {
                let a = self.real_part();
                let b = match self {
                    Data::Double(_) => ZERO_BITS,
                    Data::Complex(_, c) => c,
                };
                let c = rhs.real_part();
                let d = match rhs {
                    Data::Double(_) => ZERO_BITS,
                    Data::Complex(_, i) => i,
                };
                let den = scalar_add(scalar_mul(c, c), scalar_mul(d, d));
                Data::Complex(
                    scalar_div(scalar_add(scalar_mul(a, c), scalar_mul(b, d)), den),
                    scalar_div(scalar_sub(scalar_mul(b, c), scalar_mul(a, d)), den),
                )
            },
        }
    }

    /// Raises to a power, as `spec_pow` states.
    pub fn pow(&self, rhs: Data) -> (r: Data)
        ensures
            r == self.spec_pow(rhs),
    {
        Data::Double(scalar_pow(self.real_part(), rhs.real_part()))
    }

    /// The exponential, as `spec_exp` states.
    pub fn exp(&self) -> (r: Data)
        ensures
            r == self.spec_exp(),
    {
        match self {
            Data::Double(d) => Data::Double(scalar_exp(*d)),
            Data::Complex(r, i) => {
                let er = scalar_exp(*r);
                Data::Complex(scalar_mul(er, scalar_cos(*i)), scalar_mul(er, scalar_sin(*i)))
            },
        }
    }

    /// The sine, as `spec_sin` states: `None` for a complex operand.
    pub fn sin(&self) -> (r: Option<Data>)
        ensures
            r == self.spec_sin(),
    {
        match self {
            Data::Double(d) => Some(Data::Double(scalar_sin(*d))),
            Data::Complex(_, _) => None,
        }
    }

    /// The cosine, as `spec_cos` states: `None` for a complex operand.
    pub fn cos(&self) -> (r: Option<Data>)
        ensures
            r == self.spec_cos(),
    {
        match self {
            Data::Double(d) => Some(Data::Double(scalar_cos(*d))),
            Data::Complex(_, _) => None,
        }
    }

    /// The fold of `spec_add` over a sequence, from `Complex(0, 0)`.
    pub open spec fn spec_fold_sum(items: Seq<Data>) -> Data
        decreases items.len(),
    {
        if items.len() == 0 {
            Data::Complex(ZERO_BITS, ZERO_BITS)
        } else {
            Data::spec_fold_sum(items.drop_last()).spec_add(items.last())
        }
    }

    /// The tower-level sum: the fold collapses to a real value when its
    /// imaginary part equals zero.
    pub open spec fn spec_sum(items: Seq<Data>) -> Data {
        let folded = Data::spec_fold_sum(items);
        if eq_bits(folded->Complex_1, ZERO_BITS) {
            Data::Double(folded->Complex_0)
        } else {
            folded
        }
    }

    /// The fold of a sum is always a complex value: it starts from one and
    /// `spec_add` keeps a complex left operand complex.
    proof fn lemma_fold_sum_complex(items: Seq<Data>)
        ensures
            Data::spec_fold_sum(items) is Complex,
        decreases items.len(),
    {
        if items.len() > 0 {
            Data::lemma_fold_sum_complex(items.drop_last());
        }
    }

    /// Sums a sequence of values with `add`, starting from `Complex(0, 0)`,
    /// and collapses an exactly-zero imaginary part to a real result.
    pub fn sum(items: &Vec<Data>) -> (r: Data)
        ensures
            r == Data::spec_sum(items@),
    {
        let mut acc = Data::Complex(ZERO_BITS, ZERO_BITS);
        let mut i: usize = 0;
        while i < items.len()
            invariant
                0 <= i <= items@.len(),
            acc == Data::spec_fold_sum(items@.take(i as int)),
            decreases items@.len() - i,
        {
            acc = acc.add(items[i]);
            proof {
                assert(items@.take(i + 1 as int).drop_last() =~= items@.take(i as int));
            }
            i += 1;
        }
        proof {
            assert(items@.take(items@.len() as int) =~= items@);
            Data::lemma_fold_sum_complex(items@);
        }
        match acc {
            Data::Complex(re, im) => {
                if scalar_eq(im, ZERO_BITS) {
                    Data::Double(re)
                } else {
                    acc
                }
            },
            Data::Double(_) => acc,
        }
    }
}

} // verus!
