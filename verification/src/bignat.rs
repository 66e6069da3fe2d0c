use vstd::prelude::*;

verus! {

/// 10 raised to the power `n`.
pub open spec fn pow10(n: nat) -> nat
    decreases n,
{
    if n == 0 {
        1
    } else {
        10 * pow10((n - 1) as nat)
    }
}

/// The number denoted by a sequence of decimal digits, least significant
/// digit first.
pub open spec fn digits_val(s: Seq<u8>) -> nat
    decreases s.len(),
{
    if s.len() == 0 {
        0
    } else {
        s[0] as nat + 10 * digits_val(s.drop_first())
    }
}

/// A digit sequence is canonical when every digit is below ten and the
/// most significant digit (the last one) is not zero.
pub open spec fn digits_wf(s: Seq<u8>) -> bool {
    &&& forall|i: int| 0 <= i < s.len() ==> s[i] < 10
    &&& (s.len() > 0 ==> s[s.len() - 1] != 0)
}

/// Appending a most-significant digit adds its value scaled by the weight
/// of its position.
pub proof fn lemma_val_push(s: Seq<u8>, d: u8)
    ensures
        digits_val(s.push(d)) == digits_val(s) + d * pow10(s.len()),
    decreases s.len(),
{
    if s.len() == 0 {
        assert(s.push(d).drop_first() =~= Seq::<u8>::empty());
        assert(digits_val(Seq::<u8>::empty()) == 0);
        assert(digits_val(s.push(d)) == d as nat + 10 * digits_val(Seq::<u8>::empty()));
        assert(digits_val(s) == 0);
        assert(pow10(s.len()) == 1);
        assert(d * pow10(s.len()) == d);
    } else {
        let t = s.drop_first();
        assert(s.push(d).drop_first() =~= t.push(d));
        lemma_val_push(t, d);
        assert(digits_val(s.push(d)) == s[0] as nat + 10 * digits_val(t.push(d)));
        assert(digits_val(s) == s[0] as nat + 10 * digits_val(t));
        assert(pow10(s.len()) == 10 * pow10(t.len()));
        let vt: nat = digits_val(t);
        let pt: nat = pow10(t.len());
        assert(10 * (vt + d * pt) == 10 * vt + d * (10 * pt)) by (nonlinear_arith);
        assert(digits_val(s.push(d)) == s[0] as nat + 10 * vt + d * (10 * pt));
        assert(d * pow10(s.len()) == d * (10 * pt));
    }
}

/// An arbitrary-precision natural number, stored as its decimal digits,
/// least significant digit first. Zero is the empty digit sequence.
pub struct BigNat {
    pub digits: Vec<u8>,
}

impl View for BigNat {
    type V = nat;

    open spec fn view(&self) -> nat {
        digits_val(self.digits@)
    }
}

impl BigNat {
    /// The stored digits are canonical.
    pub open spec fn wf(&self) -> bool {
        digits_wf(self.digits@)
    }

    pub fn zero() -> (r: BigNat)
        ensures
            r.wf(),
            r@ == 0,
    {
        BigNat { digits: Vec::new() }
    }

    /// The number with the given machine-word value.
    pub fn from_u64(v: u64) -> (r: BigNat)
        ensures
            r.wf(),
            r@ == v,
    {
        let mut digits: Vec<u8> = Vec::new();
        let mut rest: u64 = v;
        proof {
            assert(digits@ =~= Seq::<u8>::empty());
            assert(digits_val(digits@) == 0);
            assert(pow10(0) == 1);
            assert(rest * pow10(digits@.len()) == v);
        }
        while rest > 0
            invariant
                digits_val(digits@) + rest * pow10(digits@.len()) == v,
                forall|i: int| 0 <= i < digits@.len() ==> digits@[i] < 10,
                rest == 0 ==> (digits@.len() == 0 || digits@[digits@.len() - 1] != 0),
            decreases rest,
        {
            let d: u8 = (rest % 10) as u8;
            let rest2: u64 = rest / 10;
            proof {
                let vo: nat = digits_val(digits@);
                let p: nat = pow10(digits@.len());
                let dd: nat = d as nat;
                let c2: nat = rest2 as nat;
                assert(dd + 10 * c2 == rest as nat);
                lemma_val_push(digits@, d);
                assert(digits_val(digits@.push(d)) == vo + dd * p);
                assert(pow10(digits@.len() + 1) == 10 * p);
                assert(vo + dd * p + c2 * (10 * p) == vo + (rest as nat) * p) by (nonlinear_arith)
                    requires
                        dd + 10 * c2 == rest as nat,
                ;
                assert(rest2 == 0 ==> d != 0);
            }
            digits.push(d);
            rest = rest2;
        }
        proof {
            assert(rest * pow10(digits@.len()) == 0);
        }
        BigNat { digits }
    }

    /// An exact copy.
    pub fn duplicate(&self) -> (r: BigNat)
        ensures
            r.digits@ == self.digits@,
    {
        let mut digits: Vec<u8> = Vec::new();
        let mut i: usize = 0;
        while i < self.digits.len()
            invariant
                i <= self.digits@.len(),
                digits@ =~= self.digits@.take(i as int),
            decreases self.digits@.len() - i,
        {
            digits.push(self.digits[i]);
            proof {
                assert(digits@ =~= self.digits@.take(i + 1));
            }
            i = i + 1;
        }
        proof {
            assert(self.digits@.take(self.digits@.len() as int) =~= self.digits@);
        }
        BigNat { digits }
    }

    /// Structural equality of the digit sequences; on canonical numbers this
    /// coincides with equality of the denoted values.
    pub fn equals(&self, other: &BigNat) -> (r: bool)
        ensures
            r <==> self.digits@ == other.digits@,
    {
        if self.digits.len() != other.digits.len() {
            return false;
        }
        let mut i: usize = 0;
        while i < self.digits.len()
            invariant
                self.digits@.len() == other.digits@.len(),
                i <= self.digits@.len(),
                forall|j: int| 0 <= j < i ==> self.digits@[j] == other.digits@[j],
            decreases self.digits@.len() - i,
        {
            if self.digits[i] != other.digits[i] {
                return false;
            }
            i = i + 1;
        }
        proof {
            assert(self.digits@ =~= other.digits@);
        }
        true
    }

    /// The product of this number and a machine-word factor.
    pub fn mul_u64(&self, m: u64) -> (r: BigNat)
        requires
            self.wf(),
        ensures
            r.wf(),
            r@ == self@ * m,
    {
        if m == 0 || self.digits.len() == 0 {
            proof {
                assert(self@ * m == 0) by (nonlinear_arith)
                    requires
                        m == 0 || self@ == 0,
                ;
            }
            return BigNat::zero();
        }
        let mut out: Vec<u8> = Vec::new();
        let mut carry: u128 = 0;
        let mut i: usize = 0;
        proof {
            assert(self.digits@.take(0) =~= Seq::<u8>::empty());
            assert(digits_val(Seq::<u8>::empty()) == 0);
            assert(digits_val(self.digits@.take(0)) * m == 0) by (nonlinear_arith)
                requires
                    digits_val(self.digits@.take(0)) == 0,
            ;
            assert(out@ =~= Seq::<u8>::empty());
            assert(pow10(0) == 1);
        }
        while i < self.digits.len()
            invariant
                1 <= m,
                i <= self.digits@.len(),
                out@.len() == i,
                carry <= m,
                forall|j: int| 0 <= j < out@.len() ==> out@[j] < 10,
                digits_val(out@) + carry * pow10(i as nat)
                    == digits_val(self.digits@.take(i as int)) * m,
                i > 0 ==> out@[i - 1] as nat + 10 * (carry as nat)
                    >= self.digits@[i - 1] as nat * m,
            decreases self.digits@.len() - i,
        {
            let d: u8 = self.digits[i];
            proof {
                assert((d as nat) * (m as nat) <= 9 * (m as nat)) by (nonlinear_arith)
                    requires
                        d <= 9,
                ;
            }
            let prod: u128 = (d as u128) * (m as u128) + carry;
            let lo: u8 = (prod % 10) as u8;
            let carry2: u128 = prod / 10;
            proof {
                let vo: nat = digits_val(out@);
                let p: nat = pow10(i as nat);
                let pi1: nat = pow10((i + 1) as nat);
                let va: nat = digits_val(self.digits@.take(i as int));
                let dd: nat = d as nat;
                let mm: nat = m as nat;
                let cc: nat = carry as nat;
                let c2: nat = carry2 as nat;
                let lon: nat = lo as nat;
                let pr: nat = prod as nat;
                assert(lon + 10 * c2 == pr);
                assert(pr == dd * mm + cc);
                // carry stays bounded by the factor
                assert(pr <= 10 * mm);
                assert(c2 <= mm);
                // the value equation
                lemma_val_push(out@, lo);
                assert(digits_val(out@.push(lo)) == vo + lon * p);
                assert(pi1 == 10 * p);
                assert(vo + lon * p + c2 * pi1 == (va + dd * p) * mm) by (nonlinear_arith)
                    requires
                        pi1 == 10 * p,
                        lon + 10 * c2 == pr,
                        pr == dd * mm + cc,
                        vo + cc * p == va * mm,
                ;
                assert(self.digits@.take(i + 1) =~= self.digits@.take(i as int).push(d));
                lemma_val_push(self.digits@.take(i as int), d);
                assert(digits_val(self.digits@.take(i + 1)) == va + dd * p);
                assert((va + dd * p) * mm == digits_val(self.digits@.take(i + 1)) * mm);
                // the most significant digit written so far
                assert(lon + 10 * c2 >= dd * mm);
            }
            out.push(lo);
            carry = carry2;
            i = i + 1;
        }
        proof {
            assert(self.digits@.take(self.digits@.len() as int) =~= self.digits@);
            assert(self.digits@[self.digits@.len() - 1] as nat * m >= 1) by (nonlinear_arith)
                requires
                    self.digits@[self.digits@.len() - 1] >= 1,
                    m >= 1,
            ;
        }
        let ghost total: nat = (self@ * m) as nat;
        while carry > 0
            invariant
                out@.len() >= 1,
                digits_val(out@) + carry * pow10(out@.len()) == total,
                forall|j: int| 0 <= j < out@.len() ==> out@[j] < 10,
                carry == 0 ==> out@[out@.len() - 1] != 0,
            decreases carry,
        {
            let d: u8 = (carry % 10) as u8;
            let carry2: u128 = carry / 10;
            proof {
                let vo: nat = digits_val(out@);
                let p: nat = pow10(out@.len());
                let dd: nat = d as nat;
                let c2: nat = carry2 as nat;
                assert(dd + 10 * c2 == carry as nat);
                lemma_val_push(out@, d);
                assert(digits_val(out@.push(d)) == vo + dd * p);
                assert(pow10(out@.len() + 1) == 10 * p);
                assert(vo + dd * p + c2 * (10 * p) == vo + (carry as nat) * p) by (nonlinear_arith)
                    requires
                        dd + 10 * c2 == carry as nat,
                ;
                assert(carry2 == 0 ==> d != 0);
            }
            out.push(d);
            carry = carry2;
        }
        proof {
            assert(carry * pow10(out@.len()) == 0);
        }
        BigNat { digits: out }
    }
}

} // verus!
