use vstd::prelude::*;
use crate::bignat::BigNat;

verus! {

/// The factorial of `n`: the product of the integers from 1 to `n`,
/// with the empty product 1 for `n == 0`.
pub open spec fn fact(n: nat) -> nat
    decreases n,
{
    if n == 0 {
        1
    } else {
        n * fact((n - 1) as nat)
    }
}

/// Computes the exact factorial of `n`, accumulating the product of all
/// integers from 1 to `n` into an arbitrary-precision number.
pub fn compute(n: u64) -> (r: BigNat)
    ensures
        r.wf(),
        r@ == fact(n as nat),
{
    let mut result = BigNat::from_u64(1);
    let mut i: u64 = 0;
    while i < n
        invariant
            i <= n,
            result.wf(),
            result@ == fact(i as nat),
        decreases n - i,
    {
        i = i + 1;
        result = result.mul_u64(i);
        proof {
            assert(fact((i - 1) as nat) * (i as nat) == (i as nat) * fact((i - 1) as nat))
                by (nonlinear_arith);
            assert(fact(i as nat) == (i as nat) * fact((i - 1) as nat));
        }
    }
    result
}

} // verus!
