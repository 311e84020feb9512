//! Small exact integer utilities used by the numeric front ends
//! around the matcher.

use vstd::prelude::*;

verus! {

/// The little-endian binary digits of `n`, least significant first,
/// without leading zeros; empty for non-positive `n`.
pub open spec fn bits_of(n: int) -> Seq<bool>
    decreases n,
{
    if n <= 0 {
        Seq::empty()
    } else {
        seq![n % 2 == 1] + bits_of(n / 2)
    }
}

/// Decomposes a machine integer into its binary digits, least
/// significant first; non-positive inputs give an empty vector.
pub fn int_to_bool_array(n: i32) -> (r: Vec<bool>)
    ensures
        r@ == bits_of(n as int),
{
    let mut result: Vec<bool> = Vec::new();
    let mut m = n;
    proof {
        assert(Seq::<bool>::empty() + bits_of(n as int) =~= bits_of(n as int));
    }
    while m > 0
        invariant
            bits_of(n as int) == result@ + bits_of(m as int),
        decreases m,
    {
        let ghost m0 = m as int;
        let ghost prev = result@;
        proof {
            assert((m & 1 == 1) == (m % 2 == 1)) by (bit_vector)
                requires
                    m > 0,
            ;
            assert(m >> 1 == m / 2) by (bit_vector)
                requires
                    m > 0,
            ;
        }
        let b = m & 1 == 1;
        result.push(b);
        m = m >> 1;
        proof {
            assert(result@ =~= prev + seq![b]);
            assert(prev + bits_of(m0) =~= (prev + seq![b]) + bits_of(m0 / 2));
        }
    }
    proof {
        assert(result@ + bits_of(m as int) =~= result@);
    }
    result
}

/// Exact sum of two machine integers; the caller rules out overflow.
pub fn sum_of_ints(x: i32, y: i32) -> (r: i32)
    requires
        i32::MIN <= x + y <= i32::MAX,
    ensures
        r == x + y,
{
    x + y
}

} // verus!
