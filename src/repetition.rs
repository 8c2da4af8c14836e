use crate::error::EncodeError;
use crate::field::Felt;
use crate::tree::{scaled, LinearCode};
use vstd::prelude::*;

verus! {

/// `a` times `x` in GF(2^128) in the polynomial basis, modulo x^128 + x^7 + x^2 + x + 1.
pub open spec fn xtime(a: u128) -> u128 {
    if a >> 127u128 == 1 {
        (a << 1u128) ^ 0x87
    } else {
        a << 1u128
    }
}

/// `a` times `x^i`.
pub open spec fn times_x_pow(a: u128, i: nat) -> u128
    decreases i,
{
    if i == 0 {
        a
    } else {
        xtime(times_x_pow(a, (i - 1) as nat))
    }
}

/// The sum of `a * x^k` over the bits `k < i` set in `b`.
pub open spec fn partial_product(a: u128, b: u128, i: nat) -> u128
    decreases i,
{
    if i == 0 {
        0
    } else {
        let k = (i - 1) as nat;
        partial_product(a, b, k) ^ (if ((b >> (k as u128)) & 1) == 1 {
            times_x_pow(a, k)
        } else {
            0
        })
    }
}

/// The product of `a` and `b` in GF(2^128), polynomial basis.
pub open spec fn gf128_mul(a: u128, b: u128) -> u128 {
    partial_product(a, b, 128)
}

/// The repetition code of a fixed dimension over GF(2^128): a vector of that length
/// encodes to itself twice over; a vector of another length is refused.
#[derive(Clone, Copy, Debug, PartialEq, Eq, Structural)]
pub struct RepetitionCode {
    pub dimension: usize,
}

impl RepetitionCode {
    pub fn new(dimension: usize) -> (r: Self)
        ensures
            r.dimension == dimension,
    {
        RepetitionCode { dimension }
    }
}

impl LinearCode for RepetitionCode {
    open spec fn spec_encode(&self, v: Seq<Felt>) -> Result<Seq<Felt>, EncodeError> {
        if v.len() == self.dimension {
            Ok(v + v)
        } else {
            Err(EncodeError::BadLength { found: v.len() as usize })
        }
    }

    open spec fn spec_mul(&self, a: Felt, b: Felt) -> Felt {
        Felt { val: gf128_mul(a.val, b.val) }
    }

    fn encode(&self, v: &Vec<Felt>) -> (r: Result<Vec<Felt>, EncodeError>) {
        if v.len() != self.dimension {
            return Err(EncodeError::BadLength { found: v.len() });
        }
        let mut out: Vec<Felt> = Vec::new();
        let mut round: usize = 0;
        while round < 2
            invariant
                round <= 2,
                out@ == (if round == 0 {
                    Seq::<Felt>::empty()
                } else if round == 1 {
                    v@
                } else {
                    v@ + v@
                }),
            decreases 2 - round,
        {
            let ghost start = out@;
            let mut i: usize = 0;
            while i < v.len()
                invariant
                    i <= v.len(),
                    out@ =~= start + v@.take(i as int),
                decreases v.len() - i,
            {
                out.push(v[i]);
                i = i + 1;
            }
            assert(v@.take(v.len() as int) =~= v@);
            assert(Seq::<Felt>::empty() + v@ =~= v@);
            round = round + 1;
        }
        Ok(out)
    }

    fn mul(&self, a: Felt, b: Felt) -> (r: Felt) {
        let mut acc: u128 = 0;
        let mut pow: u128 = a.val;
        let mut k: u32 = 0;
        while k < 128
            invariant
                k <= 128,
                acc == partial_product(a.val, b.val, k as nat),
                pow == times_x_pow(a.val, k as nat),
            decreases 128 - k,
        {
            let bit: u128 = (b.val >> (k as u128)) & 1;
            if bit == 1 {
                acc = acc ^ pow;
            } else {
                let ghost old_acc = acc;
                assert(old_acc ^ 0u128 == old_acc) by (bit_vector);
            }
            assert(partial_product(a.val, b.val, (k + 1) as nat) == partial_product(
                a.val,
                b.val,
                k as nat,
            ) ^ (if ((b.val >> (k as u128)) & 1) == 1 {
                times_x_pow(a.val, k as nat)
            } else {
                0
            }));
            pow = if pow >> 127u32 == 1 {
                (pow << 1u32) ^ 0x87
            } else {
                pow << 1u32
            };
            k = k + 1;
        }
        Felt { val: acc }
    }
}

proof fn lemma_partial_product_one(a: u128, i: nat)
    requires
        1 <= i <= 128,
    ensures
        partial_product(a, 1, i) == a,
    decreases i,
{
    let k = (i - 1) as nat;
    let kk = k as u128;
    assert(partial_product(a, 1, i) == partial_product(a, 1, k) ^ (if ((1u128 >> kk) & 1) == 1 {
        times_x_pow(a, k)
    } else {
        0
    }));
    if i == 1 {
        assert(((1u128 >> 0u128) & 1u128) == 1u128) by (bit_vector);
        assert(times_x_pow(a, 0) == a);
        assert(partial_product(a, 1, 0) == 0);
        assert(0u128 ^ a == a) by (bit_vector);
    } else {
        lemma_partial_product_one(a, k);
        assert(((1u128 >> kk) & 1u128) != 1u128) by (bit_vector)
            requires
                1 <= kk < 128,
        ;
        assert(a ^ 0u128 == a) by (bit_vector);
    }
}

/// One is the unit of the product.
pub proof fn lemma_mul_one(a: u128)
    ensures
        gf128_mul(a, 1) == a,
{
    lemma_partial_product_one(a, 128);
}

/// Scaling every column by one leaves a matrix unchanged.
pub proof fn lemma_scaled_by_ones(code: RepetitionCode, m: Seq<Seq<Felt>>, dr: Seq<Felt>)
    requires
        m.len() <= dr.len(),
        forall|i: int| 0 <= i < m.len() ==> #[trigger] dr[i] == (Felt { val: 1 }),
    ensures
        scaled(code, m, dr) == m,
{
    assert forall|i: int| 0 <= i < m.len() implies #[trigger] scaled(code, m, dr)[i] =~= m[i] by {
        assert forall|j: int| 0 <= j < m[i].len() implies scaled(code, m, dr)[i][j] == m[i][j] by {
            lemma_mul_one(m[i][j].val);
        }
    }
    assert(scaled(code, m, dr) =~= m);
}

} // verus!
