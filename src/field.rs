use vstd::prelude::*;

verus! {

/// An element of the 128-bit binary field, held as its 128-bit representation.
/// Every `u128` is an element, so building one from an integer needs no reduction.
#[derive(Clone, Copy, Debug, PartialEq, Eq, Structural)]
pub struct Felt {
    pub val: u128,
}

/// Byte `k` of the big-endian encoding of a `u128` (most significant byte first).
pub open spec fn be_byte_128(v: u128, k: int) -> u8 {
    ((v >> ((120 - 8 * k) as u128)) & 0xff) as u8
}

/// The canonical 16-byte big-endian encoding of a `u128`.
pub open spec fn be_bytes_128(v: u128) -> Seq<u8> {
    Seq::new(16, |k: int| be_byte_128(v, k))
}

/// Byte `k` of the big-endian encoding of a `u64`.
pub open spec fn be_byte_64(v: u64, k: int) -> u8 {
    ((v >> ((56 - 8 * k) as u64)) & 0xff) as u8
}

/// The 8-byte big-endian encoding of a `u64`.
pub open spec fn be_bytes_64(v: u64) -> Seq<u8> {
    Seq::new(8, |k: int| be_byte_64(v, k))
}

/// The unsigned integer that a big-endian byte string denotes.
pub open spec fn be_value(s: Seq<u8>) -> nat
    decreases s.len(),
{
    if s.len() == 0 {
        0
    } else {
        be_value(s.drop_last()) * 256 + s.last() as nat
    }
}

pub open spec fn pow256(n: nat) -> nat
    decreases n,
{
    if n == 0 {
        1
    } else {
        256 * pow256((n - 1) as nat)
    }
}

proof fn lemma_be_value_bound(s: Seq<u8>)
    ensures
        be_value(s) < pow256(s.len()),
    decreases s.len(),
{
    if s.len() > 0 {
        lemma_be_value_bound(s.drop_last());
        let a = be_value(s.drop_last());
        let p = pow256(s.drop_last().len());
        let l = s.last() as nat;
        assert(a * 256 + l < 256 * p) by (nonlinear_arith)
            requires
                a < p,
                l < 256,
        ;
    }
}

proof fn lemma_pow256_mono(i: nat, j: nat)
    requires
        i <= j,
    ensures
        pow256(i) <= pow256(j),
    decreases j,
{
    if i < j {
        lemma_pow256_mono(i, (j - 1) as nat);
    }
}

impl Felt {
    /// The field element whose representation is `val`.
    pub fn new(val: u128) -> (r: Felt)
        ensures
            r.val == val,
    {
        Felt { val }
    }

    /// The canonical big-endian encoding of the element, hashed to form a commitment leaf.
    pub fn to_be_bytes(&self) -> (r: Vec<u8>)
        ensures
            r@ == be_bytes_128(self.val),
    {
        let mut out: Vec<u8> = Vec::new();
        let mut k: u32 = 0;
        while k < 16
            invariant
                k <= 16,
                out@ =~= be_bytes_128(self.val).take(k as int),
            decreases 16 - k,
        {
            let shift: u128 = (120 - 8 * k) as u128;
            out.push(((self.val >> shift) & 0xff) as u8);
            k = k + 1;
        }
        out
    }
}

/// The 8-byte big-endian encoding of `v`.
pub fn u64_to_be_bytes(v: u64) -> (r: Vec<u8>)
    ensures
        r@ == be_bytes_64(v),
{
    let mut out: Vec<u8> = Vec::new();
    let mut k: u32 = 0;
    while k < 8
        invariant
            k <= 8,
            out@ =~= be_bytes_64(v).take(k as int),
        decreases 8 - k,
    {
        let shift: u64 = (56 - 8 * k) as u64;
        out.push(((v >> shift) & 0xff) as u8);
        k = k + 1;
    }
    out
}

/// Reads the first 16 bytes of `b` as a big-endian `u128`.
pub fn u128_from_be_prefix(b: &[u8; 32]) -> (r: u128)
    ensures
        r as nat == be_value(b@.take(16)),
{
    let mut acc: u128 = 0;
    let mut i: usize = 0;
    while i < 16
        invariant
            i <= 16,
            b@.len() == 32,
            acc as nat == be_value(b@.take(i as int)),
        decreases 16 - i,
    {
        proof {
            lemma_be_value_bound(b@.take(i as int));
            lemma_pow256_mono(i as nat, 15);
            reveal_with_fuel(pow256, 16);
            assert(b@.take(i as int + 1).drop_last() =~= b@.take(i as int));
        }
        acc = acc * 256 + b[i] as u128;
        i = i + 1;
    }
    acc
}

} // verus!
