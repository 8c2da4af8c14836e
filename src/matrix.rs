use crate::field::Felt;
use vstd::prelude::*;

verus! {

/// The columns of a matrix held as a vector of columns.
pub open spec fn mview(m: &Vec<Vec<Felt>>) -> Seq<Seq<Felt>> {
    m@.map_values(|c: Vec<Felt>| c@)
}

/// The sequences of `s`, one after the other.
pub open spec fn concat<A>(s: Seq<Seq<A>>) -> Seq<A>
    decreases s.len(),
{
    if s.len() == 0 {
        Seq::empty()
    } else {
        concat(s.drop_last()) + s.last()
    }
}

/// Every column of `m` has length `h`.
pub open spec fn all_len<A>(m: Seq<Seq<A>>, h: nat) -> bool {
    forall|j: int| 0 <= j < m.len() ==> #[trigger] m[j].len() == h
}

/// The transpose of `m`, whose columns all have length `h`: `h` sequences of `m.len()`
/// elements, element `j` of sequence `i` being element `i` of column `j`.
pub open spec fn transposed<A>(m: Seq<Seq<A>>, h: nat) -> Seq<Seq<A>> {
    Seq::new(h, |i: int| Seq::new(m.len(), |j: int| m[j][i]))
}

/// `m` is a square of side `w`.
pub open spec fn is_square<A>(m: Seq<Seq<A>>, w: nat) -> bool {
    m.len() == w && all_len(m, w)
}

pub proof fn lemma_concat_push<A>(s: Seq<Seq<A>>, i: int)
    requires
        0 <= i < s.len(),
    ensures
        concat(s.take(i + 1)) == concat(s.take(i)) + s[i],
{
    assert(s.take(i + 1).drop_last() =~= s.take(i));
}

/// The elements of a non-empty list of sequences include those of its last one.
pub proof fn lemma_concat_last_len<A>(s: Seq<Seq<A>>)
    requires
        s.len() > 0,
    ensures
        concat(s).len() >= s.last().len(),
{
}

/// The transpose of a square is a square of the same side.
pub proof fn lemma_transposed_square<A>(m: Seq<Seq<A>>, w: nat)
    requires
        is_square(m, w),
    ensures
        is_square(transposed(m, w), w),
{
    assert forall|i: int| 0 <= i < w implies #[trigger] transposed(m, w)[i].len() == w by {}
}

/// A copy of `v`.
pub fn copy_vec(v: &Vec<Felt>) -> (r: Vec<Felt>)
    ensures
        r@ == v@,
{
    let mut out: Vec<Felt> = Vec::new();
    let mut i: usize = 0;
    while i < v.len()
        invariant
            i <= v.len(),
            out@ =~= v@.take(i as int),
        decreases v.len() - i,
    {
        out.push(v[i]);
        i = i + 1;
    }
    assert(v@.take(v.len() as int) =~= v@);
    out
}

/// A copy of the matrix `m`.
pub fn copy_matrix(m: &Vec<Vec<Felt>>) -> (r: Vec<Vec<Felt>>)
    ensures
        mview(&r) == mview(m),
{
    let mut out: Vec<Vec<Felt>> = Vec::new();
    let mut i: usize = 0;
    while i < m.len()
        invariant
            i <= m.len(),
            mview(&out) =~= mview(m).take(i as int),
        decreases m.len() - i,
    {
        let col = copy_vec(&m[i]);
        let ghost prev = out@;
        out.push(col);
        assert(out@ == prev.push(col));
        assert(mview(&out) =~= prev.map_values(|c: Vec<Felt>| c@).push(col@));
        i = i + 1;
    }
    out
}

/// All elements of the columns of `m`, column after column.
pub fn flatten(m: &Vec<Vec<Felt>>) -> (r: Vec<Felt>)
    ensures
        r@ == concat(mview(m)),
{
    let mut out: Vec<Felt> = Vec::new();
    let mut i: usize = 0;
    while i < m.len()
        invariant
            i <= m.len(),
            out@ == concat(mview(m).take(i as int)),
        decreases m.len() - i,
    {
        let col = &m[i];
        let ghost before = out@;
        let mut j: usize = 0;
        while j < col.len()
            invariant
                j <= col.len(),
                col@ == mview(m)[i as int],
                out@ =~= before + col@.take(j as int),
            decreases col.len() - j,
        {
            out.push(col[j]);
            j = j + 1;
        }
        proof {
            lemma_concat_push(mview(m), i as int);
            assert(col@.take(col.len() as int) =~= col@);
        }
        i = i + 1;
    }
    assert(mview(m).take(m.len() as int) =~= mview(m));
    out
}

} // verus!
