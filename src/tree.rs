use crate::error::{EncodeError, Error, Stage};
use crate::field::{be_bytes_64, be_value, u128_from_be_prefix, u64_to_be_bytes, Felt};
use crate::hashing::{
    commit_elements, leaves_of, merkle_root_of, sha256, sha256_of, tree_leaves, CommitmentTree,
    tree_root,
};
use crate::matrix::{
    all_len, concat, copy_matrix, copy_vec, flatten, is_square, lemma_concat_last_len,
    lemma_concat_push, lemma_transposed_square, mview, transposed,
};
use vstd::prelude::*;

verus! {

/// The length of the columns of a rectangular matrix (zero for a matrix with no column).
pub open spec fn height(m: Seq<Seq<Felt>>) -> nat {
    if m.len() == 0 {
        0
    } else {
        m[0].len()
    }
}

/// The transpose of a matrix whose columns all have the same length.
pub fn transpose(matrix: &Vec<Vec<Felt>>) -> (r: Vec<Vec<Felt>>)
    requires
        all_len(mview(matrix), height(mview(matrix))),
    ensures
        mview(&r) == transposed(mview(matrix), height(mview(matrix))),
{
    let h: usize = if matrix.len() == 0 {
        0
    } else {
        matrix[0].len()
    };
    let ghost t = transposed(mview(matrix), h as nat);
    let mut out: Vec<Vec<Felt>> = Vec::new();
    let mut i: usize = 0;
    while i < h
        invariant
            i <= h,
            t == transposed(mview(matrix), h as nat),
            h == height(mview(matrix)),
            all_len(mview(matrix), h as nat),
            mview(&out) =~= t.take(i as int),
        decreases h - i,
    {
        let mut row: Vec<Felt> = Vec::new();
        let mut j: usize = 0;
        while j < matrix.len()
            invariant
                i < h,
                j <= matrix.len(),
                t == transposed(mview(matrix), h as nat),
                h == height(mview(matrix)),
                all_len(mview(matrix), h as nat),
                row@ =~= t[i as int].take(j as int),
            decreases matrix.len() - j,
        {
            assert(mview(matrix)[j as int].len() == h);
            row.push(matrix[j][i]);
            j = j + 1;
        }
        assert(row@ =~= t[i as int]);
        let ghost prev = out@;
        out.push(row);
        assert(out@ == prev.push(row));
        assert(mview(&out) =~= prev.map_values(|c: Vec<Felt>| c@).push(row@));
        i = i + 1;
    }
    out
}

/// The elements of the transpose of a matrix, row after row.
pub fn transpose_and_flatten(matrix: &Vec<Vec<Felt>>) -> (r: Vec<Felt>)
    requires
        all_len(mview(matrix), height(mview(matrix))),
    ensures
        r@ == concat(transposed(mview(matrix), height(mview(matrix)))),
{
    let t = transpose(matrix);
    flatten(&t)
}

/// `cw` is a systematic codeword of `v` at rate one half: `v` followed by as many
/// further elements.
pub open spec fn is_systematic_codeword(v: Seq<Felt>, cw: Seq<Felt>) -> bool {
    cw.len() == 2 * v.len() && cw.take(v.len() as int) == v
}

/// Accepts `cw` as the codeword of `v` exactly when it is systematic at rate one half;
/// otherwise reports `Consistency` at `index` of `stage`.
pub fn check_systematic(v: &Vec<Felt>, cw: Vec<Felt>, stage: Stage, index: usize) -> (r: Result<
    Vec<Felt>,
    Error,
>)
    ensures
        is_systematic_codeword(v@, cw@) ==> r == Ok::<Vec<Felt>, Error>(cw),
        !is_systematic_codeword(v@, cw@) ==> r == Err::<Vec<Felt>, Error>(
            Error::Consistency { stage, index },
        ),
{
    if cw.len() % 2 != 0 || cw.len() / 2 != v.len() {
        return Err(Error::Consistency { stage, index });
    }
    let mut j: usize = 0;
    while j < v.len()
        invariant
            j <= v.len(),
            cw@.len() == 2 * v@.len(),
            cw@.take(j as int) =~= v@.take(j as int),
        decreases v.len() - j,
    {
        if cw[j] != v[j] {
            proof {
                assert(cw@.take(v.len() as int)[j as int] != v@[j as int]);
            }
            return Err(Error::Consistency { stage, index });
        }
        j = j + 1;
    }
    assert(v@.take(v.len() as int) =~= v@);
    assert(cw@.take(v.len() as int) =~= v@);
    Ok(cw)
}

/// The columns `c0 .. c0 + w` of `cols`, each cut to its rows `r0 .. r0 + w`.
pub open spec fn quadrant(cols: Seq<Seq<Felt>>, c0: int, r0: int, w: int) -> Seq<Seq<Felt>> {
    Seq::new(w as nat, |c: int| cols[c0 + c].subrange(r0, r0 + w))
}

/// The columns of the assembled square: each column of `q1` over the same column of
/// `q3`, then each column of `q2` over the same column of `q4`.
pub open spec fn assembled(
    q1: Seq<Seq<Felt>>,
    q2: Seq<Seq<Felt>>,
    q3: Seq<Seq<Felt>>,
    q4: Seq<Seq<Felt>>,
) -> Seq<Seq<Felt>> {
    Seq::new(
        2 * q1.len(),
        |c: int|
            if c < q1.len() {
                q1[c] + q3[c]
            } else {
                q2[c - q1.len()] + q4[c - q1.len()]
            },
    )
}

/// A square of side `w` has height `w`.
pub proof fn lemma_square_height(m: Seq<Seq<Felt>>, w: nat)
    requires
        is_square(m, w),
    ensures
        height(m) == w,
        all_len(m, height(m)),
{
    if w > 0 {
        assert(m[0].len() == w);
    }
}

/// The first and third quadrants of an assembled square are the ones it was built from.
pub proof fn lemma_assembled_quadrants(
    q1: Seq<Seq<Felt>>,
    q2: Seq<Seq<Felt>>,
    q3: Seq<Seq<Felt>>,
    q4: Seq<Seq<Felt>>,
    w: nat,
)
    requires
        is_square(q1, w),
        is_square(q2, w),
        is_square(q3, w),
        is_square(q4, w),
    ensures
        quadrant(assembled(q1, q2, q3, q4), 0, 0, w as int) == q1,
        quadrant(assembled(q1, q2, q3, q4), 0, w as int, w as int) == q3,
        quadrant(assembled(q1, q2, q3, q4), w as int, 0, w as int) == q2,
        quadrant(assembled(q1, q2, q3, q4), w as int, w as int, w as int) == q4,
{
    let a = assembled(q1, q2, q3, q4);
    assert forall|c: int| 0 <= c < w implies #[trigger] quadrant(a, 0, 0, w as int)[c] =~= q1[c]
        && quadrant(a, 0, w as int, w as int)[c] =~= q3[c] by {
        assert(q1[c].len() == w && q3[c].len() == w);
    }
    assert forall|c: int| 0 <= c < w implies #[trigger] quadrant(a, w as int, 0, w as int)[c]
        =~= q2[c] && quadrant(a, w as int, w as int, w as int)[c] =~= q4[c] by {
        assert(q2[c].len() == w && q4[c].len() == w);
    }
    assert(quadrant(a, 0, 0, w as int) =~= q1);
    assert(quadrant(a, 0, w as int, w as int) =~= q3);
    assert(quadrant(a, w as int, 0, w as int) =~= q2);
    assert(quadrant(a, w as int, w as int, w as int) =~= q4);
}

/// A code that is systematic at length `n` makes no vector of length `n` fail.
pub proof fn lemma_no_failure<E: LinearCode>(code: E, vs: Seq<Seq<Felt>>, n: nat, stage: Stage)
    requires
        systematic_at(code, n),
        all_len(vs, n),
    ensures
        forall|e: Error| !first_failure(code, vs, stage, e),
{
    assert forall|i: int| 0 <= i < vs.len() implies (#[trigger] encode_outcome(
        code,
        vs[i],
        stage,
        i as usize,
    )) is Ok by {
        assert(vs[i].len() == n);
        assert(code.spec_encode(vs[i]) is Ok);
    }
}

/// Transposing a square twice gives it back.
pub proof fn lemma_transpose_twice(m: Seq<Seq<Felt>>, w: nat)
    requires
        is_square(m, w),
    ensures
        transposed(transposed(m, w), w) == m,
{
    assert forall|j: int| 0 <= j < w implies #[trigger] transposed(transposed(m, w), w)[j] =~= m[j] by {
        assert(m[j].len() == w);
    }
    assert(transposed(transposed(m, w), w) =~= m);
}

/// Column `c` of `a` followed by column `c` of `b`.
fn stack(a: &Vec<Vec<Felt>>, b: &Vec<Vec<Felt>>, c: usize) -> (r: Vec<Felt>)
    requires
        c < a.len(),
        c < b.len(),
    ensures
        r@ == mview(a)[c as int] + mview(b)[c as int],
{
    let mut out = copy_vec(&a[c]);
    assert(mview(a)[c as int] == a@[c as int]@);
    assert(mview(b)[c as int] == b@[c as int]@);
    let mut j: usize = 0;
    while j < b[c].len()
        invariant
            c < a.len(),
            c < b.len(),
            j <= b[c as int].len(),
            mview(b)[c as int] == b@[c as int]@,
            out@ =~= mview(a)[c as int] + mview(b)[c as int].take(j as int),
        decreases b[c as int].len() - j,
    {
        out.push(b[c][j]);
        j = j + 1;
    }
    assert(mview(b)[c as int].take(b[c as int].len() as int) =~= mview(b)[c as int]);
    out
}

/// A systematic linear code of rate one half over the 128-bit binary field, together with
/// that field's multiplication. The pipeline is handed one and only reads it.
pub trait LinearCode {
    /// What encoding `v` gives: the same vector always gives the same outcome.
    spec fn spec_encode(&self, v: Seq<Felt>) -> Result<Seq<Felt>, EncodeError>;

    /// The field product of `a` and `b`.
    spec fn spec_mul(&self, a: Felt, b: Felt) -> Felt;

    /// The codeword of `v`: `v` itself followed by `v.len()` further elements.
    fn encode(&self, v: &Vec<Felt>) -> (r: Result<Vec<Felt>, EncodeError>)
        ensures
            outcome_view(r) == self.spec_encode(v@),
    ;

    /// The field product of `a` and `b`.
    fn mul(&self, a: Felt, b: Felt) -> (r: Felt)
        ensures
            r == self.spec_mul(a, b),
    ;
}

/// An encoding outcome with the codeword seen as a sequence.
pub open spec fn outcome_view(r: Result<Vec<Felt>, EncodeError>) -> Result<Seq<Felt>, EncodeError> {
    match r {
        Ok(c) => Ok(c@),
        Err(e) => Err(e),
    }
}

/// A checked encoding with the codeword seen as a sequence.
pub open spec fn checked_view(r: Result<Vec<Felt>, Error>) -> Result<Seq<Felt>, Error> {
    match r {
        Ok(c) => Ok(c@),
        Err(e) => Err(e),
    }
}

/// Each column `i` of `m` scaled by `dr[i]` under the code's field product.
pub open spec fn scaled<E: LinearCode>(code: E, m: Seq<Seq<Felt>>, dr: Seq<Felt>) -> Seq<Seq<Felt>> {
    Seq::new(m.len(), |i: int| Seq::new(m[i].len(), |j: int| code.spec_mul(m[i][j], dr[i])))
}

/// What the checked encoding of `v` gives: the encoder's failure as `Encoding`, a
/// codeword that is not systematic as `Consistency`, both at `index` of `stage`.
pub open spec fn encode_outcome<E: LinearCode>(code: E, v: Seq<Felt>, stage: Stage, index: usize) -> Result<
    Seq<Felt>,
    Error,
> {
    match code.spec_encode(v) {
        Ok(cw) => if is_systematic_codeword(v, cw) {
            Ok(cw)
        } else {
            Err(Error::Consistency { stage, index })
        },
        Err(cause) => Err(Error::Encoding { stage, index, cause }),
    }
}

/// The code gives a systematic codeword for every vector of length `n`.
pub open spec fn systematic_at<E: LinearCode>(code: E, n: nat) -> bool {
    forall|v: Seq<Felt>|
        v.len() == n ==> (#[trigger] code.spec_encode(v)) is Ok && is_systematic_codeword(
            v,
            code.spec_encode(v)->Ok_0,
        )
}

/// The vectors `vs` all encode, at `stage`, to `vs[i]` followed by `ext[i]`.
pub open spec fn encodes_to<E: LinearCode>(code: E, vs: Seq<Seq<Felt>>, ext: Seq<Seq<Felt>>, stage: Stage) -> bool {
    &&& ext.len() == vs.len()
    &&& forall|i: int|
        0 <= i < vs.len() ==> #[trigger] encode_outcome(code, vs[i], stage, i as usize) == Ok::<
            Seq<Felt>,
            Error,
        >(vs[i] + ext[i])
}

/// `e` is the outcome at the first of `vs` whose checked encoding fails.
pub open spec fn first_failure<E: LinearCode>(code: E, vs: Seq<Seq<Felt>>, stage: Stage, e: Error) -> bool {
    exists|i: int|
        0 <= i < vs.len() && #[trigger] encode_outcome(code, vs[i], stage, i as usize) == Err::<
            Seq<Felt>,
            Error,
        >(e) && forall|k: int| 0 <= k < i ==> (#[trigger] encode_outcome(code, vs[k], stage, k as usize)) is Ok
}

/// The extended square: `2 * width` columns of `2 * width` elements with their rows, the
/// challenge vector, the root over the first two quadrants and the root over all four.
pub struct ExtendedDataSquare {
    cols: Vec<Vec<Felt>>,
    rows: Vec<Vec<Felt>>,
    dr: Vec<Felt>,
    x_tree: CommitmentTree,
    x_root: [u8; 32],
    z_tree: CommitmentTree,
    z_root: [u8; 32],
}

impl ExtendedDataSquare {
    pub closed spec fn cols_view(&self) -> Seq<Seq<Felt>> {
        mview(&self.cols)
    }

    pub closed spec fn rows_view(&self) -> Seq<Seq<Felt>> {
        mview(&self.rows)
    }

    pub closed spec fn dr_view(&self) -> Seq<Felt> {
        self.dr@
    }

    pub closed spec fn x_root_view(&self) -> Seq<u8> {
        self.x_root@
    }

    pub closed spec fn z_root_view(&self) -> Seq<u8> {
        self.z_root@
    }

    pub closed spec fn x_tree_view(&self) -> CommitmentTree {
        self.x_tree
    }

    pub closed spec fn z_tree_view(&self) -> CommitmentTree {
        self.z_tree
    }

    fn from_cols(
        q1: Vec<Vec<Felt>>,
        q2: Vec<Vec<Felt>>,
        q3: Vec<Vec<Felt>>,
        q4: Vec<Vec<Felt>>,
        dr: Vec<Felt>,
        x_tree: CommitmentTree,
        x_root: [u8; 32],
        z_tree: CommitmentTree,
        z_root: [u8; 32],
    ) -> (r: Self)
        requires
            is_square(mview(&q1), q1.len() as nat),
            is_square(mview(&q2), q1.len() as nat),
            is_square(mview(&q3), q1.len() as nat),
            is_square(mview(&q4), q1.len() as nat),
            2 * q1.len() <= usize::MAX,
        ensures
            r.cols_view() == assembled(mview(&q1), mview(&q2), mview(&q3), mview(&q4)),
            is_square(r.cols_view(), (2 * q1.len()) as nat),
            r.rows_view() == transposed(r.cols_view(), (2 * q1.len()) as nat),
            r.dr_view() == dr@,
            r.x_root_view() == x_root@,
            r.z_root_view() == z_root@,
            r.x_tree_view() == x_tree,
            r.z_tree_view() == z_tree,
    {
        let w = q1.len();
        let ghost target = assembled(mview(&q1), mview(&q2), mview(&q3), mview(&q4));
        let mut cols: Vec<Vec<Felt>> = Vec::new();
        let mut c: usize = 0;
        while c < 2 * w
            invariant
                w == q1.len(),
                2 * w <= usize::MAX,
                c <= 2 * w,
                is_square(mview(&q1), w as nat),
                is_square(mview(&q2), w as nat),
                is_square(mview(&q3), w as nat),
                is_square(mview(&q4), w as nat),
                target == assembled(mview(&q1), mview(&q2), mview(&q3), mview(&q4)),
                mview(&cols) =~= target.take(c as int),
            decreases 2 * w - c,
        {
            let col = if c < w {
                stack(&q1, &q3, c)
            } else {
                stack(&q2, &q4, c - w)
            };
            let ghost prev = cols@;
            cols.push(col);
            assert(cols@ == prev.push(col));
            assert(mview(&cols) =~= prev.map_values(|v: Vec<Felt>| v@).push(col@));
            c = c + 1;
        }
        assert forall|j: int| 0 <= j < 2 * w implies #[trigger] mview(&cols)[j].len() == 2 * w by {
            if j < w {
                assert(mview(&q1)[j].len() == w && mview(&q3)[j].len() == w);
            } else {
                assert(mview(&q2)[j - w].len() == w && mview(&q4)[j - w].len() == w);
            }
        }
        let rows = transpose(&cols);
        ExtendedDataSquare { cols, rows, dr, x_tree, x_root, z_tree, z_root }
    }

    /// The columns of the extended square.
    pub fn cols(&self) -> (r: &Vec<Vec<Felt>>)
        ensures
            mview(r) == self.cols_view(),
    {
        &self.cols
    }

    /// The rows of the extended square.
    pub fn rows(&self) -> (r: &Vec<Vec<Felt>>)
        ensures
            mview(r) == self.rows_view(),
    {
        &self.rows
    }

    /// The challenge vector, one scalar per column of the data square.
    pub fn dr(&self) -> (r: &Vec<Felt>)
        ensures
            r@ == self.dr_view(),
    {
        &self.dr
    }

    /// The root that commits to the first and third quadrants.
    pub fn x_root(&self) -> (r: [u8; 32])
        ensures
            r@ == self.x_root_view(),
    {
        self.x_root
    }

    /// The hash tree over the first and third quadrants.
    pub fn x_tree(&self) -> (r: &CommitmentTree)
        ensures
            *r == self.x_tree_view(),
    {
        &self.x_tree
    }

    /// The hash tree over all four quadrants after recombination.
    pub fn z_tree(&self) -> (r: &CommitmentTree)
        ensures
            *r == self.z_tree_view(),
    {
        &self.z_tree
    }

    /// The root that commits to all four quadrants after recombination.
    pub fn z_root(&self) -> (r: [u8; 32])
        ensures
            r@ == self.z_root_view(),
    {
        self.z_root
    }
}

/// The bytes hashed for challenge `i`: the root followed by `i` as 8 big-endian bytes.
pub open spec fn challenge_input(root: Seq<u8>, i: int) -> Seq<u8> {
    root + be_bytes_64(i as u64)
}

/// Challenge `i` derived from a root: the first 16 bytes of the digest of
/// `challenge_input(root, i)`, read as a big-endian integer.
pub open spec fn challenge(root: Seq<u8>, i: int) -> Felt {
    Felt { val: be_value(sha256_of(challenge_input(root, i)).take(16)) as u128 }
}

/// The challenge vector of length `width` derived from a root.
pub open spec fn challenges(root: Seq<u8>, width: nat) -> Seq<Felt> {
    Seq::new(width, |i: int| challenge(root, i))
}

/// The elements of a list of matrices: each matrix flattened column after column, in order.
pub open spec fn elements_of(ms: Seq<Seq<Seq<Felt>>>) -> Seq<Felt> {
    concat(ms.map_values(|m: Seq<Seq<Felt>>| concat(m)))
}

/// The matrices of a list of matrices.
pub open spec fn mats_view(ms: &Vec<Vec<Vec<Felt>>>) -> Seq<Seq<Seq<Felt>>> {
    ms@.map_values(|m: Vec<Vec<Felt>>| mview(&m))
}

/// The square to extend: `width` columns of `width` field elements, and the code that
/// extends it.
pub struct DataSquare<E: LinearCode> {
    encoder: E,
    q1_cols: Vec<Vec<Felt>>,
    width: usize,
}

impl<E: LinearCode> DataSquare<E> {
    /// The code that extends the square.
    pub closed spec fn code(&self) -> E {
        self.encoder
    }

    /// The columns of the data square.
    pub closed spec fn q1(&self) -> Seq<Seq<Felt>> {
        mview(&self.q1_cols)
    }

    pub closed spec fn width_view(&self) -> nat {
        self.width as nat
    }

    /// The data square has `width` columns of `width` elements.
    pub closed spec fn wf(&self) -> bool {
        &&& is_square(mview(&self.q1_cols), self.width as nat)
        &&& 2 * self.width <= usize::MAX
    }

    /// The square whose columns are `q1_cols`. Refused, with the index of the first
    /// offending column, where a column's length differs from the number of columns.
    pub fn new(encoder: E, q1_cols: Vec<Vec<Felt>>) -> (r: Result<Self, Error>)
        requires
            2 * q1_cols.len() <= usize::MAX,
        ensures
            r is Ok <==> is_square(mview(&q1_cols), q1_cols.len() as nat),
            r matches Ok(ds) ==> ds.wf() && ds.q1() == mview(&q1_cols) && ds.width_view()
                == q1_cols.len(),
            r matches Err(e) ==> (e matches Error::Consistency { stage, index } && stage
                == Stage::Input && index < q1_cols.len() && q1_cols[index as int].len()
                != q1_cols.len()),
    {
        let width = q1_cols.len();
        let mut i: usize = 0;
        while i < width
            invariant
                i <= width,
                width == q1_cols.len(),
                forall|j: int| 0 <= j < i ==> #[trigger] mview(&q1_cols)[j].len() == width,
            decreases width - i,
        {
            assert(mview(&q1_cols)[i as int] == q1_cols@[i as int]@);
            if q1_cols[i].len() != width {
                return Err(Error::Consistency { stage: Stage::Input, index: i });
            }
            i = i + 1;
        }
        Ok(DataSquare { encoder, q1_cols, width })
    }

    /// A well-formed square has `width` columns of `width` elements.
    pub proof fn lemma_wf_square(&self)
        requires
            self.wf(),
        ensures
            is_square(self.q1(), self.width_view()),
            2 * self.width_view() <= usize::MAX,
    {
    }

    /// The number of columns, and of elements in each column.
    pub fn width(&self) -> (r: usize)
        ensures
            r == self.width_view(),
    {
        self.width
    }

    /// The challenge vector derived from a commitment root: one scalar per column index.
    pub fn create_dr(&self, tree_commitment: &[u8; 32]) -> (r: Vec<Felt>)
        ensures
            r@ == challenges(tree_commitment@, self.width_view()),
    {
        let mut dr: Vec<Felt> = Vec::new();
        let mut i: usize = 0;
        while i < self.width
            invariant
                i <= self.width,
                dr@ =~= challenges(tree_commitment@, self.width_view()).take(i as int),
            decreases self.width - i,
        {
            let mut input: Vec<u8> = Vec::new();
            let mut k: usize = 0;
            while k < 32
                invariant
                    k <= 32,
                    input@ =~= tree_commitment@.take(k as int),
                decreases 32 - k,
            {
                input.push(tree_commitment[k]);
                k = k + 1;
            }
            let mut index_bytes = u64_to_be_bytes(i as u64);
            input.append(&mut index_bytes);
            assert(input@ =~= challenge_input(tree_commitment@, i as int));
            let digest = sha256(&input);
            dr.push(Felt::new(u128_from_be_prefix(&digest)));
            i = i + 1;
        }
        dr
    }

    /// The codeword of `v`, checked: on success it is `v` followed by as many further
    /// elements. An encoder failure is reported as `Encoding`, a codeword that is not of
    /// that shape as `Consistency`, both with `stage` and `index`.
    pub fn encode_systematic(&self, v: &Vec<Felt>, stage: Stage, index: usize) -> (r: Result<
        Vec<Felt>,
        Error,
    >)
        ensures
            checked_view(r) == encode_outcome(self.code(), v@, stage, index),
    {
        match self.encoder.encode(v) {
            Ok(cw) => check_systematic(v, cw, stage, index),
            Err(cause) => Err(Error::Encoding { stage, index, cause }),
        }
    }

    /// The part of a checked codeword that follows the systematic prefix.
    fn extension_half(cw: &Vec<Felt>, n: usize) -> (r: Vec<Felt>)
        requires
            cw@.len() == 2 * n,
        ensures
            r@ == cw@.subrange(n as int, 2 * n),
    {
        let mut out: Vec<Felt> = Vec::new();
        let mut j: usize = n;
        while j < cw.len()
            invariant
                n <= j <= cw.len(),
                cw@.len() == 2 * n,
                out@ =~= cw@.subrange(n as int, j as int),
            decreases cw.len() - j,
        {
            out.push(cw[j]);
            j = j + 1;
        }
        out
    }

    /// For each of the `width` vectors of `vs`, each of `width` elements, the extension
    /// half of its checked codeword at `stage`; or the failure of the first that fails.
    fn encode_all(&self, vs: &Vec<Vec<Felt>>, stage: Stage) -> (r: Result<Vec<Vec<Felt>>, Error>)
        requires
            self.wf(),
            is_square(mview(vs), self.width_view()),
        ensures
            r matches Ok(ext) ==> encodes_to(self.code(), mview(vs), mview(&ext), stage)
                && is_square(mview(&ext), self.width_view()),
            r matches Err(e) ==> first_failure(self.code(), mview(vs), stage, e),
    {
        let w = self.width;
        let ghost code = self.code();
        let ghost vv = mview(vs);
        let mut out: Vec<Vec<Felt>> = Vec::new();
        let mut c: usize = 0;
        while c < w
            invariant
                c <= w,
                w == self.width,
                self.wf(),
                code == self.code(),
                vv == mview(vs),
                is_square(vv, w as nat),
                mview(&out).len() == c,
                all_len(mview(&out), w as nat),
                forall|k: int|
                    0 <= k < c ==> #[trigger] encode_outcome(code, vv[k], stage, k as usize)
                        == Ok::<Seq<Felt>, Error>(vv[k] + mview(&out)[k]),
            decreases w - c,
        {
            assert(vv[c as int] == vs@[c as int]@);
            match self.encode_systematic(&vs[c], stage, c) {
                Err(e) => {
                    proof {
                        assert forall|k: int| 0 <= k < c implies (#[trigger] encode_outcome(
                            code,
                            vv[k],
                            stage,
                            k as usize,
                        )) is Ok by {}
                        assert(encode_outcome(code, vv[c as int], stage, c as usize) == Err::<
                            Seq<Felt>,
                            Error,
                        >(e));
                    }
                    return Err(e);
                },
                Ok(cw) => {
                    let ext = Self::extension_half(&cw, w);
                    assert(cw@ =~= vv[c as int] + ext@);
                    let ghost prev = out@;
                    out.push(ext);
                    assert(out@ == prev.push(ext));
                    assert(mview(&out) =~= prev.map_values(|v: Vec<Felt>| v@).push(ext@));
                },
            }
            c = c + 1;
        }
        Ok(out)
    }

    /// The third quadrant: for each column of the data square, the extension half of
    /// its codeword.
    pub fn create_q3(&self) -> (r: Result<Vec<Vec<Felt>>, Error>)
        requires
            self.wf(),
        ensures
            r matches Ok(q3) ==> encodes_to(self.code(), self.q1(), mview(&q3), Stage::ThirdQuadrant)
                && is_square(mview(&q3), self.width_view()),
            r matches Err(e) ==> first_failure(self.code(), self.q1(), Stage::ThirdQuadrant, e),
    {
        self.encode_all(&self.q1_cols, Stage::ThirdQuadrant)
    }

    /// Scales column `i` of `matrix` by `dr[i]`, element by element.
    pub fn multiply_dr(&self, matrix: &mut Vec<Vec<Felt>>, dr: &Vec<Felt>)
        requires
            old(matrix)@.len() <= dr@.len(),
        ensures
            mview(final(matrix)) == scaled(self.code(), mview(old(matrix)), dr@),
    {
        let ghost orig = mview(old(matrix));
        let ghost target = scaled(self.code(), orig, dr@);
        let n = matrix.len();
        let mut i: usize = 0;
        while i < n
            invariant
                i <= n,
                n == orig.len(),
                n <= dr@.len(),
                matrix@.len() == n,
                orig == mview(old(matrix)),
                target == scaled(self.code(), orig, dr@),
                forall|k: int| 0 <= k < i ==> #[trigger] mview(matrix)[k] == target[k],
                forall|k: int| i <= k < n ==> #[trigger] mview(matrix)[k] == orig[k],
            decreases n - i,
        {
            assert(mview(matrix)[i as int] == matrix@[i as int]@);
            let mut col = copy_vec(&matrix[i]);
            let ghost before = col@;
            let mut j: usize = 0;
            while j < col.len()
                invariant
                    i < n,
                    n == orig.len(),
                    n <= dr@.len(),
                    before == orig[i as int],
                    target == scaled(self.code(), orig, dr@),
                    j <= col@.len(),
                    col@.len() == before.len(),
                    forall|k: int| 0 <= k < j ==> #[trigger] col@[k] == target[i as int][k],
                    forall|k: int| j <= k < col@.len() ==> #[trigger] col@[k] == before[k],
                decreases col@.len() - j,
            {
                let p = self.encoder.mul(col[j], dr[i]);
                col.set(j, p);
                j = j + 1;
            }
            assert(col@ =~= target[i as int]);
            let ghost prev = mview(matrix);
            let ghost prev_raw = matrix@;
            matrix.set(i, col);
            assert forall|k: int| 0 <= k < n implies #[trigger] mview(matrix)[k] == (if k == i {
                target[k]
            } else {
                prev[k]
            }) by {
                assert(mview(matrix)[k] == matrix@[k]@);
                assert(prev[k] == prev_raw[k]@);
                if k != i {
                    assert(matrix@[k] == prev_raw[k]);
                }
            }
            i = i + 1;
        }
        assert(mview(matrix) =~= target);
    }

    /// The rows of the extension of a scaled quadrant: each row of `column_data` encoded,
    /// cut to the extension half.
    pub(crate) fn extend_quadrant(&self, column_data: &Vec<Vec<Felt>>, stage: Stage) -> (r: Result<
        Vec<Vec<Felt>>,
        Error,
    >)
        requires
            self.wf(),
            is_square(mview(column_data), self.width_view()),
        ensures
            r matches Ok(q) ==> encodes_to(
                self.code(),
                transposed(mview(column_data), self.width_view()),
                mview(&q),
                stage,
            ) && is_square(mview(&q), self.width_view()),
            r matches Err(e) ==> first_failure(
                self.code(),
                transposed(mview(column_data), self.width_view()),
                stage,
                e,
            ),
    {
        proof {
            lemma_square_height(mview(column_data), self.width_view());
            lemma_transposed_square(mview(column_data), self.width_view());
        }
        let rows = transpose(column_data);
        self.encode_all(&rows, stage)
    }

    /// What holds of every square extended from this one: it has `2 * width` columns of
    /// `2 * width` elements and its rows are their transpose; its first quadrant is the
    /// data square; its first tree is built over the leaves of the transposes of the
    /// first and third quadrants, in that order; each root is the root of its tree; its
    /// challenge vector is the one derived from the first root; each column of the data
    /// square encodes to itself over the same column of the third quadrant; each row of
    /// the scaled first (third) quadrant encodes to itself followed by the same row of the
    /// second (fourth); and the second tree is built over the leaves of the scaled first
    /// quadrant, the rows of the second, the scaled third and the rows of the fourth.
    pub open spec fn extends_to(&self, eds: ExtendedDataSquare) -> bool {
        let w = self.width_view();
        let cols = eds.cols_view();
        &&& is_square(cols, 2 * w)
        &&& eds.rows_view() == transposed(cols, 2 * w)
        &&& quadrant(cols, 0, 0, w as int) == self.q1()
        &&& tree_leaves(eds.x_tree_view()) == leaves_of(
            concat(transposed(self.q1(), w)) + concat(transposed(quadrant(cols, 0, w as int, w as int), w)),
        )
        &&& eds.x_root_view() == merkle_root_of(tree_leaves(eds.x_tree_view()))
        &&& eds.z_root_view() == merkle_root_of(tree_leaves(eds.z_tree_view()))
        &&& eds.dr_view() == challenges(eds.x_root_view(), w)
        &&& encodes_to(self.code(), self.q1(), self.q3_of(eds), Stage::ThirdQuadrant)
        &&& encodes_to(
            self.code(),
            transposed(self.scaled_q1(eds), w),
            transposed(quadrant(cols, w as int, 0, w as int), w),
            Stage::SecondQuadrant,
        )
        &&& encodes_to(
            self.code(),
            transposed(self.scaled_q3(eds), w),
            transposed(quadrant(cols, w as int, w as int, w as int), w),
            Stage::FourthQuadrant,
        )
        &&& tree_leaves(eds.z_tree_view()) == leaves_of(
            concat(self.scaled_q1(eds)) + concat(transposed(quadrant(cols, w as int, 0, w as int), w))
                + concat(self.scaled_q3(eds)) + concat(
                transposed(quadrant(cols, w as int, w as int, w as int), w),
            ),
        )
    }

    /// The third quadrant of an extension: the lower half of its left columns.
    pub open spec fn q3_of(&self, eds: ExtendedDataSquare) -> Seq<Seq<Felt>> {
        quadrant(eds.cols_view(), 0, self.width_view() as int, self.width_view() as int)
    }

    /// The data square with each column scaled by its challenge.
    pub open spec fn scaled_q1(&self, eds: ExtendedDataSquare) -> Seq<Seq<Felt>> {
        scaled(self.code(), self.q1(), eds.dr_view())
    }

    /// The third quadrant with each column scaled by its challenge.
    pub open spec fn scaled_q3(&self, eds: ExtendedDataSquare) -> Seq<Seq<Felt>> {
        scaled(self.code(), self.q3_of(eds), eds.dr_view())
    }

    /// Extends the square: third quadrant, first commitment, challenge vector, scaled
    /// quadrants, second and fourth quadrants, second commitment, assembly. An empty
    /// square has nothing to commit to and is refused with `Commitment`.
    pub fn extend(&self) -> (r: Result<ExtendedDataSquare, Error>)
        requires
            self.wf(),
        ensures
            r matches Ok(eds) ==> self.extends_to(eds),
            self.width_view() == 0 ==> r == Err::<ExtendedDataSquare, Error>(Error::Commitment),
            self.width_view() > 0 ==> (r matches Err(e) ==> e is Encoding || e is Consistency),
            self.width_view() > 0 && systematic_at(self.code(), self.width_view()) ==> r is Ok,
    {
        let w = self.width;
        let ghost q1v = self.q1();
        let ghost code = self.code();
        proof {
            if systematic_at(code, w as nat) {
                lemma_no_failure(code, q1v, w as nat, Stage::ThirdQuadrant);
            }
        }
        let q3 = self.create_q3()?;
        proof {
            lemma_square_height(q1v, w as nat);
            lemma_square_height(mview(&q3), w as nat);
        }
        let t1 = transpose(&self.q1_cols);
        let t3 = transpose(&q3);
        let ghost tv1 = mview(&t1);
        let ghost tv3 = mview(&t3);
        let mut first: Vec<Vec<Vec<Felt>>> = Vec::new();
        first.push(t1);
        first.push(t3);
        proof {
            let parts = mats_view(&first).map_values(|m: Seq<Seq<Felt>>| concat(m));
            assert(mats_view(&first) =~= seq![tv1, tv3]);
            assert(parts =~= seq![concat(tv1), concat(tv3)]);
            reveal_with_fuel(concat, 3);
            assert(parts.drop_last().drop_last() =~= Seq::<Seq<Felt>>::empty());
            assert(elements_of(mats_view(&first)) =~= concat(tv1) + concat(tv3));
            if w > 0 {
                lemma_transposed_square(mview(&q3), w as nat);
                lemma_concat_last_len(tv3);
                assert(tv3.last().len() == w);
            } else {
                assert(tv1 =~= Seq::<Seq<Felt>>::empty());
                assert(tv3 =~= Seq::<Seq<Felt>>::empty());
            }
        }
        let x_tree = self.create_tree(&first)?;
        let x_root = match tree_root(&x_tree) {
            Some(root) => root,
            None => {
                return Err(Error::Commitment);
            },
        };
        let dr = self.create_dr(&x_root);

        let mut q1_dr = copy_matrix(&self.q1_cols);
        let mut q3_dr = copy_matrix(&q3);
        let ghost m1 = mview(&q1_dr);
        let ghost m3 = mview(&q3_dr);
        self.multiply_dr(&mut q1_dr, &dr);
        self.multiply_dr(&mut q3_dr, &dr);
        let ghost s1 = mview(&q1_dr);
        let ghost s3 = mview(&q3_dr);
        proof {
            assert forall|j: int| 0 <= j < w implies #[trigger] mview(&q1_dr)[j].len() == w
                && mview(&q3_dr)[j].len() == w by {
                assert(m1[j].len() == w);
                assert(m3[j].len() == w);
            }
            if systematic_at(code, w as nat) {
                lemma_transposed_square(s1, w as nat);
                lemma_transposed_square(s3, w as nat);
                lemma_no_failure(code, transposed(s1, w as nat), w as nat, Stage::SecondQuadrant);
                lemma_no_failure(code, transposed(s3, w as nat), w as nat, Stage::FourthQuadrant);
            }
        }
        let q2_rows = self.extend_quadrant(&q1_dr, Stage::SecondQuadrant)?;
        let q4_rows = self.extend_quadrant(&q3_dr, Stage::FourthQuadrant)?;
        let ghost r2 = mview(&q2_rows);
        let ghost r4 = mview(&q4_rows);
        proof {
            lemma_square_height(mview(&q2_rows), w as nat);
            lemma_square_height(mview(&q4_rows), w as nat);
            lemma_transposed_square(mview(&q2_rows), w as nat);
            lemma_transposed_square(mview(&q4_rows), w as nat);
        }
        let q2 = transpose(&q2_rows);
        let q4 = transpose(&q4_rows);
        let ghost last = mview(&q4_rows);
        let mut second: Vec<Vec<Vec<Felt>>> = Vec::new();
        second.push(q1_dr);
        second.push(q2_rows);
        second.push(q3_dr);
        second.push(q4_rows);
        proof {
            let parts = mats_view(&second).map_values(|m: Seq<Seq<Felt>>| concat(m));
            assert(mats_view(&second) =~= seq![s1, r2, s3, r4]);
            assert(parts =~= seq![concat(s1), concat(r2), concat(s3), concat(r4)]);
            reveal_with_fuel(concat, 5);
            assert(parts.drop_last().drop_last().drop_last().drop_last() =~= Seq::<
                Seq<Felt>,
            >::empty());
            assert(elements_of(mats_view(&second)) =~= concat(s1) + concat(r2) + concat(s3)
                + concat(r4));
            assert(parts.last() == concat(last));
            lemma_concat_last_len(last);
            lemma_concat_last_len(parts);
        }
        let z_tree = self.create_tree(&second)?;
        let z_root = match tree_root(&z_tree) {
            Some(root) => root,
            None => {
                return Err(Error::Commitment);
            },
        };
        let q1 = copy_matrix(&self.q1_cols);
        let eds = ExtendedDataSquare::from_cols(
            q1,
            q2,
            q3,
            q4,
            dr,
            x_tree,
            x_root,
            z_tree,
            z_root,
        );
        proof {
            lemma_assembled_quadrants(q1v, mview(&q2), mview(&q3), mview(&q4), w as nat);
            lemma_transpose_twice(r2, w as nat);
            lemma_transpose_twice(r4, w as nat);
        }
        Ok(eds)
    }

    /// The hash tree over the given matrices, flattened in order, each column after
    /// column, with one leaf per element. There is none over no elements.
    pub fn create_tree(&self, matrices: &Vec<Vec<Vec<Felt>>>) -> (r: Result<CommitmentTree, Error>)
        ensures
            elements_of(mats_view(matrices)).len() == 0 <==> r is Err,
            r matches Ok(t) ==> tree_leaves(t) == leaves_of(elements_of(mats_view(matrices))),
            r matches Err(e) ==> e == Error::Commitment,
    {
        let ghost parts = mats_view(matrices).map_values(|m: Seq<Seq<Felt>>| concat(m));
        let mut elems: Vec<Felt> = Vec::new();
        let mut i: usize = 0;
        while i < matrices.len()
            invariant
                i <= matrices.len(),
                parts == mats_view(matrices).map_values(|m: Seq<Seq<Felt>>| concat(m)),
                elems@ == concat(parts.take(i as int)),
            decreases matrices.len() - i,
        {
            let mut part = flatten(&matrices[i]);
            proof {
                assert(parts[i as int] == concat(mview(&matrices@[i as int])));
                lemma_concat_push(parts, i as int);
            }
            elems.append(&mut part);
            i = i + 1;
        }
        assert(parts.take(matrices.len() as int) =~= parts);
        match commit_elements(&elems) {
            Ok((tree, _)) => Ok(tree),
            Err(e) => Err(e),
        }
    }
}

/// A code gives each vector one codeword, so the extension halves are unique.
pub proof fn lemma_encodes_unique<E: LinearCode>(
    code: E,
    vs: Seq<Seq<Felt>>,
    a: Seq<Seq<Felt>>,
    b: Seq<Seq<Felt>>,
    stage: Stage,
)
    requires
        encodes_to(code, vs, a, stage),
        encodes_to(code, vs, b, stage),
    ensures
        a == b,
{
    assert forall|i: int| 0 <= i < vs.len() implies #[trigger] a[i] =~= b[i] by {
        let x = vs[i] + a[i];
        let y = vs[i] + b[i];
        assert(encode_outcome(code, vs[i], stage, i as usize) == Ok::<Seq<Felt>, Error>(x));
        assert(encode_outcome(code, vs[i], stage, i as usize) == Ok::<Seq<Felt>, Error>(y));
        assert(a[i] =~= x.subrange(vs[i].len() as int, x.len() as int));
        assert(b[i] =~= y.subrange(vs[i].len() as int, y.len() as int));
    }
    assert(a =~= b);
}

/// A square of side `2 * w` is its four quadrants put together.
pub proof fn lemma_square_from_quadrants(cols: Seq<Seq<Felt>>, w: nat)
    requires
        is_square(cols, 2 * w),
    ensures
        cols == assembled(
            quadrant(cols, 0, 0, w as int),
            quadrant(cols, w as int, 0, w as int),
            quadrant(cols, 0, w as int, w as int),
            quadrant(cols, w as int, w as int, w as int),
        ),
        is_square(quadrant(cols, w as int, 0, w as int), w),
        is_square(quadrant(cols, w as int, w as int, w as int), w),
{
    let a = assembled(
        quadrant(cols, 0, 0, w as int),
        quadrant(cols, w as int, 0, w as int),
        quadrant(cols, 0, w as int, w as int),
        quadrant(cols, w as int, w as int, w as int),
    );
    assert forall|c: int| 0 <= c < 2 * w implies #[trigger] a[c] =~= cols[c] by {
        assert(cols[c].len() == 2 * w);
    }
    assert(a =~= cols);
    assert forall|c: int| 0 <= c < w implies #[trigger] quadrant(cols, w as int, 0, w as int)[c].len()
        == w && quadrant(cols, w as int, w as int, w as int)[c].len() == w by {
        assert(cols[w + c].len() == 2 * w);
    }
}

/// Extending one square twice gives the same result both times: the same first and
/// second roots, the same challenge vector, and the same columns and rows.
pub proof fn lemma_extension_determined<E: LinearCode>(
    ds: &DataSquare<E>,
    e1: ExtendedDataSquare,
    e2: ExtendedDataSquare,
)
    requires
        ds.extends_to(e1),
        ds.extends_to(e2),
    ensures
        e1.x_root_view() == e2.x_root_view(),
        e1.dr_view() == e2.dr_view(),
        e1.z_root_view() == e2.z_root_view(),
        e1.cols_view() == e2.cols_view(),
        e1.rows_view() == e2.rows_view(),
{
    let w = ds.width_view();
    let wi = w as int;
    let c1 = e1.cols_view();
    let c2 = e2.cols_view();
    lemma_encodes_unique(ds.code(), ds.q1(), ds.q3_of(e1), ds.q3_of(e2), Stage::ThirdQuadrant);
    lemma_encodes_unique(
        ds.code(),
        transposed(ds.scaled_q1(e1), w),
        transposed(quadrant(c1, wi, 0, wi), w),
        transposed(quadrant(c2, wi, 0, wi), w),
        Stage::SecondQuadrant,
    );
    lemma_encodes_unique(
        ds.code(),
        transposed(ds.scaled_q3(e1), w),
        transposed(quadrant(c1, wi, wi, wi), w),
        transposed(quadrant(c2, wi, wi, wi), w),
        Stage::FourthQuadrant,
    );
    lemma_square_from_quadrants(c1, w);
    lemma_square_from_quadrants(c2, w);
    lemma_transpose_twice(quadrant(c1, wi, 0, wi), w);
    lemma_transpose_twice(quadrant(c2, wi, 0, wi), w);
    lemma_transpose_twice(quadrant(c1, wi, wi, wi), w);
    lemma_transpose_twice(quadrant(c2, wi, wi, wi), w);
}

/// Each of the first `width` columns of an extension is the codeword of the same column
/// of the data square, which it holds unchanged as its first `width` elements.
pub proof fn lemma_left_columns_are_codewords<E: LinearCode>(ds: &DataSquare<E>, eds: ExtendedDataSquare)
    requires
        ds.extends_to(eds),
    ensures
        forall|c: int|
            0 <= c < ds.width_view() ==> #[trigger] ds.code().spec_encode(ds.q1()[c]) == Ok::<
                Seq<Felt>,
                EncodeError,
            >(eds.cols_view()[c]) && eds.cols_view()[c].take(ds.width_view() as int) == ds.q1()[c],
{
    let w = ds.width_view();
    let cols = eds.cols_view();
    assert forall|c: int| 0 <= c < w implies #[trigger] ds.code().spec_encode(ds.q1()[c]) == Ok::<
        Seq<Felt>,
        EncodeError,
    >(cols[c]) && cols[c].take(w as int) == ds.q1()[c] by {
        assert(cols[c].len() == 2 * w);
        assert(encode_outcome(ds.code(), ds.q1()[c], Stage::ThirdQuadrant, c as usize) == Ok::<
            Seq<Felt>,
            Error,
        >(ds.q1()[c] + ds.q3_of(eds)[c]));
        assert(quadrant(cols, 0, 0, w as int)[c] == ds.q1()[c]);
        assert(cols[c] =~= ds.q1()[c] + ds.q3_of(eds)[c]);
        assert(cols[c].take(w as int) =~= ds.q1()[c]);
    }
}

} // verus!
