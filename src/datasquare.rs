use crate::error::Error;
use crate::matrix::{all_len, is_square, transposed};
use vstd::prelude::*;

verus! {

/// The direction in which a square's shares are grouped.
#[derive(Clone, Copy, Debug, PartialEq, Eq, Structural)]
pub enum Axis {
    Row,
    Col,
}

/// Shares grouped along one axis: `data[i][j]` is share `j` of row (or column) `i`.
pub struct Square {
    pub data: Vec<Vec<Vec<u8>>>,
    pub roots: Vec<Vec<u8>>,
    pub axis: Axis,
}

/// The shares of a grouped square, as byte strings.
pub open spec fn shares_view(v: &Vec<Vec<Vec<u8>>>) -> Seq<Seq<Seq<u8>>> {
    v@.map_values(|line: Vec<Vec<u8>>| line@.map_values(|s: Vec<u8>| s@))
}

/// `w * w`, the number of shares of a square of side `w`.
pub open spec fn square_of(w: nat) -> nat {
    w * w
}

/// `n` shares can be laid out as a square.
pub open spec fn is_perfect_square(n: nat) -> bool {
    exists|w: nat| #[trigger] square_of(w) == n
}

impl Square {
    /// A square of the given shares with no roots yet.
    pub fn new(data: Vec<Vec<Vec<u8>>>, axis: Axis) -> (r: Self)
        ensures
            r.data == data,
            r.roots@.len() == 0,
            r.axis == axis,
    {
        Square { data, roots: Vec::new(), axis }
    }
}

/// A square of byte shares held both row by row and column by column.
pub struct DataSquare {
    pub row_data: Square,
    pub col_data: Square,
    pub width: usize,
    pub share_size: usize,
}

/// A copy of a share.
fn copy_share(s: &Vec<u8>) -> (r: Vec<u8>)
    ensures
        r@ == s@,
{
    let mut out: Vec<u8> = Vec::new();
    let mut i: usize = 0;
    while i < s.len()
        invariant
            i <= s.len(),
            out@ =~= s@.take(i as int),
        decreases s.len() - i,
    {
        out.push(s[i]);
        i = i + 1;
    }
    assert(s@.take(s.len() as int) =~= s@);
    out
}

/// The columns of a square of shares given by its rows.
fn transpose_shares(rows: &Vec<Vec<Vec<u8>>>, w: usize) -> (r: Vec<Vec<Vec<u8>>>)
    requires
        is_square(shares_view(rows), w as nat),
    ensures
        shares_view(&r) == transposed(shares_view(rows), w as nat),
{
    let ghost t = transposed(shares_view(rows), w as nat);
    let mut cols: Vec<Vec<Vec<u8>>> = Vec::new();
    let mut c: usize = 0;
    while c < w
        invariant
            c <= w,
            is_square(shares_view(rows), w as nat),
            t == transposed(shares_view(rows), w as nat),
            shares_view(&cols) =~= t.take(c as int),
        decreases w - c,
    {
        let mut col: Vec<Vec<u8>> = Vec::new();
        let mut r: usize = 0;
        while r < w
            invariant
                c < w,
                r <= w,
                is_square(shares_view(rows), w as nat),
                t == transposed(shares_view(rows), w as nat),
                col@.map_values(|s: Vec<u8>| s@) =~= t[c as int].take(r as int),
            decreases w - r,
        {
            assert(shares_view(rows)[r as int] == rows@[r as int]@.map_values(|s: Vec<u8>| s@));
            assert(shares_view(rows)[r as int].len() == w);
            let s = copy_share(&rows[r][c]);
            let ghost prev = col@;
            col.push(s);
            assert(col@ == prev.push(s));
            assert(col@.map_values(|s: Vec<u8>| s@) =~= prev.map_values(|s: Vec<u8>| s@).push(s@));
            r = r + 1;
        }
        assert(col@.map_values(|s: Vec<u8>| s@) =~= t[c as int]);
        let ghost prev = cols@;
        cols.push(col);
        assert(cols@ == prev.push(col));
        assert(shares_view(&cols) =~= prev.map_values(
            |line: Vec<Vec<u8>>| line@.map_values(|s: Vec<u8>| s@),
        ).push(col@.map_values(|s: Vec<u8>| s@)));
        c = c + 1;
    }
    cols
}

/// Below the integer square root, squares stay below `n`; from it on, they reach `n`.
proof fn lemma_not_square(n: nat, w: nat)
    requires
        w == 0 || (w - 1) * (w - 1) < n,
        w * w > n,
    ensures
        !is_perfect_square(n),
{
    assert forall|k: nat| #[trigger] square_of(k) != n by {
        if k < w {
            assert(k * k <= (w - 1) * (w - 1)) by (nonlinear_arith)
                requires
                    k < w,
                    w >= 1,
            ;
        } else {
            assert(k * k >= w * w) by (nonlinear_arith)
                requires
                    k >= w,
            ;
        }
    }
}

proof fn lemma_index_in_square(r: nat, c: nat, w: nat)
    requires
        r < w,
        c < w,
    ensures
        r * w + c < w * w,
{
    assert(r * w + c < w * w) by (nonlinear_arith)
        requires
            r < w,
            c < w,
    ;
}

/// The share at row `a`, column `b` of a square of side `w` with rows `rows`, grown with
/// `filler` on the right and below.
pub open spec fn extended_share(rows: Seq<Seq<Seq<u8>>>, w: int, filler: Seq<u8>, a: int, b: int) -> Seq<u8> {
    if a < w && b < w {
        rows[a][b]
    } else {
        filler
    }
}

impl DataSquare {
    /// The rows of the square.
    pub open spec fn rows_view(&self) -> Seq<Seq<Seq<u8>>> {
        shares_view(&self.row_data.data)
    }

    /// The columns of the square.
    pub open spec fn cols_view(&self) -> Seq<Seq<Seq<u8>>> {
        shares_view(&self.col_data.data)
    }

    /// A square of side `width` held both ways: column `c` holds share `c` of each row,
    /// and every share has `share_size` bytes.
    pub open spec fn wf(&self) -> bool {
        let w = self.width as nat;
        &&& is_square(self.rows_view(), w)
        &&& is_square(self.cols_view(), w)
        &&& forall|r: int, c: int|
            0 <= r < w && 0 <= c < w ==> #[trigger] self.cols_view()[c][r] == self.rows_view()[r][c]
        &&& forall|r: int, c: int|
            0 <= r < w && 0 <= c < w ==> (#[trigger] self.rows_view()[r][c]).len() == self.share_size
        &&& self.row_data.axis == Axis::Row
        &&& self.col_data.axis == Axis::Col
    }

    /// Grows the square by `extended_width` rows and columns of `filler_share`: the
    /// shares already there keep their places, and every new place holds the filler. Refused
    /// with `Construction`, the square unchanged, where the filler's size differs from
    /// the shares'.
    pub fn extend_square(&mut self, extended_width: usize, filler_share: Vec<u8>) -> (r: Result<(), Error>)
        requires
            old(self).wf(),
            old(self).width + extended_width <= usize::MAX,
        ensures
            r is Err <==> filler_share@.len() != old(self).share_size,
            r matches Err(e) ==> e == Error::Construction && *final(self) == *old(self),
            r is Ok ==> {
                &&& final(self).wf()
                &&& final(self).width == old(self).width + extended_width
                &&& final(self).share_size == old(self).share_size
                &&& forall|a: int, b: int|
                    0 <= a < final(self).width && 0 <= b < final(self).width
                        ==> #[trigger] final(self).rows_view()[a][b] == extended_share(
                        old(self).rows_view(),
                        old(self).width as int,
                        filler_share@,
                        a,
                        b,
                    )
            },
    {
        if filler_share.len() != self.share_size {
            return Err(Error::Construction);
        }
        let old_w = self.width;
        let new_w = old_w + extended_width;
        let ghost old_rows = self.rows_view();
        let mut rows: Vec<Vec<Vec<u8>>> = Vec::new();
        let mut r: usize = 0;
        while r < new_w
            invariant
                r <= new_w,
                new_w == old_w + extended_width,
                old_w == self.width,
                self.wf(),
                old_rows == self.rows_view(),
                filler_share@.len() == self.share_size,
                shares_view(&rows).len() == r,
                all_len(shares_view(&rows), new_w as nat),
                forall|a: int, b: int|
                    0 <= a < r && 0 <= b < new_w ==> #[trigger] shares_view(&rows)[a][b]
                        == extended_share(old_rows, old_w as int, filler_share@, a, b),
            decreases new_w - r,
        {
            let mut row: Vec<Vec<u8>> = Vec::new();
            let mut c: usize = 0;
            while c < new_w
                invariant
                    r < new_w,
                    c <= new_w,
                    new_w == old_w + extended_width,
                    old_w == self.width,
                    self.wf(),
                    old_rows == self.rows_view(),
                    row@.len() == c,
                    forall|b: int|
                        0 <= b < c ==> (#[trigger] row@[b])@ == extended_share(
                            old_rows,
                            old_w as int,
                            filler_share@,
                            r as int,
                            b,
                        ),
                decreases new_w - c,
            {
                let s = if r < old_w && c < old_w {
                    assert(old_rows[r as int] == self.row_data.data@[r as int]@.map_values(
                        |s: Vec<u8>| s@,
                    ));
                    assert(old_rows[r as int].len() == old_w);
                    copy_share(&self.row_data.data[r][c])
                } else {
                    copy_share(&filler_share)
                };
                row.push(s);
                c = c + 1;
            }
            let ghost prev = rows@;
            rows.push(row);
            assert(rows@ == prev.push(row));
            assert(shares_view(&rows) =~= prev.map_values(
                |line: Vec<Vec<u8>>| line@.map_values(|s: Vec<u8>| s@),
            ).push(row@.map_values(|s: Vec<u8>| s@)));
            r = r + 1;
        }
        let cols = transpose_shares(&rows, new_w);
        self.row_data = Square::new(rows, Axis::Row);
        self.col_data = Square::new(cols, Axis::Col);
        self.width = new_w;
        Ok(())
    }

    /// Lays out `data` as a square, row after row: share `r * width + c` stands in row `r`
    /// and column `c`. Refused with `Construction` where the number of shares is not a
    /// perfect square or a share does not have `share_size` bytes.
    pub fn new(data: Vec<Vec<u8>>, share_size: usize) -> (r: Result<Self, Error>)
        ensures
            r is Ok <==> is_perfect_square(data@.len()) && forall|i: int|
                0 <= i < data@.len() ==> (#[trigger] data@[i]).len() == share_size,
            r matches Err(e) ==> e == Error::Construction,
            r matches Ok(ds) ==> {
                &&& ds.wf()
                &&& ds.share_size == share_size
                &&& ds.width * ds.width == data@.len()
                &&& ds.row_data.roots@.len() == 0
                &&& ds.col_data.roots@.len() == 0
                &&& forall|i: int, j: int|
                    0 <= i < ds.width && 0 <= j < ds.width ==> #[trigger] ds.rows_view()[i][j]
                        == data@[i * ds.width + j]@
            },
    {
        let n = data.len();
        let mut w: usize = 0;
        loop
            invariant
                w <= n,
                w == 0 || (w - 1) * (w - 1) < n,
            ensures
                w <= n,
                w == 0 || (w - 1) * (w - 1) < n,
                w * w >= n,
            decreases n - w,
        {
            assert((w as int) * (w as int) <= u128::MAX) by (nonlinear_arith)
                requires
                    w <= usize::MAX,
            ;
            if (w as u128) * (w as u128) >= n as u128 {
                break;
            }
            assert(w < n) by (nonlinear_arith)
                requires
                    w * w < n,
            ;
            w = w + 1;
        }
        assert((w as int) * (w as int) <= u128::MAX) by (nonlinear_arith)
            requires
                w <= usize::MAX,
        ;
        if (w as u128) * (w as u128) != n as u128 {
            proof {
                lemma_not_square(n as nat, w as nat);
            }
            return Err(Error::Construction);
        }
        let mut i: usize = 0;
        while i < n
            invariant
                i <= n,
                n == data@.len(),
                forall|j: int| 0 <= j < i ==> (#[trigger] data@[j]).len() == share_size,
            decreases n - i,
        {
            if data[i].len() != share_size {
                return Err(Error::Construction);
            }
            i = i + 1;
        }
        assert(square_of(w as nat) == n);

        let mut rows: Vec<Vec<Vec<u8>>> = Vec::new();
        let mut r: usize = 0;
        while r < w
            invariant
                r <= w,
                w * w == n,
                n == data@.len(),
                forall|j: int| 0 <= j < n ==> (#[trigger] data@[j]).len() == share_size,
                shares_view(&rows).len() == r,
                forall|a: int, b: int|
                    0 <= a < r && 0 <= b < w ==> #[trigger] shares_view(&rows)[a][b] == data@[a * w + b]@,
                all_len(shares_view(&rows), w as nat),
            decreases w - r,
        {
            let mut row: Vec<Vec<u8>> = Vec::new();
            let mut c: usize = 0;
            while c < w
                invariant
                    r < w,
                    c <= w,
                    w * w == n,
                    n == data@.len(),
                    row@.len() == c,
                    forall|b: int| 0 <= b < c ==> (#[trigger] row@[b])@ == data@[r * w + b]@,
                decreases w - c,
            {
                proof {
                    lemma_index_in_square(r as nat, c as nat, w as nat);
                }
                let s = copy_share(&data[r * w + c]);
                row.push(s);
                c = c + 1;
            }
            let ghost prev = rows@;
            rows.push(row);
            assert(rows@ == prev.push(row));
            assert(shares_view(&rows) =~= prev.map_values(
                |line: Vec<Vec<u8>>| line@.map_values(|s: Vec<u8>| s@),
            ).push(row@.map_values(|s: Vec<u8>| s@)));
            r = r + 1;
        }
        let cols = transpose_shares(&rows, w);
        let ds = DataSquare {
            row_data: Square::new(rows, Axis::Row),
            col_data: Square::new(cols, Axis::Col),
            width: w,
            share_size,
        };
        assert forall|a: int, b: int| 0 <= a < w && 0 <= b < w implies (
            #[trigger] ds.rows_view()[a][b]).len() == share_size by {
            lemma_index_in_square(a as nat, b as nat, w as nat);
        }
        Ok(ds)
    }
}

/// The two views of a well-formed square agree: its rows transposed are its columns, and
/// its columns transposed are its rows.
pub proof fn lemma_layout_round_trip(ds: &DataSquare)
    requires
        ds.wf(),
    ensures
        transposed(ds.rows_view(), ds.width as nat) == ds.cols_view(),
        transposed(ds.cols_view(), ds.width as nat) == ds.rows_view(),
{
    let w = ds.width as nat;
    let rows = ds.rows_view();
    let cols = ds.cols_view();
    assert forall|c: int| 0 <= c < w implies #[trigger] transposed(rows, w)[c] =~= cols[c] by {
        assert(cols[c].len() == w);
        assert forall|r: int| 0 <= r < w implies transposed(rows, w)[c][r] == cols[c][r] by {
            assert(cols[c][r] == rows[r][c]);
        }
    }
    assert forall|r: int| 0 <= r < w implies #[trigger] transposed(cols, w)[r] =~= rows[r] by {
        assert(rows[r].len() == w);
        assert forall|c: int| 0 <= c < w implies transposed(cols, w)[r][c] == rows[r][c] by {
            assert(cols[c][r] == rows[r][c]);
        }
    }
    assert(transposed(rows, w) =~= cols);
    assert(transposed(cols, w) =~= rows);
}

} // verus!
