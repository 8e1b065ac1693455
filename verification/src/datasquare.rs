//! The data square: shares that may be missing, kept row by row and column
//! by column, with cached merkle roots of its rows and columns.
use vstd::prelude::*;
use crate::shares::{
    all_present, copy_opt_share, copy_share, copy_shares, exact_sqrt, is_perfect_square,
    opt_share_view, opt_shares_view, shares_view, square_root, unwrap_all,
};
use crate::traits::Tree;
use crate::tree::{merkle_root, new_default_tree, DefaultTree};

verus! {

broadcast use vstd::seq_lib::group_seq_properties;

/// The two axes of a square.
#[derive(Debug, Clone, Copy, PartialEq, Eq, Structural)]
pub enum Axis {
    Row,
    Col,
}

/// Errors of the data square operations.
#[derive(Debug)]
pub enum SquareError {
    NotSquareNumber,
    UnevenChunks,
    FillerChunkSizeMismatch,
    InvalidChunkSize(String),
    RowSliceOutOfBounds { row: usize, from: usize, length: usize, width: usize },
    ColSliceOutOfBounds { from: usize, col: usize, length: usize, width: usize },
    CellAlreadySet { row: usize, col: usize },
    CellChunkSizeMismatch { chunk_size: usize, expected_size: usize },
    IncompleteAxis { axis: Axis },
    UnrepairableDataSquare,
    ReedSolomonError(String),
    TooManyChunks,
    InvalidEdsWidth { width: usize },
}

/// What an error says, apart from the text of its message.
#[derive(Debug, Clone, Copy, PartialEq, Eq, Structural)]
pub enum SquareErrorKind {
    NotSquareNumber,
    UnevenChunks,
    FillerChunkSizeMismatch,
    InvalidChunkSize,
    RowSliceOutOfBounds { row: usize, from: usize, length: usize, width: usize },
    ColSliceOutOfBounds { from: usize, col: usize, length: usize, width: usize },
    CellAlreadySet { row: usize, col: usize },
    CellChunkSizeMismatch { chunk_size: usize, expected_size: usize },
    IncompleteAxis { axis: Axis },
    UnrepairableDataSquare,
    ReedSolomonError,
    TooManyChunks,
    InvalidEdsWidth { width: usize },
}

impl SquareError {
    /// The kind of the error, with its numeric fields.
    pub open spec fn kind(&self) -> SquareErrorKind {
        match self {
            SquareError::NotSquareNumber => SquareErrorKind::NotSquareNumber,
            SquareError::UnevenChunks => SquareErrorKind::UnevenChunks,
            SquareError::FillerChunkSizeMismatch => SquareErrorKind::FillerChunkSizeMismatch,
            SquareError::InvalidChunkSize(_) => SquareErrorKind::InvalidChunkSize,
            SquareError::RowSliceOutOfBounds { row, from, length, width } => SquareErrorKind::RowSliceOutOfBounds {
                row: *row,
                from: *from,
                length: *length,
                width: *width,
            },
            SquareError::ColSliceOutOfBounds { from, col, length, width } => SquareErrorKind::ColSliceOutOfBounds {
                from: *from,
                col: *col,
                length: *length,
                width: *width,
            },
            SquareError::CellAlreadySet { row, col } => SquareErrorKind::CellAlreadySet { row: *row, col: *col },
            SquareError::CellChunkSizeMismatch { chunk_size, expected_size } => SquareErrorKind::CellChunkSizeMismatch {
                chunk_size: *chunk_size,
                expected_size: *expected_size,
            },
            SquareError::IncompleteAxis { axis } => SquareErrorKind::IncompleteAxis { axis: *axis },
            SquareError::UnrepairableDataSquare => SquareErrorKind::UnrepairableDataSquare,
            SquareError::ReedSolomonError(_) => SquareErrorKind::ReedSolomonError,
            SquareError::TooManyChunks => SquareErrorKind::TooManyChunks,
            SquareError::InvalidEdsWidth { width } => SquareErrorKind::InvalidEdsWidth { width: *width },
        }
    }
}

/// Builds the merkle tree that computes the root of a row or a column.
#[derive(Debug, Clone, Copy)]
pub struct TreeConstructorFn {
    unused: (),
}

impl TreeConstructorFn {
    /// A new empty tree for the given axis and index.
    pub fn create(&self, axis: Axis, index: usize) -> (t: DefaultTree)
        ensures
            t.leaves() == Seq::<Seq<u8>>::empty(),
    {
        new_default_tree()
    }
}

/// The constructor of default merkle trees.
pub fn new_default_tree_constructor() -> TreeConstructorFn {
    TreeConstructorFn { unused: () }
}

/// A square of shares: `w` rows of `w` shares that may be missing.
pub open spec fn opt_square_shape(m: Seq<Seq<Option<Seq<u8>>>>, w: nat) -> bool {
    &&& m.len() == w
    &&& forall|r: int| 0 <= r < w ==> (#[trigger] m[r]).len() == w
}

/// Every present share of the sequence has `size` bytes.
pub open spec fn sizes_ok(v: Seq<Option<Seq<u8>>>, size: nat) -> bool {
    forall|i: int| 0 <= i < v.len() && (#[trigger] v[i]) is Some ==> v[i]->0.len() == size
}

/// Column `c` of a square of shares.
pub open spec fn opt_column(m: Seq<Seq<Option<Seq<u8>>>>, c: int) -> Seq<Option<Seq<u8>>> {
    Seq::new(m.len(), |r: int| m[r][c])
}

/// The square of width `w` read row by row from `data`.
pub open spec fn row_major(data: Seq<Option<Seq<u8>>>, w: nat) -> Seq<Seq<Option<Seq<u8>>>> {
    Seq::new(w, |r: int| Seq::new(w, |c: int| data[r * w + c]))
}

/// The merkle root of an axis whose shares are all present.
pub open spec fn axis_root(v: Seq<Option<Seq<u8>>>) -> Seq<u8> {
    merkle_root(unwrap_all(v))
}

/// The roots of the rows of a square whose rows are all complete.
pub open spec fn rows_roots(m: Seq<Seq<Option<Seq<u8>>>>) -> Seq<Seq<u8>> {
    Seq::new(m.len(), |i: int| axis_root(m[i]))
}

/// The roots of the columns of a square of width `w` whose columns are all complete.
pub open spec fn cols_roots(m: Seq<Seq<Option<Seq<u8>>>>, w: nat) -> Seq<Seq<u8>> {
    Seq::new(w, |j: int| axis_root(opt_column(m, j)))
}

/// Every row of the square is complete.
pub open spec fn rows_complete(m: Seq<Seq<Option<Seq<u8>>>>) -> bool {
    forall|i: int| 0 <= i < m.len() ==> all_present(#[trigger] m[i])
}

/// Every column of the square of width `w` is complete.
pub open spec fn cols_complete(m: Seq<Seq<Option<Seq<u8>>>>, w: nat) -> bool {
    forall|j: int| 0 <= j < w ==> all_present(#[trigger] opt_column(m, j))
}

/// The shares of a square held as vectors.
pub open spec fn opt_matrix_view(m: Seq<Vec<Option<Vec<u8>>>>) -> Seq<Seq<Option<Seq<u8>>>> {
    m.map_values(|row: Vec<Option<Vec<u8>>>| opt_shares_view(row@))
}

/// DataSquare stores all data for an original data square (ODS) or extended
/// data square (EDS). Data is duplicated in both row-major and column-major
/// order in order to be able to provide zero-allocation column slices.
pub struct DataSquare {
    square_row: Vec<Vec<Option<Vec<u8>>>>,
    square_col: Vec<Vec<Option<Vec<u8>>>>,
    width: usize,
    share_size: usize,
    row_roots: Option<Vec<Vec<u8>>>,
    col_roots: Option<Vec<Vec<u8>>>,
    create_tree_fn: TreeConstructorFn,
}

impl View for DataSquare {
    type V = Seq<Seq<Option<Seq<u8>>>>;

    closed spec fn view(&self) -> Seq<Seq<Option<Seq<u8>>>> {
        opt_matrix_view(self.square_row@)
    }
}

impl DataSquare {
    /// The width of the square.
    pub closed spec fn spec_width(&self) -> nat {
        self.width as nat
    }

    /// The size of every share.
    pub closed spec fn spec_share_size(&self) -> nat {
        self.share_size as nat
    }

    /// The cached roots of the rows, if computed since the last change.
    pub closed spec fn cached_row_roots(&self) -> Option<Seq<Seq<u8>>> {
        match self.row_roots {
            Some(r) => Some(shares_view(r@)),
            None => None,
        }
    }

    /// The cached roots of the columns, if computed since the last change.
    pub closed spec fn cached_col_roots(&self) -> Option<Seq<Seq<u8>>> {
        match self.col_roots {
            Some(r) => Some(shares_view(r@)),
            None => None,
        }
    }

    /// The internal invariant: both copies of the square agree, every present
    /// share has the share size, and cached roots are the roots of the square.
    pub closed spec fn wf(&self) -> bool {
        &&& self.square_row.len() == self.width
        &&& forall|r: int| 0 <= r < self.width ==> (#[trigger] self.square_row@[r]).len() == self.width
        &&& self.square_col.len() == self.width
        &&& forall|c: int| 0 <= c < self.width ==> (#[trigger] self.square_col@[c]).len() == self.width
        &&& forall|r: int, c: int|
            0 <= r < self.width && 0 <= c < self.width ==> opt_share_view(
                #[trigger] self.square_col@[c]@[r],
            ) == opt_share_view(#[trigger] self.square_row@[r]@[c])
        &&& forall|r: int| 0 <= r < self.width ==> sizes_ok(#[trigger] self@[r], self.share_size as nat)
        &&& self.cached_row_roots() matches Some(roots) ==> rows_complete(self@) && roots == rows_roots(self@)
        &&& self.cached_col_roots() matches Some(roots) ==> cols_complete(self@, self.width as nat) && roots
            == cols_roots(self@, self.width as nat)
    }

    /// What a well-formed square guarantees to its users.
    pub proof fn lemma_wf(&self)
        requires
            self.wf(),
        ensures
            opt_square_shape(self@, self.spec_width()),
            forall|r: int| 0 <= r < self.spec_width() ==> sizes_ok(#[trigger] self@[r], self.spec_share_size()),
            self.cached_row_roots() matches Some(roots) ==> rows_complete(self@) && roots == rows_roots(self@),
            self.cached_col_roots() matches Some(roots) ==> cols_complete(self@, self.spec_width()) && roots
                == cols_roots(self@, self.spec_width()),
    {
        assert forall|r: int| 0 <= r < self.spec_width() implies (#[trigger] self@[r]).len() == self.spec_width() by {
            assert(self.square_row@[r].len() == self.width);
        }
    }

    /// The column copy holds the columns of the square.
    proof fn lemma_col_copy(&self, c: int)
        requires
            self.wf(),
            0 <= c < self.width,
        ensures
            opt_shares_view(self.square_col@[c]@) == opt_column(self@, c),
    {
        assert(opt_shares_view(self.square_col@[c]@) =~= opt_column(self@, c));
    }
}

impl DataSquare {
    /// Create a new DataSquare from the supplied data and tree creator: the
    /// shares fill the square row by row. No root calculation is performed.
    /// Data may have None values.
    pub fn new(data: Vec<Option<Vec<u8>>>, tree_creator: TreeConstructorFn, share_size: usize) -> (r: Result<
        Self,
        SquareError,
    >)
        ensures
            !is_perfect_square(data.len() as nat) ==> r matches Err(SquareError::NotSquareNumber),
            is_perfect_square(data.len() as nat) && !sizes_ok(opt_shares_view(data@), share_size as nat)
                ==> r matches Err(SquareError::UnevenChunks),
            is_perfect_square(data.len() as nat) && sizes_ok(opt_shares_view(data@), share_size as nat) ==> (
            r matches Ok(ds) && ds.wf() && ds.spec_width() == square_root(data.len() as nat)
                && ds.spec_share_size() == share_size && ds@ == row_major(
                opt_shares_view(data@),
                square_root(data.len() as nat),
            ) && ds.cached_row_roots() is None && ds.cached_col_roots() is None),
    {
        let ghost dv = opt_shares_view(data@);
        let width = match exact_sqrt(data.len()) {
            Some(w) => w,
            None => return Err(SquareError::NotSquareNumber),
        };
        let mut k: usize = 0;
        while k < data.len()
            invariant
                k <= data.len(),
                dv == opt_shares_view(data@),
                is_perfect_square(data.len() as nat),
                forall|i: int| 0 <= i < k && (#[trigger] dv[i]) is Some ==> dv[i]->0.len() == share_size,
            decreases data.len() - k,
        {
            if let Some(share) = &data[k] {
                if share.len() != share_size {
                    assert(dv[k as int] is Some && dv[k as int]->0.len() != share_size);
                    return Err(SquareError::UnevenChunks);
                }
            }
            k += 1;
        }
        assert(sizes_ok(dv, share_size as nat));
        let ghost target = row_major(dv, width as nat);
        let mut square_row: Vec<Vec<Option<Vec<u8>>>> = Vec::with_capacity(width);
        let mut r: usize = 0;
        while r < width
            invariant
                data.len() == width * width,
                dv == opt_shares_view(data@),
                target == row_major(dv, width as nat),
                r <= width,
                square_row.len() == r,
                forall|k: int| 0 <= k < r ==> (#[trigger] square_row@[k]).len() == width,
                forall|k: int| 0 <= k < r ==> opt_shares_view((#[trigger] square_row@[k])@) == target[k],
            decreases width - r,
        {
            let mut row: Vec<Option<Vec<u8>>> = Vec::with_capacity(width);
            let mut c: usize = 0;
            while c < width
                invariant
                    data.len() == width * width,
                    dv == opt_shares_view(data@),
                    target == row_major(dv, width as nat),
                    r < width,
                    c <= width,
                    row.len() == c,
                    forall|k: int| 0 <= k < c ==> opt_share_view(#[trigger] row@[k]) == target[r as int][k],
                decreases width - c,
            {
                proof {
                    crate::shares::lemma_cell_index(r as nat, c as nat, width as nat);
                }
                row.push(copy_opt_share(&data[r * width + c]));
                c += 1;
            }
            assert(opt_shares_view(row@) =~= target[r as int]);
            square_row.push(row);
            r += 1;
        }
        let mut square_col: Vec<Vec<Option<Vec<u8>>>> = Vec::with_capacity(width);
        let mut c: usize = 0;
        while c < width
            invariant
                data.len() == width * width,
                dv == opt_shares_view(data@),
                target == row_major(dv, width as nat),
                c <= width,
                square_col.len() == c,
                forall|k: int| 0 <= k < c ==> (#[trigger] square_col@[k]).len() == width,
                forall|k: int, r: int|
                    0 <= k < c && 0 <= r < width ==> opt_share_view(#[trigger] square_col@[k]@[r]) == target[r][k],
            decreases width - c,
        {
            let mut col: Vec<Option<Vec<u8>>> = Vec::with_capacity(width);
            let mut r: usize = 0;
            while r < width
                invariant
                    data.len() == width * width,
                    dv == opt_shares_view(data@),
                    target == row_major(dv, width as nat),
                    c < width,
                    r <= width,
                    col.len() == r,
                    forall|k: int| 0 <= k < r ==> opt_share_view(#[trigger] col@[k]) == target[k][c as int],
                decreases width - r,
            {
                proof {
                    crate::shares::lemma_cell_index(r as nat, c as nat, width as nat);
                }
                col.push(copy_opt_share(&data[r * width + c]));
                r += 1;
            }
            square_col.push(col);
            c += 1;
        }
        let ds = DataSquare {
            square_row,
            square_col,
            width,
            share_size,
            row_roots: None,
            col_roots: None,
            create_tree_fn: tree_creator,
        };
        assert(ds@ =~= target);
        assert forall|r: int| 0 <= r < width implies sizes_ok(#[trigger] ds@[r], share_size as nat) by {
            assert forall|c: int| 0 <= c < ds@[r].len() && (#[trigger] ds@[r][c]) is Some implies ds@[r][c]->0.len()
                == share_size by {
                crate::shares::lemma_cell_index(r as nat, c as nat, width as nat);
                assert(ds@[r][c] == dv[r * width + c]);
            }
        }
        Ok(ds)
    }
}

/// A copy of a square of shares held as vectors.
fn copy_opt_matrix(v: &Vec<Vec<Option<Vec<u8>>>>) -> (r: Vec<Vec<Option<Vec<u8>>>>)
    ensures
        r.len() == v.len(),
        forall|i: int| 0 <= i < v.len() ==> opt_shares_view((#[trigger] r@[i])@) == opt_shares_view(v@[i]@),
{
    let mut r: Vec<Vec<Option<Vec<u8>>>> = Vec::with_capacity(v.len());
    let mut i: usize = 0;
    while i < v.len()
        invariant
            i <= v.len(),
            r.len() == i,
            forall|j: int| 0 <= j < i ==> opt_shares_view((#[trigger] r@[j])@) == opt_shares_view(v@[j]@),
        decreases v.len() - i,
    {
        r.push(crate::shares::copy_opt_shares(&v[i]));
        i += 1;
    }
    r
}

/// A copy of cached roots.
fn copy_cached_roots(v: &Option<Vec<Vec<u8>>>) -> (r: Option<Vec<Vec<u8>>>)
    ensures
        match (r, *v) {
            (Some(a), Some(b)) => shares_view(a@) == shares_view(b@),
            (None, None) => true,
            _ => false,
        },
{
    match v {
        Some(roots) => Some(copy_shares(roots)),
        None => None,
    }
}

impl Clone for DataSquare {
    /// A copy of the square, with the same shares and cached roots.
    fn clone(&self) -> (r: Self)
        ensures
            r@ == self@,
            r.spec_width() == self.spec_width(),
            r.spec_share_size() == self.spec_share_size(),
            r.cached_row_roots() == self.cached_row_roots(),
            r.cached_col_roots() == self.cached_col_roots(),
            self.wf() ==> r.wf(),
    {
        let square_row = copy_opt_matrix(&self.square_row);
        let square_col = copy_opt_matrix(&self.square_col);
        let row_roots = copy_cached_roots(&self.row_roots);
        let col_roots = copy_cached_roots(&self.col_roots);
        let r = DataSquare {
            square_row,
            square_col,
            width: self.width,
            share_size: self.share_size,
            row_roots,
            col_roots,
            create_tree_fn: self.create_tree_fn,
        };
        assert(r@ =~= self@);
        proof {
            if self.wf() {
                assert forall|i: int| 0 <= i < self.width implies (#[trigger] r.square_row@[i]).len() == self.width by {
                    assert(opt_shares_view(r.square_row@[i]@).len() == opt_shares_view(self.square_row@[i]@).len());
                }
                assert forall|i: int| 0 <= i < self.width implies (#[trigger] r.square_col@[i]).len() == self.width by {
                    assert(opt_shares_view(r.square_col@[i]@).len() == opt_shares_view(self.square_col@[i]@).len());
                }
                assert forall|rr: int, c: int| 0 <= rr < self.width && 0 <= c < self.width implies opt_share_view(
                    #[trigger] r.square_col@[c]@[rr],
                ) == opt_share_view(#[trigger] r.square_row@[rr]@[c]) by {
                    assert(opt_shares_view(r.square_col@[c]@)[rr] == opt_shares_view(self.square_col@[c]@)[rr]);
                    assert(opt_shares_view(r.square_row@[rr]@)[c] == opt_shares_view(self.square_row@[rr]@)[c]);
                }
            }
        }
        r
    }
}

/// The square `m` of width `w` grown by `ext` rows and columns of `filler`.
pub open spec fn extended(m: Seq<Seq<Option<Seq<u8>>>>, w: nat, ext: nat, filler: Seq<u8>) -> Seq<Seq<Option<Seq<u8>>>> {
    Seq::new(
        w + ext,
        |r: int| Seq::new(w + ext, |c: int| if r < w && c < w { m[r][c] } else { Some(filler) }),
    )
}

/// The square with the shares of `v` written into row `row` from column `from` on.
pub open spec fn with_row_slice(m: Seq<Seq<Option<Seq<u8>>>>, row: int, from: int, v: Seq<Seq<u8>>) -> Seq<Seq<Option<Seq<u8>>>> {
    Seq::new(
        m.len(),
        |r: int|
            Seq::new(
                m[r].len(),
                |c: int| if r == row && from <= c < from + v.len() { Some(v[c - from]) } else { m[r][c] },
            ),
    )
}

/// The square with the shares of `v` written into column `col` from row `from` on.
pub open spec fn with_col_slice(m: Seq<Seq<Option<Seq<u8>>>>, col: int, from: int, v: Seq<Seq<u8>>) -> Seq<Seq<Option<Seq<u8>>>> {
    Seq::new(
        m.len(),
        |r: int|
            Seq::new(
                m[r].len(),
                |c: int| if c == col && from <= r < from + v.len() { Some(v[r - from]) } else { m[r][c] },
            ),
    )
}

/// Every share of the sequence has `size` bytes.
pub open spec fn all_sized(v: Seq<Seq<u8>>, size: nat) -> bool {
    forall|i: int| 0 <= i < v.len() ==> (#[trigger] v[i]).len() == size
}

/// Whether every share has `size` bytes.
fn check_sizes(shares: &Vec<Vec<u8>>, size: usize) -> (r: bool)
    ensures
        r == all_sized(shares_view(shares@), size as nat),
{
    let mut i: usize = 0;
    while i < shares.len()
        invariant
            i <= shares.len(),
            forall|j: int| 0 <= j < i ==> (#[trigger] shares_view(shares@)[j]).len() == size,
        decreases shares.len() - i,
    {
        if shares[i].len() != size {
            assert(shares_view(shares@)[i as int].len() != size);
            return false;
        }
        i += 1;
    }
    true
}

impl DataSquare {
    /// Drops the cached roots.
    fn reset_roots(&mut self)
        ensures
            final(self).square_row == old(self).square_row,
            final(self).square_col == old(self).square_col,
            final(self).width == old(self).width,
            final(self).share_size == old(self).share_size,
            final(self).create_tree_fn == old(self).create_tree_fn,
            final(self).row_roots is None,
            final(self).col_roots is None,
    {
        self.row_roots = None;
        self.col_roots = None;
    }

    /// Writes a present share into both copies of the square and drops the
    /// cached roots.
    fn put(&mut self, row: usize, col: usize, share: Vec<u8>)
        requires
            old(self).wf(),
            row < old(self).width,
            col < old(self).width,
            share.len() == old(self).share_size,
        ensures
            final(self).wf(),
            final(self).width == old(self).width,
            final(self).share_size == old(self).share_size,
            final(self)@ == old(self)@.update(row as int, old(self)@[row as int].update(col as int, Some(share@))),
            final(self).row_roots is None,
            final(self).col_roots is None,
    {
        let ghost before = self@;
        let ghost w = self.width as int;
        let copy = copy_share(&share);
        self.reset_roots();
        self.square_row[row][col] = Some(copy);
        self.square_col[col][row] = Some(share);
        assert(self@ =~~= before.update(row as int, before[row as int].update(col as int, Some(share@))));
        assert forall|r: int, c: int| 0 <= r < w && 0 <= c < w implies opt_share_view(
            #[trigger] self.square_col@[c]@[r],
        ) == opt_share_view(#[trigger] self.square_row@[r]@[c]) by {}
        assert forall|r: int| 0 <= r < w implies sizes_ok(#[trigger] self@[r], self.share_size as nat) by {
            if r == row {
                assert forall|c: int| 0 <= c < self@[r].len() && (#[trigger] self@[r][c]) is Some implies self@[r][c]->0.len()
                    == self.share_size by {
                    if c != col {
                        assert(self@[r][c] == before[r][c]);
                    }
                }
            } else {
                assert(self@[r] == before[r]);
            }
        }
    }

    /// Extend the square by extending width and fill the extended quadrants
    /// with filler_share.
    pub fn extend_square(&mut self, extended_width: usize, filler_share: Vec<u8>) -> (r: Result<(), SquareError>)
        requires
            old(self).wf(),
            old(self).spec_width() + extended_width <= usize::MAX,
        ensures
            final(self).wf(),
            final(self).spec_share_size() == old(self).spec_share_size(),
            filler_share.len() != old(self).spec_share_size() ==> (r matches Err(
                SquareError::FillerChunkSizeMismatch,
            ) && final(self)@ == old(self)@ && final(self).spec_width() == old(self).spec_width()
                && final(self).cached_row_roots() == old(self).cached_row_roots()
                && final(self).cached_col_roots() == old(self).cached_col_roots()),
            filler_share.len() == old(self).spec_share_size() ==> (r is Ok && final(self).spec_width()
                == old(self).spec_width() + extended_width && final(self)@ == extended(
                old(self)@,
                old(self).spec_width(),
                extended_width as nat,
                filler_share@,
            ) && final(self).cached_row_roots() is None && final(self).cached_col_roots() is None),
    {
        if filler_share.len() != self.share_size {
            return Err(SquareError::FillerChunkSizeMismatch);
        }
        let ghost before = self@;
        let ghost w = self.width as nat;
        let ghost target = extended(before, w, extended_width as nat, filler_share@);
        proof {
            self.lemma_wf();
        }
        let new_width = self.width + extended_width;
        let mut new_square_row: Vec<Vec<Option<Vec<u8>>>> = Vec::with_capacity(new_width);
        let mut i: usize = 0;
        while i < new_width
            invariant
                self.wf(),
                before == self@,
                w == self.width,
                new_width == self.width + extended_width,
                target == extended(before, w, extended_width as nat, filler_share@),
                i <= new_width,
                new_square_row.len() == i,
                forall|k: int| 0 <= k < i ==> (#[trigger] new_square_row@[k]).len() == new_width,
                forall|k: int| 0 <= k < i ==> opt_shares_view((#[trigger] new_square_row@[k])@) == target[k],
            decreases new_width - i,
        {
            let mut row: Vec<Option<Vec<u8>>> = Vec::with_capacity(new_width);
            let mut c: usize = 0;
            while c < new_width
                invariant
                    self.wf(),
                    before == self@,
                    w == self.width,
                    new_width == self.width + extended_width,
                    target == extended(before, w, extended_width as nat, filler_share@),
                    i < new_width,
                    c <= new_width,
                    row.len() == c,
                    forall|k: int| 0 <= k < c ==> opt_share_view(#[trigger] row@[k]) == target[i as int][k],
                decreases new_width - c,
            {
                if i < self.width && c < self.width {
                    proof {
                        self.lemma_wf();
                    }
                    row.push(copy_opt_share(&self.square_row[i][c]));
                } else {
                    row.push(Some(copy_share(&filler_share)));
                }
                c += 1;
            }
            assert(opt_shares_view(row@) =~= target[i as int]);
            new_square_row.push(row);
            i += 1;
        }
        let mut new_square_col: Vec<Vec<Option<Vec<u8>>>> = Vec::with_capacity(new_width);
        let mut c: usize = 0;
        while c < new_width
            invariant
                new_width == w + extended_width,
                target == extended(before, w, extended_width as nat, filler_share@),
                new_square_row.len() == new_width,
                forall|k: int| 0 <= k < new_width ==> (#[trigger] new_square_row@[k]).len() == new_width,
                forall|k: int| 0 <= k < new_width ==> opt_shares_view((#[trigger] new_square_row@[k])@) == target[k],
                c <= new_width,
                new_square_col.len() == c,
                forall|k: int| 0 <= k < c ==> (#[trigger] new_square_col@[k]).len() == new_width,
                forall|k: int, r: int|
                    0 <= k < c && 0 <= r < new_width ==> opt_share_view(#[trigger] new_square_col@[k]@[r])
                        == target[r][k],
            decreases new_width - c,
        {
            let mut col: Vec<Option<Vec<u8>>> = Vec::with_capacity(new_width);
            let mut r: usize = 0;
            while r < new_width
                invariant
                    new_width == w + extended_width,
                    target == extended(before, w, extended_width as nat, filler_share@),
                    new_square_row.len() == new_width,
                    forall|k: int| 0 <= k < new_width ==> (#[trigger] new_square_row@[k]).len() == new_width,
                    forall|k: int| 0 <= k < new_width ==> opt_shares_view((#[trigger] new_square_row@[k])@) == target[k],
                    c < new_width,
                    r <= new_width,
                    col.len() == r,
                    forall|k: int| 0 <= k < r ==> opt_share_view(#[trigger] col@[k]) == target[k][c as int],
                decreases new_width - r,
            {
                assert(opt_shares_view(new_square_row@[r as int]@)[c as int] == target[r as int][c as int]);
                col.push(copy_opt_share(&new_square_row[r][c]));
                r += 1;
            }
            new_square_col.push(col);
            c += 1;
        }
        self.square_row = new_square_row;
        self.square_col = new_square_col;
        self.width = new_width;
        self.reset_roots();
        assert(self@ =~= target);
        proof {
            assert forall|r: int, c: int| 0 <= r < new_width && 0 <= c < new_width implies opt_share_view(
                #[trigger] self.square_col@[c]@[r],
            ) == opt_share_view(#[trigger] self.square_row@[r]@[c]) by {
                assert(opt_shares_view(self.square_row@[r]@)[c] == target[r][c]);
            }
            assert forall|r: int| 0 <= r < new_width implies sizes_ok(#[trigger] self@[r], self.share_size as nat) by {
                assert forall|c: int| 0 <= c < self@[r].len() && (#[trigger] self@[r][c]) is Some implies self@[r][c]->0.len()
                    == self.share_size by {
                    if r < w && c < w {
                        assert(self@[r][c] == before[r][c]);
                        assert(sizes_ok(before[r], self.share_size as nat));
                    }
                }
            }
        }
        Ok(())
    }
}

impl DataSquare {
    /// Get a row slice: `length` shares of row `row_idx` from column `from_idx` on.
    pub fn row_slice(&self, row_idx: usize, from_idx: usize, length: usize) -> (r: Vec<Option<Vec<u8>>>)
        requires
            self.wf(),
            row_idx < self.spec_width(),
            from_idx + length <= self.spec_width(),
        ensures
            opt_shares_view(r@) == self@[row_idx as int].subrange(from_idx as int, from_idx + length),
    {
        proof {
            self.lemma_wf();
        }
        let end_idx = from_idx + length;
        let mut out: Vec<Option<Vec<u8>>> = Vec::with_capacity(length);
        let mut k: usize = from_idx;
        while k < end_idx
            invariant
                self.wf(),
                row_idx < self.width,
                end_idx <= self.width,
                from_idx <= k <= end_idx,
                out.len() == k - from_idx,
                forall|m: int| 0 <= m < out.len() ==> opt_share_view(#[trigger] out@[m]) == self@[row_idx as int][from_idx + m],
            decreases end_idx - k,
        {
            proof {
                self.lemma_wf();
            }
            out.push(copy_opt_share(&self.square_row[row_idx][k]));
            k += 1;
        }
        assert(opt_shares_view(out@) =~= self@[row_idx as int].subrange(from_idx as int, from_idx + length));
        out
    }

    /// Get a full row.
    pub fn row(&self, row_idx: usize) -> (r: Vec<Option<Vec<u8>>>)
        requires
            self.wf(),
            row_idx < self.spec_width(),
        ensures
            opt_shares_view(r@) == self@[row_idx as int],
    {
        proof {
            self.lemma_wf();
        }
        let r = self.row_slice(row_idx, 0, self.width);
        assert(self@[row_idx as int].subrange(0, self.width as int) =~= self@[row_idx as int]);
        r
    }

    /// Get a column slice: `length` shares of column `col_idx` from row `row_idx` on.
    pub fn col_slice(&self, row_idx: usize, col_idx: usize, length: usize) -> (r: Vec<Option<Vec<u8>>>)
        requires
            self.wf(),
            col_idx < self.spec_width(),
            row_idx + length <= self.spec_width(),
        ensures
            opt_shares_view(r@) == opt_column(self@, col_idx as int).subrange(row_idx as int, row_idx + length),
    {
        proof {
            self.lemma_wf();
            self.lemma_col_copy(col_idx as int);
        }
        let end_idx = row_idx + length;
        let mut out: Vec<Option<Vec<u8>>> = Vec::with_capacity(length);
        let mut k: usize = row_idx;
        while k < end_idx
            invariant
                self.wf(),
                col_idx < self.width,
                end_idx <= self.width,
                row_idx <= k <= end_idx,
                out.len() == k - row_idx,
                opt_shares_view(self.square_col@[col_idx as int]@) == opt_column(self@, col_idx as int),
                forall|m: int| 0 <= m < out.len() ==> opt_share_view(#[trigger] out@[m]) == opt_column(self@, col_idx as int)[row_idx + m],
            decreases end_idx - k,
        {
            assert(opt_shares_view(self.square_col@[col_idx as int]@)[k as int] == opt_column(self@, col_idx as int)[k as int]);
            out.push(copy_opt_share(&self.square_col[col_idx][k]));
            k += 1;
        }
        assert(opt_shares_view(out@) =~= opt_column(self@, col_idx as int).subrange(row_idx as int, row_idx + length));
        out
    }

    /// Get a full column.
    pub fn col(&self, col_idx: usize) -> (r: Vec<Option<Vec<u8>>>)
        requires
            self.wf(),
            col_idx < self.spec_width(),
        ensures
            opt_shares_view(r@) == opt_column(self@, col_idx as int),
    {
        proof {
            self.lemma_wf();
        }
        let r = self.col_slice(0, col_idx, self.width);
        assert(opt_column(self@, col_idx as int).subrange(0, self.width as int) =~= opt_column(self@, col_idx as int));
        r
    }

    /// Set a row slice: the shares of `new_row` go into row `row_idx` from
    /// column `from_idx` on.
    pub fn set_row_slice(&mut self, row_idx: usize, from_idx: usize, new_row: Vec<Vec<u8>>) -> (r: Result<(), SquareError>)
        requires
            old(self).wf(),
            all_sized(shares_view(new_row@), old(self).spec_share_size()) && from_idx + new_row.len()
                <= old(self).spec_width() && new_row.len() > 0 ==> row_idx < old(self).spec_width(),
        ensures
            final(self).wf(),
            final(self).spec_width() == old(self).spec_width(),
            final(self).spec_share_size() == old(self).spec_share_size(),
            !all_sized(shares_view(new_row@), old(self).spec_share_size()) ==> (r matches Err(
                SquareError::InvalidChunkSize(m),
            ) && m@ == "invalid chunk size"@),
            all_sized(shares_view(new_row@), old(self).spec_share_size()) && from_idx + new_row.len()
                > old(self).spec_width() ==> (r matches Err(SquareError::RowSliceOutOfBounds { row, from, length, width })
                && row == row_idx && from == from_idx && length == new_row.len() && width == old(self).spec_width()),
            r is Err ==> final(self)@ == old(self)@ && final(self).cached_row_roots() == old(self).cached_row_roots()
                && final(self).cached_col_roots() == old(self).cached_col_roots(),
            all_sized(shares_view(new_row@), old(self).spec_share_size()) && from_idx + new_row.len()
                <= old(self).spec_width() ==> (r is Ok && final(self)@ == with_row_slice(
                old(self)@,
                row_idx as int,
                from_idx as int,
                shares_view(new_row@),
            ) && final(self).cached_row_roots() is None && final(self).cached_col_roots() is None),
    {
        if !check_sizes(&new_row, self.share_size) {
            return Err(SquareError::InvalidChunkSize(String::from_str("invalid chunk size")));
        }
        if new_row.len() > self.width || from_idx > self.width - new_row.len() {
            return Err(SquareError::RowSliceOutOfBounds {
                row: row_idx,
                from: from_idx,
                length: new_row.len(),
                width: self.width,
            });
        }
        let ghost before = self@;
        let ghost v = shares_view(new_row@);
        proof {
            self.lemma_wf();
        }
        self.reset_roots();
        assert(with_row_slice(before, row_idx as int, from_idx as int, v.take(0)) =~~= before);
        let mut i: usize = 0;
        while i < new_row.len()
            invariant
                self.wf(),
                self.width == old(self).width,
                self.share_size == old(self).share_size,
                self.row_roots is None,
                self.col_roots is None,
                v == shares_view(new_row@),
                all_sized(v, self.share_size as nat),
                from_idx + new_row.len() <= self.width,
                new_row.len() > 0 ==> row_idx < self.width,
                opt_square_shape(before, self.width as nat),
                i <= new_row.len(),
                self@ == with_row_slice(before, row_idx as int, from_idx as int, v.take(i as int)),
            decreases new_row.len() - i,
        {
            let share = copy_share(&new_row[i]);
            assert(v[i as int].len() == self.share_size);
            let ghost mid = self@;
            self.put(row_idx, from_idx + i, share);
            assert(self@ =~~= with_row_slice(before, row_idx as int, from_idx as int, v.take(i + 1)));
            i += 1;
        }
        assert(v.take(new_row.len() as int) =~= v);
        Ok(())
    }

    /// Set a column slice: the shares of `new_col` go into column `col_idx`
    /// from row `from_idx` on.
    pub fn set_col_slice(&mut self, col_idx: usize, from_idx: usize, new_col: Vec<Vec<u8>>) -> (r: Result<(), SquareError>)
        requires
            old(self).wf(),
            all_sized(shares_view(new_col@), old(self).spec_share_size()) && from_idx + new_col.len()
                <= old(self).spec_width() && new_col.len() > 0 ==> col_idx < old(self).spec_width(),
        ensures
            final(self).wf(),
            final(self).spec_width() == old(self).spec_width(),
            final(self).spec_share_size() == old(self).spec_share_size(),
            !all_sized(shares_view(new_col@), old(self).spec_share_size()) ==> (r matches Err(
                SquareError::InvalidChunkSize(m),
            ) && m@ == "invalid chunk size"@),
            all_sized(shares_view(new_col@), old(self).spec_share_size()) && from_idx + new_col.len()
                > old(self).spec_width() ==> (r matches Err(SquareError::ColSliceOutOfBounds { from, col, length, width })
                && from == from_idx && col == col_idx && length == new_col.len() && width == old(self).spec_width()),
            r is Err ==> final(self)@ == old(self)@ && final(self).cached_row_roots() == old(self).cached_row_roots()
                && final(self).cached_col_roots() == old(self).cached_col_roots(),
            all_sized(shares_view(new_col@), old(self).spec_share_size()) && from_idx + new_col.len()
                <= old(self).spec_width() ==> (r is Ok && final(self)@ == with_col_slice(
                old(self)@,
                col_idx as int,
                from_idx as int,
                shares_view(new_col@),
            ) && final(self).cached_row_roots() is None && final(self).cached_col_roots() is None),
    {
        if !check_sizes(&new_col, self.share_size) {
            return Err(SquareError::InvalidChunkSize(String::from_str("invalid chunk size")));
        }
        if new_col.len() > self.width || from_idx > self.width - new_col.len() {
            return Err(SquareError::ColSliceOutOfBounds {
                from: from_idx,
                col: col_idx,
                length: new_col.len(),
                width: self.width,
            });
        }
        let ghost before = self@;
        let ghost v = shares_view(new_col@);
        proof {
            self.lemma_wf();
        }
        self.reset_roots();
        assert(with_col_slice(before, col_idx as int, from_idx as int, v.take(0)) =~~= before);
        let mut i: usize = 0;
        while i < new_col.len()
            invariant
                self.wf(),
                self.width == old(self).width,
                self.share_size == old(self).share_size,
                self.row_roots is None,
                self.col_roots is None,
                v == shares_view(new_col@),
                all_sized(v, self.share_size as nat),
                from_idx + new_col.len() <= self.width,
                new_col.len() > 0 ==> col_idx < self.width,
                opt_square_shape(before, self.width as nat),
                i <= new_col.len(),
                self@ == with_col_slice(before, col_idx as int, from_idx as int, v.take(i as int)),
            decreases new_col.len() - i,
        {
            let share = copy_share(&new_col[i]);
            assert(v[i as int].len() == self.share_size);
            self.put(from_idx + i, col_idx, share);
            assert(self@ =~~= with_col_slice(before, col_idx as int, from_idx as int, v.take(i + 1)));
            i += 1;
        }
        assert(v.take(new_col.len() as int) =~= v);
        Ok(())
    }

    /// Get a copy of a specific cell.
    pub fn get_cell(&self, row_idx: usize, col_idx: usize) -> (r: Option<Vec<u8>>)
        requires
            self.wf(),
            row_idx < self.spec_width(),
            col_idx < self.spec_width(),
        ensures
            opt_share_view(r) == self@[row_idx as int][col_idx as int],
    {
        proof {
            self.lemma_wf();
        }
        copy_opt_share(&self.square_row[row_idx][col_idx])
    }

    /// Set a specific cell. The cell to set must be None.
    pub fn set_cell(&mut self, row_idx: usize, col_idx: usize, new_share: Vec<u8>) -> (r: Result<(), SquareError>)
        requires
            old(self).wf(),
            row_idx < old(self).spec_width(),
            col_idx < old(self).spec_width(),
        ensures
            final(self).wf(),
            final(self).spec_width() == old(self).spec_width(),
            final(self).spec_share_size() == old(self).spec_share_size(),
            old(self)@[row_idx as int][col_idx as int] is Some ==> (r matches Err(SquareError::CellAlreadySet { row, col })
                && row == row_idx && col == col_idx),
            old(self)@[row_idx as int][col_idx as int] is None && new_share.len() != old(self).spec_share_size()
                ==> (r matches Err(SquareError::CellChunkSizeMismatch { chunk_size, expected_size })
                && chunk_size == new_share.len() && expected_size == old(self).spec_share_size()),
            r is Err ==> final(self)@ == old(self)@ && final(self).cached_row_roots() == old(self).cached_row_roots()
                && final(self).cached_col_roots() == old(self).cached_col_roots(),
            old(self)@[row_idx as int][col_idx as int] is None && new_share.len() == old(self).spec_share_size()
                ==> (r is Ok && final(self)@ == old(self)@.update(
                row_idx as int,
                old(self)@[row_idx as int].update(col_idx as int, Some(new_share@)),
            ) && final(self).cached_row_roots() is None && final(self).cached_col_roots() is None),
    {
        proof {
            self.lemma_wf();
        }
        if self.square_row[row_idx][col_idx].is_some() {
            return Err(SquareError::CellAlreadySet { row: row_idx, col: col_idx });
        }
        if new_share.len() != self.share_size {
            return Err(SquareError::CellChunkSizeMismatch { chunk_size: new_share.len(), expected_size: self.share_size });
        }
        self.put(row_idx, col_idx, new_share);
        Ok(())
    }

    /// Get the flattened data square: its shares row by row.
    pub fn flattened(&self) -> (r: Vec<Option<Vec<u8>>>)
        requires
            self.wf(),
        ensures
            opt_shares_view(r@) == self@.flatten(),
    {
        proof {
            self.lemma_wf();
        }
        let ghost m = self@;
        let mut result: Vec<Option<Vec<u8>>> = Vec::new();
        let mut i: usize = 0;
        while i < self.square_row.len()
            invariant
                i <= self.square_row.len(),
                m == self@,
                m.len() == self.square_row.len(),
                opt_shares_view(result@) == m.take(i as int).flatten(),
            decreases self.square_row.len() - i,
        {
            let mut j: usize = 0;
            while j < self.square_row[i].len()
                invariant
                    i < self.square_row.len(),
                    m == self@,
                    m.len() == self.square_row.len(),
                    j <= self.square_row@[i as int].len(),
                    opt_shares_view(result@) == m.take(i as int).flatten() + m[i as int].take(j as int),
                decreases self.square_row@[i as int].len() - j,
            {
                let ghost before = opt_shares_view(result@);
                result.push(copy_opt_share(&self.square_row[i][j]));
                assert(opt_shares_view(result@) =~= before.push(m[i as int][j as int]));
                assert(m[i as int].take(j + 1) =~= m[i as int].take(j as int).push(m[i as int][j as int]));
                j += 1;
            }
            proof {
                assert(m[i as int].take(j as int) =~= m[i as int]);
                assert(m.take(i + 1) =~= m.take(i as int).push(m[i as int]));
                m.take(i as int).lemma_flatten_push(m[i as int]);
            }
            i += 1;
        }
        assert(m.take(m.len() as int) =~= m);
        result
    }

    /// Get the width of the data square.
    pub fn width(&self) -> (w: usize)
        ensures
            w as nat == self.spec_width(),
    {
        self.width
    }

    /// Get the share size.
    pub fn share_size(&self) -> (s: usize)
        ensures
            s as nat == self.spec_share_size(),
    {
        self.share_size
    }
}

/// Pushes every share of a complete axis into the tree and returns its root.
fn root_of_complete(tree: &mut DefaultTree, shares: &Vec<Option<Vec<u8>>>) -> (r: Vec<u8>)
    requires
        old(tree).leaves() == Seq::<Seq<u8>>::empty(),
        all_present(opt_shares_view(shares@)),
    ensures
        r@ == axis_root(opt_shares_view(shares@)),
{
    let ghost v = unwrap_all(opt_shares_view(shares@));
    let mut k: usize = 0;
    while k < shares.len()
        invariant
            k <= shares.len(),
            all_present(opt_shares_view(shares@)),
            v == unwrap_all(opt_shares_view(shares@)),
            tree.leaves() == v.take(k as int),
        decreases shares.len() - k,
    {
        assert(opt_shares_view(shares@)[k as int] is Some);
        if let Some(share) = &shares[k] {
            tree.push(share.as_slice());
            assert(v.take(k + 1) =~= v.take(k as int).push(share@));
        }
        k += 1;
    }
    assert(v.take(shares.len() as int) =~= v);
    tree.root()
}

impl DataSquare {
    /// Compute the row root for a given row index; the row must be complete.
    pub fn get_row_root(&self, row_idx: usize) -> (r: Result<Vec<u8>, SquareError>)
        requires
            self.wf(),
            row_idx < self.spec_width(),
        ensures
            r is Ok <==> all_present(self@[row_idx as int]),
            r matches Ok(root) ==> root@ == axis_root(self@[row_idx as int]),
            r is Err ==> r matches Err(SquareError::IncompleteAxis { axis: Axis::Row }),
    {
        let mut tree = self.create_tree_fn.create(Axis::Row, row_idx);
        let row = self.row(row_idx);
        if !crate::shares::is_complete(row.as_slice()) {
            return Err(SquareError::IncompleteAxis { axis: Axis::Row });
        }
        Ok(root_of_complete(&mut tree, &row))
    }

    /// Compute the column root for a given column index; the column must be complete.
    pub fn get_col_root(&self, col_idx: usize) -> (r: Result<Vec<u8>, SquareError>)
        requires
            self.wf(),
            col_idx < self.spec_width(),
        ensures
            r is Ok <==> all_present(opt_column(self@, col_idx as int)),
            r matches Ok(root) ==> root@ == axis_root(opt_column(self@, col_idx as int)),
            r is Err ==> r matches Err(SquareError::IncompleteAxis { axis: Axis::Col }),
    {
        let mut tree = self.create_tree_fn.create(Axis::Col, col_idx);
        let col = self.col(col_idx);
        if !crate::shares::is_complete(col.as_slice()) {
            return Err(SquareError::IncompleteAxis { axis: Axis::Col });
        }
        Ok(root_of_complete(&mut tree, &col))
    }

    /// Get row roots for all rows, from the cache when they were computed
    /// since the last change.
    pub fn get_row_roots(&mut self) -> (r: Result<Vec<Vec<u8>>, SquareError>)
        requires
            old(self).wf(),
        ensures
            final(self).wf(),
            final(self)@ == old(self)@,
            final(self).spec_width() == old(self).spec_width(),
            final(self).spec_share_size() == old(self).spec_share_size(),
            final(self).cached_col_roots() == old(self).cached_col_roots(),
            r is Ok <==> rows_complete(old(self)@),
            r matches Ok(roots) ==> shares_view(roots@) == rows_roots(old(self)@)
                && final(self).cached_row_roots() == Some(rows_roots(old(self)@)),
            r is Err ==> (r matches Err(SquareError::IncompleteAxis { axis: Axis::Row })
                && final(self).cached_row_roots() == old(self).cached_row_roots()),
    {
        proof {
            self.lemma_wf();
        }
        if let Some(roots) = &self.row_roots {
            return Ok(copy_shares(roots));
        }
        let ghost target = rows_roots(self@);
        let mut roots: Vec<Vec<u8>> = Vec::with_capacity(self.width);
        let mut i: usize = 0;
        while i < self.width
            invariant
                self.wf(),
                self@ == old(self)@,
                self.width == old(self).width,
                self.row_roots is None,
                target == rows_roots(self@),
                opt_square_shape(self@, self.width as nat),
                i <= self.width,
                roots.len() == i,
                forall|k: int| 0 <= k < i ==> all_present(#[trigger] self@[k]),
                forall|k: int| 0 <= k < i ==> (#[trigger] roots@[k])@ == target[k],
            decreases self.width - i,
        {
            match self.get_row_root(i) {
                Ok(root) => roots.push(root),
                Err(e) => {
                    return Err(e);
                },
            }
            i += 1;
        }
        assert(shares_view(roots@) =~= target);
        self.row_roots = Some(copy_shares(&roots));
        Ok(roots)
    }

    /// Get column roots for all columns, from the cache when they were
    /// computed since the last change.
    pub fn get_col_roots(&mut self) -> (r: Result<Vec<Vec<u8>>, SquareError>)
        requires
            old(self).wf(),
        ensures
            final(self).wf(),
            final(self)@ == old(self)@,
            final(self).spec_width() == old(self).spec_width(),
            final(self).spec_share_size() == old(self).spec_share_size(),
            final(self).cached_row_roots() == old(self).cached_row_roots(),
            r is Ok <==> cols_complete(old(self)@, old(self).spec_width()),
            r matches Ok(roots) ==> shares_view(roots@) == cols_roots(old(self)@, old(self).spec_width())
                && final(self).cached_col_roots() == Some(cols_roots(old(self)@, old(self).spec_width())),
            r is Err ==> (r matches Err(SquareError::IncompleteAxis { axis: Axis::Col })
                && final(self).cached_col_roots() == old(self).cached_col_roots()),
    {
        proof {
            self.lemma_wf();
        }
        if let Some(roots) = &self.col_roots {
            return Ok(copy_shares(roots));
        }
        let ghost target = cols_roots(self@, self.width as nat);
        let mut roots: Vec<Vec<u8>> = Vec::with_capacity(self.width);
        let mut i: usize = 0;
        while i < self.width
            invariant
                self.wf(),
                self@ == old(self)@,
                self.width == old(self).width,
                self.col_roots is None,
                target == cols_roots(self@, self.width as nat),
                opt_square_shape(self@, self.width as nat),
                i <= self.width,
                roots.len() == i,
                forall|k: int| 0 <= k < i ==> all_present(#[trigger] opt_column(self@, k)),
                forall|k: int| 0 <= k < i ==> (#[trigger] roots@[k])@ == target[k],
            decreases self.width - i,
        {
            match self.get_col_root(i) {
                Ok(root) => roots.push(root),
                Err(e) => {
                    return Err(e);
                },
            }
            i += 1;
        }
        assert(shares_view(roots@) =~= target);
        self.col_roots = Some(copy_shares(&roots));
        Ok(roots)
    }
}

} // verus!
