//! The extended data square over a data square whose shares may be missing:
//! erasure extension of the original square, and repair of a partial square
//! from the merkle roots of its rows and columns.
use vstd::prelude::*;
use std::sync::Arc;
use crate::crossword::{
    attempt, attempt_axis, byzantine_error, crossword, filled, filled_upto, fill_outcome, is_first_bad_fill,
    is_first_sanity_failure, keeps_present, lemma_keeps_present_trans, lemma_pass_err_persists, lemma_pass_run,
    crossword_stop, lemma_pass_stop_ok, lemma_pass_stop_persists, pass_run, reports, root_of_shares, sanity_fails_at, sanity_message, with_column, CrosswordFailure,
};
use crate::datasquare::{
    all_sized, cols_complete, cols_roots, extended, opt_column, opt_square_shape, row_major,
    rows_complete, rows_roots, sizes_ok, with_col_slice, with_row_slice, Axis, DataSquare, SquareError,
    SquareErrorKind, TreeConstructorFn,
};
use crate::erasure::ErasureCodec;
use crate::shares::{
    all_present, copy_opt_share, copy_share, copy_shares, count_present, is_perfect_square,
    opt_share_view, opt_shares_view, shares_view, square_root, unwrap_all, zeros,
};
use crate::text::{push_decimal, push_text, text};
use crate::tree::merkle_root;

verus! {

broadcast use vstd::seq_lib::group_seq_properties;

/// ExtendedDataSquare represents an extended piece of data.
pub struct ExtendedDataSquare<C: ErasureCodec> {
    data_square: DataSquare,
    codec: Arc<C>,
    original_data_width: usize,
}

/// A square of width `w` whose shares are all missing.
pub open spec fn empty_square(w: nat) -> Seq<Seq<Option<Seq<u8>>>> {
    Seq::new(w, |r: int| Seq::new(w, |c: int| None::<Seq<u8>>))
}

impl<C: ErasureCodec> ExtendedDataSquare<C> {
    /// The shares of the square, row by row.
    pub closed spec fn cells(&self) -> Seq<Seq<Option<Seq<u8>>>> {
        self.data_square@
    }

    /// The width of the square.
    pub closed spec fn spec_width(&self) -> nat {
        self.data_square.spec_width()
    }

    /// The width of the original square.
    pub closed spec fn spec_original_width(&self) -> nat {
        self.original_data_width as nat
    }

    /// The size of every share.
    pub closed spec fn spec_share_size(&self) -> nat {
        self.data_square.spec_share_size()
    }

    /// The codec of the square.
    pub closed spec fn spec_codec(&self) -> C {
        *self.codec
    }

    /// The internal invariant: the data square is well formed and twice as
    /// wide as the original square.
    pub closed spec fn wf(&self) -> bool {
        &&& self.data_square.wf()
        &&& self.data_square.spec_width() == 2 * self.original_data_width
    }

    /// What a well-formed square guarantees to its users.
    pub proof fn lemma_wf(&self)
        requires
            self.wf(),
        ensures
            opt_square_shape(self.cells(), self.spec_width()),
            self.spec_width() == 2 * self.spec_original_width(),
            forall|r: int| 0 <= r < self.spec_width() ==> sizes_ok(#[trigger] self.cells()[r], self.spec_share_size()),
    {
        self.data_square.lemma_wf();
    }

    /// Create a new ExtendedDataSquare of the given width whose shares are
    /// all missing.
    pub fn new(codec: Arc<C>, tree_creator_fn: TreeConstructorFn, eds_width: usize, share_size: usize) -> (r: Result<Self, SquareError>)
        requires
            eds_width * eds_width <= usize::MAX,
        ensures
            eds_width % 2 != 0 ==> (r matches Err(SquareError::InvalidEdsWidth { width }) && width == eds_width),
            eds_width % 2 == 0 ==> match (*codec).spec_validate_chunk_size(share_size as nat) {
                Err(k) => r matches Err(e) && e.kind() == k,
                Ok(()) => r matches Ok(eds) && eds.wf() && eds.spec_width() == eds_width
                    && eds.spec_share_size() == share_size && eds.cells() == empty_square(eds_width as nat)
                    && eds.spec_codec() == *codec,
            },
    {
        match validate_eds_width(eds_width) {
            Ok(()) => {},
            Err(e) => return Err(e),
        }
        match codec.validate_chunk_size(share_size) {
            Ok(()) => {},
            Err(e) => return Err(e),
        }
        let n = eds_width * eds_width;
        let mut data: Vec<Option<Vec<u8>>> = Vec::with_capacity(n);
        let mut k: usize = 0;
        while k < n
            invariant
                k <= n,
                data.len() == k,
                forall|j: int| 0 <= j < k ==> (#[trigger] data@[j]) is None,
            decreases n - k,
        {
            data.push(None);
            k += 1;
        }
        proof {
            crate::shares::lemma_root_of_square(eds_width as nat);
        }
        assert(sizes_ok(opt_shares_view(data@), share_size as nat));
        let ghost dv = opt_shares_view(data@);
        assert forall|r: int, c: int| 0 <= r < eds_width && 0 <= c < eds_width implies (#[trigger] row_major(dv, eds_width as nat)[r][c]) is None by {
            crate::shares::lemma_cell_index(r as nat, c as nat, eds_width as nat);
        }
        assert(row_major(dv, eds_width as nat) =~~= empty_square(eds_width as nat));
        let data_square = match DataSquare::new(data, tree_creator_fn, share_size) {
            Ok(ds) => ds,
            Err(e) => return Err(e),
        };
        Ok(ExtendedDataSquare { data_square, codec, original_data_width: eds_width / 2 })
    }
}

/// `Arc::clone`: another pointer to the same codec.
#[verifier::external_body]
fn share_codec<C: ErasureCodec>(codec: &Arc<C>) -> (r: Arc<C>)
    ensures
        r == *codec,
{
    Arc::clone(codec)
}

impl<C: ErasureCodec> Clone for ExtendedDataSquare<C> {
    /// A copy of the square, sharing its codec.
    fn clone(&self) -> (r: Self)
        ensures
            r.cells() == self.cells(),
            r.same_frame(self),
            self.wf() ==> r.wf(),
    {
        ExtendedDataSquare {
            data_square: self.data_square.clone(),
            codec: share_codec(&self.codec),
            original_data_width: self.original_data_width,
        }
    }
}

/// Validate that the EDS width is valid (must be even).
fn validate_eds_width(eds_width: usize) -> (r: Result<(), SquareError>)
    ensures
        eds_width % 2 == 0 <==> r is Ok,
        r is Err ==> (r matches Err(SquareError::InvalidEdsWidth { width }) && width == eds_width),
{
    if eds_width % 2 != 0 {
        return Err(SquareError::InvalidEdsWidth { width: eds_width });
    }
    Ok(())
}

/// Every share of the square is present.
pub open spec fn all_cells_present(m: Seq<Seq<Option<Seq<u8>>>>) -> bool {
    forall|r: int, c: int| 0 <= r < m.len() && 0 <= c < m[r].len() ==> (#[trigger] m[r][c]) is Some
}

/// Row `i` extended: the encoding of its first `ow` shares written after them.
pub open spec fn extend_row_step<C: ErasureCodec>(codec: C, m: Seq<Seq<Option<Seq<u8>>>>, ow: nat, ss: nat, i: int) -> Result<Seq<Seq<Option<Seq<u8>>>>, SquareErrorKind> {
    match codec.spec_parity(unwrap_all(m[i].take(ow as int))) {
        Err(k) => Err(k),
        Ok(parity) => if !all_sized(parity, ss) {
            Err(SquareErrorKind::InvalidChunkSize)
        } else if ow + parity.len() > m.len() {
            Err(SquareErrorKind::RowSliceOutOfBounds {
                row: i as usize,
                from: ow as usize,
                length: parity.len() as usize,
                width: m.len() as usize,
            })
        } else {
            Ok(with_row_slice(m, i, ow as int, parity))
        },
    }
}

/// Column `j` extended: the encoding of its first `ow` shares written below them.
pub open spec fn extend_col_step<C: ErasureCodec>(codec: C, m: Seq<Seq<Option<Seq<u8>>>>, ow: nat, ss: nat, j: int) -> Result<Seq<Seq<Option<Seq<u8>>>>, SquareErrorKind> {
    match codec.spec_parity(unwrap_all(opt_column(m, j).take(ow as int))) {
        Err(k) => Err(k),
        Ok(parity) => if !all_sized(parity, ss) {
            Err(SquareErrorKind::InvalidChunkSize)
        } else if ow + parity.len() > m.len() {
            Err(SquareErrorKind::ColSliceOutOfBounds {
                from: ow as usize,
                col: j as usize,
                length: parity.len() as usize,
                width: m.len() as usize,
            })
        } else {
            Ok(with_col_slice(m, j, ow as int, parity))
        },
    }
}

/// The `k`-th step of the extension of a square of original width `ow`:
/// row 0, column 0, row 1, column 1, ... up to `ow`, then rows `ow..2 * ow`.
pub open spec fn extension_step<C: ErasureCodec>(codec: C, m: Seq<Seq<Option<Seq<u8>>>>, ow: nat, ss: nat, k: nat) -> Result<Seq<Seq<Option<Seq<u8>>>>, SquareErrorKind> {
    if k < 2 * ow {
        if k % 2 == 0 {
            extend_row_step(codec, m, ow, ss, (k / 2) as int)
        } else {
            extend_col_step(codec, m, ow, ss, (k / 2) as int)
        }
    } else {
        extend_row_step(codec, m, ow, ss, k - ow)
    }
}

/// The square after the first `k` steps of its extension, or the first error.
pub open spec fn extension_run<C: ErasureCodec>(codec: C, m: Seq<Seq<Option<Seq<u8>>>>, ow: nat, ss: nat, k: nat) -> Result<Seq<Seq<Option<Seq<u8>>>>, SquareErrorKind>
    decreases k,
{
    if k == 0 {
        Ok(m)
    } else {
        match extension_run(codec, m, ow, ss, (k - 1) as nat) {
            Err(e) => Err(e),
            Ok(m1) => extension_step(codec, m1, ow, ss, (k - 1) as nat),
        }
    }
}

/// The extension of the complete original square `ods` of width `ow` with
/// shares of size `ss`: the square grown with zero shares to twice its width,
/// then every step of the extension.
pub open spec fn erasure_extension<C: ErasureCodec>(codec: C, ods: Seq<Seq<Option<Seq<u8>>>>, ow: nat, ss: nat) -> Result<Seq<Seq<Option<Seq<u8>>>>, SquareErrorKind> {
    extension_run(codec, extended(ods, ow, ow, Seq::new(ss, |i: int| 0u8)), ow, ss, 3 * ow)
}

/// Once the extension fails, it fails with the same error at every later step.
proof fn lemma_run_err_persists<C: ErasureCodec>(codec: C, m: Seq<Seq<Option<Seq<u8>>>>, ow: nat, ss: nat, k1: nat, k2: nat)
    requires
        k1 <= k2,
        extension_run(codec, m, ow, ss, k1) is Err,
    ensures
        extension_run(codec, m, ow, ss, k2) == extension_run(codec, m, ow, ss, k1),
    decreases k2,
{
    if k2 > k1 {
        lemma_run_err_persists(codec, m, ow, ss, k1, (k2 - 1) as nat);
    }
}

/// The shares of a sequence whose shares are all present.
fn unwrap_shares(v: &Vec<Option<Vec<u8>>>) -> (r: Vec<Vec<u8>>)
    requires
        all_present(opt_shares_view(v@)),
    ensures
        shares_view(r@) == unwrap_all(opt_shares_view(v@)),
{
    let ghost target = unwrap_all(opt_shares_view(v@));
    let mut r: Vec<Vec<u8>> = Vec::with_capacity(v.len());
    let mut i: usize = 0;
    while i < v.len()
        invariant
            i <= v.len(),
            all_present(opt_shares_view(v@)),
            target == unwrap_all(opt_shares_view(v@)),
            r.len() == i,
            forall|j: int| 0 <= j < i ==> (#[trigger] r@[j])@ == target[j],
        decreases v.len() - i,
    {
        assert(opt_shares_view(v@)[i as int] is Some);
        let share = match &v[i] {
            Some(s) => copy_share(s),
            None => Vec::new(),
        };
        r.push(share);
        i += 1;
    }
    assert(shares_view(r@) =~= target);
    r
}

impl<C: ErasureCodec> ExtendedDataSquare<C> {
    /// Extend a row with erasure data: the encoding of its first
    /// `original_data_width` shares goes after them.
    fn erasure_extend_row(&mut self, row_idx: usize) -> (r: Result<(), SquareError>)
        requires
            old(self).data_square.wf(),
            row_idx < old(self).data_square.spec_width(),
            old(self).original_data_width <= old(self).data_square.spec_width(),
            all_present(old(self).data_square@[row_idx as int].take(old(self).original_data_width as int)),
        ensures
            final(self).data_square.wf(),
            final(self).data_square.spec_width() == old(self).data_square.spec_width(),
            final(self).data_square.spec_share_size() == old(self).data_square.spec_share_size(),
            final(self).original_data_width == old(self).original_data_width,
            final(self).codec == old(self).codec,
            match extend_row_step(
                *old(self).codec,
                old(self).data_square@,
                old(self).original_data_width as nat,
                old(self).data_square.spec_share_size(),
                row_idx as int,
            ) {
                Err(k) => r matches Err(e) && e.kind() == k,
                Ok(m) => r is Ok && final(self).data_square@ == m,
            },
    {
        proof {
            self.data_square.lemma_wf();
        }
        let row_slice = self.data_square.row_slice(row_idx, 0, self.original_data_width);
        assert(opt_shares_view(row_slice@) =~= self.data_square@[row_idx as int].take(self.original_data_width as int));
        let data = unwrap_shares(&row_slice);
        let parity_shares = match self.codec.encode(data.as_slice()) {
            Ok(p) => p,
            Err(e) => return Err(e),
        };
        self.data_square.set_row_slice(row_idx, self.original_data_width, parity_shares)
    }

    /// Extend a column with erasure data: the encoding of its first
    /// `original_data_width` shares goes below them.
    fn erasure_extend_col(&mut self, col_idx: usize) -> (r: Result<(), SquareError>)
        requires
            old(self).data_square.wf(),
            col_idx < old(self).data_square.spec_width(),
            old(self).original_data_width <= old(self).data_square.spec_width(),
            all_present(opt_column(old(self).data_square@, col_idx as int).take(old(self).original_data_width as int)),
        ensures
            final(self).data_square.wf(),
            final(self).data_square.spec_width() == old(self).data_square.spec_width(),
            final(self).data_square.spec_share_size() == old(self).data_square.spec_share_size(),
            final(self).original_data_width == old(self).original_data_width,
            final(self).codec == old(self).codec,
            match extend_col_step(
                *old(self).codec,
                old(self).data_square@,
                old(self).original_data_width as nat,
                old(self).data_square.spec_share_size(),
                col_idx as int,
            ) {
                Err(k) => r matches Err(e) && e.kind() == k,
                Ok(m) => r is Ok && final(self).data_square@ == m,
            },
    {
        proof {
            self.data_square.lemma_wf();
        }
        let col_slice = self.data_square.col_slice(0, col_idx, self.original_data_width);
        assert(opt_shares_view(col_slice@) =~= opt_column(self.data_square@, col_idx as int).take(self.original_data_width as int));
        let data = unwrap_shares(&col_slice);
        let parity_shares = match self.codec.encode(data.as_slice()) {
            Ok(p) => p,
            Err(e) => return Err(e),
        };
        self.data_square.set_col_slice(col_idx, self.original_data_width, parity_shares)
    }
}

/// A step of the extension keeps every share present and the shape of the square.
proof fn lemma_step_keeps_present<C: ErasureCodec>(codec: C, m: Seq<Seq<Option<Seq<u8>>>>, ow: nat, ss: nat, k: nat, w: nat)
    requires
        all_cells_present(m),
        opt_square_shape(m, w),
        extension_step(codec, m, ow, ss, k) is Ok,
    ensures
        all_cells_present(extension_step(codec, m, ow, ss, k)->Ok_0),
        opt_square_shape(extension_step(codec, m, ow, ss, k)->Ok_0, w),
{
}

impl<C: ErasureCodec> ExtendedDataSquare<C> {
    /// Perform erasure extension of the square: it is grown to twice its
    /// width with zero shares, then rows and columns of the original square
    /// are extended in turn, then the remaining rows.
    fn erasure_extend_square(&mut self) -> (r: Result<(), SquareError>)
        requires
            old(self).data_square.wf(),
            all_cells_present(old(self).data_square@),
            old(self).data_square.spec_width() + old(self).data_square.spec_width() <= usize::MAX,
        ensures
            final(self).data_square.wf(),
            final(self).original_data_width == old(self).data_square.spec_width(),
            final(self).data_square.spec_share_size() == old(self).data_square.spec_share_size(),
            final(self).codec == old(self).codec,
            match erasure_extension(
                *old(self).codec,
                old(self).data_square@,
                old(self).data_square.spec_width(),
                old(self).data_square.spec_share_size(),
            ) {
                Err(k) => r matches Err(e) && e.kind() == k,
                Ok(m) => r is Ok && final(self).data_square@ == m && final(self).data_square.spec_width() == 2
                    * old(self).data_square.spec_width(),
            },
    {
        let ghost codec = self.spec_codec();
        let ghost ss = self.data_square.spec_share_size();
        let ghost ow = self.data_square.spec_width();
        proof {
            self.data_square.lemma_wf();
        }
        let ghost old_cells = self.data_square@;
        self.original_data_width = self.data_square.width();
        let filler_share = zeros(self.data_square.share_size());
        let w = self.data_square.width();
        match self.data_square.extend_square(w, filler_share) {
            Ok(()) => {},
            Err(e) => return Err(e),
        }
        let ghost m0 = self.data_square@;
        proof {
            self.data_square.lemma_wf();
            assert forall|r: int, c: int| 0 <= r < m0.len() && 0 <= c < m0[r].len() implies (#[trigger] m0[r][c]) is Some by {
                if r < ow && c < ow {
                    assert(m0[r][c] == old_cells[r][c]);
                }
            }
        }
        let width = self.data_square.width();
        let mut i: usize = 0;
        while i < self.original_data_width
            invariant
                self.data_square.wf(),
                codec == *self.codec,
                ss == self.data_square.spec_share_size(),
                ow == self.original_data_width,
                width == self.data_square.spec_width(),
                width == 2 * ow,
                i <= ow,
                all_cells_present(self.data_square@),
                opt_square_shape(self.data_square@, width as nat),
                m0 == extended(old_cells, ow, ow, Seq::new(ss, |i: int| 0u8)),
                old_cells == old(self).data_square@,
                ow == old(self).data_square.spec_width(),
                ss == old(self).data_square.spec_share_size(),
                self.codec == old(self).codec,
                extension_run(codec, m0, ow, ss, (2 * i) as nat) == Ok::<Seq<Seq<Option<Seq<u8>>>>, SquareErrorKind>(self.data_square@),
            decreases ow - i,
        {
            let ghost before = self.data_square@;
            match self.erasure_extend_row(i) {
                Ok(()) => {},
                Err(e) => {
                    proof {
                        lemma_run_err_persists(codec, m0, ow, ss, (2 * i + 1) as nat, 3 * ow);
                    }
                    return Err(e);
                },
            }
            proof {
                lemma_step_keeps_present(codec, before, ow, ss, (2 * i) as nat, width as nat);
                self.data_square.lemma_wf();
            }
            let ghost mid = self.data_square@;
            assert((2 * i) as nat % 2 == 0 && (2 * i) as nat / 2 == i);
            assert((2 * i + 1) as nat % 2 == 1 && (2 * i + 1) as nat / 2 == i);
            assert(extension_run(codec, m0, ow, ss, (2 * i + 1) as nat) == Ok::<Seq<Seq<Option<Seq<u8>>>>, SquareErrorKind>(mid));
            match self.erasure_extend_col(i) {
                Ok(()) => {},
                Err(e) => {
                    proof {
                        lemma_run_err_persists(codec, m0, ow, ss, (2 * i + 2) as nat, 3 * ow);
                    }
                    return Err(e);
                },
            }
            proof {
                lemma_step_keeps_present(codec, mid, ow, ss, (2 * i + 1) as nat, width as nat);
                self.data_square.lemma_wf();
            }
            i += 1;
        }
        let mut i: usize = self.original_data_width;
        while i < width
            invariant
                self.data_square.wf(),
                codec == *self.codec,
                ss == self.data_square.spec_share_size(),
                ow == self.original_data_width,
                width == self.data_square.spec_width(),
                width == 2 * ow,
                ow <= i <= width,
                all_cells_present(self.data_square@),
                opt_square_shape(self.data_square@, width as nat),
                m0 == extended(old_cells, ow, ow, Seq::new(ss, |i: int| 0u8)),
                old_cells == old(self).data_square@,
                ow == old(self).data_square.spec_width(),
                ss == old(self).data_square.spec_share_size(),
                self.codec == old(self).codec,
                extension_run(codec, m0, ow, ss, (ow + i) as nat) == Ok::<Seq<Seq<Option<Seq<u8>>>>, SquareErrorKind>(self.data_square@),
            decreases width - i,
        {
            let ghost before = self.data_square@;
            match self.erasure_extend_row(i) {
                Ok(()) => {},
                Err(e) => {
                    proof {
                        lemma_run_err_persists(codec, m0, ow, ss, (ow + i + 1) as nat, 3 * ow);
                    }
                    return Err(e);
                },
            }
            proof {
                lemma_step_keeps_present(codec, before, ow, ss, (ow + i) as nat, width as nat);
                self.data_square.lemma_wf();
            }
            i += 1;
        }
        Ok(())
    }
}

/// Every share of the sequence, present.
pub open spec fn all_some(v: Seq<Seq<u8>>) -> Seq<Option<Seq<u8>>> {
    v.map_values(|x: Seq<u8>| Some(x))
}

/// The size of the first share, or zero when there is none.
pub open spec fn first_share_size(v: Seq<Seq<u8>>) -> nat {
    if v.len() == 0 {
        0
    } else {
        v[0].len()
    }
}

/// The size of the first present share, or zero when none is present.
pub open spec fn first_present_size(v: Seq<Option<Seq<u8>>>) -> nat
    decreases v.len(),
{
    if v.len() == 0 {
        0
    } else if v[0] is Some {
        v[0]->0.len()
    } else {
        first_present_size(v.drop_first())
    }
}

/// Get the share size from the first share.
fn get_share_size(data: &[Vec<u8>]) -> (n: usize)
    ensures
        n as nat == first_share_size(shares_view(data@)),
{
    if data.len() == 0 {
        0
    } else {
        data[0].len()
    }
}

/// Get the share size from the first present share.
fn get_share_size_optional(data: &[Option<Vec<u8>>]) -> (n: usize)
    ensures
        n as nat == first_present_size(opt_shares_view(data@)),
{
    let ghost v = opt_shares_view(data@);
    let mut i: usize = 0;
    while i < data.len()
        invariant
            i <= data.len(),
            v == opt_shares_view(data@),
            first_present_size(v) == first_present_size(v.subrange(i as int, v.len() as int)),
        decreases data.len() - i,
    {
        assert(v.subrange(i as int, v.len() as int).drop_first() =~= v.subrange(i + 1, v.len() as int));
        if let Some(share) = &data[i] {
            return share.len();
        }
        i += 1;
    }
    0
}

/// Deep copy a vector of byte vectors.
fn deep_copy(original: &Vec<Vec<u8>>) -> (r: Vec<Vec<u8>>)
    ensures
        shares_view(r@) == shares_view(original@),
{
    copy_shares(original)
}

/// Deep copy a vector of optional byte vectors.
fn deep_copy_optional(original: &Vec<Option<Vec<u8>>>) -> (r: Vec<Option<Vec<u8>>>)
    ensures
        opt_shares_view(r@) == opt_shares_view(original@),
{
    crate::shares::copy_opt_shares(original)
}

/// Check if all shares in an optional slice are present.
fn is_complete_optional(shares: &[Option<Vec<u8>>]) -> (r: bool)
    ensures
        r == all_present(opt_shares_view(shares@)),
{
    crate::shares::is_complete(shares)
}

/// The original square: the first `ow` shares of each of the first `ow` rows.
pub open spec fn ods_rows(m: Seq<Seq<Option<Seq<u8>>>>, ow: nat) -> Seq<Seq<Option<Seq<u8>>>> {
    Seq::new(ow, |r: int| m[r].take(ow as int))
}

impl<C: ErasureCodec> ExtendedDataSquare<C> {
    /// The two squares have the same width, original width, share size and codec.
    pub open spec fn same_frame(&self, other: &Self) -> bool {
        &&& self.spec_width() == other.spec_width()
        &&& self.spec_original_width() == other.spec_original_width()
        &&& self.spec_share_size() == other.spec_share_size()
        &&& self.spec_codec() == other.spec_codec()
    }

    /// Get a copy of a column.
    pub fn col(&self, col_idx: usize) -> (r: Vec<Option<Vec<u8>>>)
        requires
            self.wf(),
            col_idx < self.spec_width(),
        ensures
            opt_shares_view(r@) == opt_column(self.cells(), col_idx as int),
    {
        deep_copy_optional(&self.data_square.col(col_idx))
    }

    /// Get column roots: the merkle root of every column, when all columns
    /// are complete.
    pub fn col_roots(&mut self) -> (r: Result<Vec<Vec<u8>>, SquareError>)
        requires
            old(self).wf(),
        ensures
            final(self).wf(),
            final(self).cells() == old(self).cells(),
            final(self).same_frame(old(self)),
            r is Ok <==> cols_complete(old(self).cells(), old(self).spec_width()),
            r matches Ok(roots) ==> shares_view(roots@) == cols_roots(old(self).cells(), old(self).spec_width()),
            r is Err ==> (r matches Err(SquareError::IncompleteAxis { axis: Axis::Col })),
    {
        match self.data_square.get_col_roots() {
            Ok(col_roots) => Ok(deep_copy(&col_roots)),
            Err(e) => Err(e),
        }
    }

    /// Get a copy of a row.
    pub fn row(&self, row_idx: usize) -> (r: Vec<Option<Vec<u8>>>)
        requires
            self.wf(),
            row_idx < self.spec_width(),
        ensures
            opt_shares_view(r@) == self.cells()[row_idx as int],
    {
        deep_copy_optional(&self.data_square.row(row_idx))
    }

    /// Get row roots: the merkle root of every row, when all rows are complete.
    pub fn row_roots(&mut self) -> (r: Result<Vec<Vec<u8>>, SquareError>)
        requires
            old(self).wf(),
        ensures
            final(self).wf(),
            final(self).cells() == old(self).cells(),
            final(self).same_frame(old(self)),
            r is Ok <==> rows_complete(old(self).cells()),
            r matches Ok(roots) ==> shares_view(roots@) == rows_roots(old(self).cells()),
            r is Err ==> (r matches Err(SquareError::IncompleteAxis { axis: Axis::Row })),
    {
        match self.data_square.get_row_roots() {
            Ok(row_roots) => Ok(deep_copy(&row_roots)),
            Err(e) => Err(e),
        }
    }

    /// Get the width of the square.
    pub fn width(&self) -> (w: usize)
        ensures
            w as nat == self.spec_width(),
    {
        self.data_square.width()
    }

    /// Get the flattened extended data square: its shares row by row.
    pub fn flattened(&self) -> (r: Vec<Option<Vec<u8>>>)
        requires
            self.wf(),
        ensures
            opt_shares_view(r@) == self.cells().flatten(),
    {
        deep_copy_optional(&self.data_square.flattened())
    }

    /// Get the flattened original data square: the first half of each of the
    /// first half of the rows, row by row.
    pub fn flattened_ods(&self) -> (r: Vec<Option<Vec<u8>>>)
        requires
            self.wf(),
        ensures
            opt_shares_view(r@) == ods_rows(self.cells(), self.spec_original_width()).flatten(),
    {
        proof {
            self.lemma_wf();
        }
        let ow = self.original_data_width;
        let ghost m = ods_rows(self.cells(), ow as nat);
        let mut flattened: Vec<Option<Vec<u8>>> = Vec::new();
        let mut row_idx: usize = 0;
        while row_idx < ow
            invariant
                self.wf(),
                ow == self.original_data_width,
                ow <= self.spec_width(),
                opt_square_shape(self.cells(), self.spec_width()),
                m == ods_rows(self.cells(), ow as nat),
                row_idx <= ow,
                opt_shares_view(flattened@) == m.take(row_idx as int).flatten(),
            decreases ow - row_idx,
        {
            let row = self.row(row_idx);
            let mut j: usize = 0;
            while j < ow
                invariant
                    row_idx < ow,
                    ow <= row.len(),
                    opt_shares_view(row@) == self.cells()[row_idx as int],
                    m == ods_rows(self.cells(), ow as nat),
                    j <= ow,
                    opt_shares_view(flattened@) == m.take(row_idx as int).flatten() + m[row_idx as int].take(j as int),
                decreases ow - j,
            {
                let ghost before = opt_shares_view(flattened@);
                flattened.push(copy_opt_share(&row[j]));
                assert(opt_shares_view(flattened@) =~= before.push(m[row_idx as int][j as int]));
                assert(m[row_idx as int].take(j + 1) =~= m[row_idx as int].take(j as int).push(m[row_idx as int][j as int]));
                j += 1;
            }
            proof {
                assert(m[row_idx as int].take(ow as int) =~= m[row_idx as int]);
                assert(m.take(row_idx + 1) =~= m.take(row_idx as int).push(m[row_idx as int]));
                m.take(row_idx as int).lemma_flatten_push(m[row_idx as int]);
            }
            row_idx += 1;
        }
        assert(m.take(ow as int) =~= m);
        flattened
    }

    /// Check if this square equals another: same original width, codec name,
    /// share size and width, and the same shares everywhere.
    pub fn equals(&mut self, other: &mut ExtendedDataSquare<C>) -> (r: Result<bool, SquareError>)
        requires
            old(self).wf(),
            old(other).wf(),
        ensures
            *final(self) == *old(self),
            *final(other) == *old(other),
            r matches Ok(b) && b == ({
                &&& old(self).spec_original_width() == old(other).spec_original_width()
                &&& old(self).spec_codec().spec_name() == old(other).spec_codec().spec_name()
                &&& old(self).spec_share_size() == old(other).spec_share_size()
                &&& old(self).spec_width() == old(other).spec_width()
                &&& old(self).cells() == old(other).cells()
            }),
    {
        proof {
            self.lemma_wf();
            other.lemma_wf();
        }
        let self_name = self.codec.name();
        let other_name = other.codec.name();
        if self.original_data_width != other.original_data_width || !(self_name == other_name)
            || self.data_square.share_size() != other.data_square.share_size()
            || self.data_square.width() != other.data_square.width() {
            return Ok(false);
        }
        let w = self.width();
        let ghost a = self.cells();
        let ghost b = other.cells();
        let mut row_idx: usize = 0;
        while row_idx < w
            invariant
                self.wf(),
                other.wf(),
                *self == *old(self),
                *other == *old(other),
                a == self.cells(),
                b == other.cells(),
                w == self.spec_width(),
                w == other.spec_width(),
                opt_square_shape(a, w as nat),
                opt_square_shape(b, w as nat),
                row_idx <= w,
                old(self).spec_original_width() == old(other).spec_original_width(),
                old(self).spec_codec().spec_name() == old(other).spec_codec().spec_name(),
                old(self).spec_share_size() == old(other).spec_share_size(),
                old(self).spec_width() == old(other).spec_width(),
                forall|r: int| 0 <= r < row_idx ==> #[trigger] a[r] == b[r],
            decreases w - row_idx,
        {
            let self_row = self.row(row_idx);
            let other_row = other.row(row_idx);
            let mut col_idx: usize = 0;
            while col_idx < self_row.len()
                invariant
                    row_idx < w,
                    self_row.len() == w,
                    other_row.len() == w,
                    opt_shares_view(self_row@) == a[row_idx as int],
                    opt_shares_view(other_row@) == b[row_idx as int],
                    col_idx <= w,
                    *self == *old(self),
                    *other == *old(other),
                    a == old(self).cells(),
                    b == old(other).cells(),
                    old(self).spec_original_width() == old(other).spec_original_width(),
                    old(self).spec_codec().spec_name() == old(other).spec_codec().spec_name(),
                    old(self).spec_share_size() == old(other).spec_share_size(),
                    old(self).spec_width() == old(other).spec_width(),
                    forall|c: int| 0 <= c < col_idx ==> #[trigger] a[row_idx as int][c] == b[row_idx as int][c],
                decreases w - col_idx,
            {
                match (&self_row[col_idx], &other_row[col_idx]) {
                    (Some(x), Some(y)) => {
                        if !crate::shares::share_eq(x, y) {
                            assert(a[row_idx as int][col_idx as int] != b[row_idx as int][col_idx as int]);
                            return Ok(false);
                        }
                    },
                    (None, None) => {},
                    _ => {
                        assert(a[row_idx as int][col_idx as int] != b[row_idx as int][col_idx as int]);
                        return Ok(false);
                    },
                }
                col_idx += 1;
            }
            assert(a[row_idx as int] =~= b[row_idx as int]);
            row_idx += 1;
        }
        assert(a =~= b);
        Ok(true)
    }

    /// Get the merkle roots of all rows followed by those of all columns.
    pub fn roots(&mut self) -> (r: Result<Vec<Vec<u8>>, SquareError>)
        requires
            old(self).wf(),
        ensures
            final(self).wf(),
            final(self).cells() == old(self).cells(),
            final(self).same_frame(old(self)),
            r is Ok <==> rows_complete(old(self).cells()) && cols_complete(old(self).cells(), old(self).spec_width()),
            r matches Ok(roots) ==> shares_view(roots@) == rows_roots(old(self).cells()) + cols_roots(
                old(self).cells(),
                old(self).spec_width(),
            ),
            !rows_complete(old(self).cells()) ==> (r matches Err(SquareError::IncompleteAxis { axis: Axis::Row })),
            rows_complete(old(self).cells()) && !cols_complete(old(self).cells(), old(self).spec_width()) ==> (r matches Err(
                SquareError::IncompleteAxis { axis: Axis::Col },
            )),
    {
        let row_roots = match self.row_roots() {
            Ok(v) => v,
            Err(e) => return Err(e),
        };
        let col_roots = match self.col_roots() {
            Ok(v) => v,
            Err(e) => return Err(e),
        };
        let mut roots: Vec<Vec<u8>> = Vec::new();
        let mut i: usize = 0;
        while i < row_roots.len()
            invariant
                i <= row_roots.len(),
                shares_view(roots@) == shares_view(row_roots@).take(i as int),
            decreases row_roots.len() - i,
        {
            let ghost before = shares_view(roots@);
            roots.push(copy_share(&row_roots[i]));
            assert(shares_view(roots@) =~= before.push(row_roots@[i as int]@));
            assert(shares_view(roots@) =~= shares_view(row_roots@).take(i + 1));
            i += 1;
        }
        let mut j: usize = 0;
        while j < col_roots.len()
            invariant
                j <= col_roots.len(),
                shares_view(roots@) == shares_view(row_roots@) + shares_view(col_roots@).take(j as int),
            decreases col_roots.len() - j,
        {
            let ghost before = shares_view(roots@);
            roots.push(copy_share(&col_roots[j]));
            assert(shares_view(roots@) =~= before.push(col_roots@[j as int]@));
            assert(shares_view(roots@) =~= shares_view(row_roots@) + shares_view(col_roots@).take(j + 1));
            j += 1;
        }
        assert(shares_view(roots@) =~= shares_view(row_roots@) + shares_view(col_roots@));
        Ok(roots)
    }

    /// Whether enough shares are present to attempt reconstruction: at least
    /// half of them.
    fn can_reconstruct(&self, data: &[Option<Vec<u8>>]) -> (r: bool)
        ensures
            r == (count_present(opt_shares_view(data@)) >= data.len() / 2),
    {
        let present_count = crate::shares::count_present_exec(data);
        let total = data.len();
        present_count >= total / 2
    }
}

impl<C: ErasureCodec> ExtendedDataSquare<C> {
    /// Attempt to solve a row: a complete row is solved as it is; one with at
    /// least half of its shares present is decoded, checked against its root
    /// and its missing shares filled in. Returns whether the row is solved and
    /// whether shares were added.
    fn solve_crossword_row(
        &mut self,
        row_idx: usize,
        row_roots: &[Vec<u8>],
        col_roots: &[Vec<u8>],
    ) -> (r: Result<(bool, bool), SquareError>)
        requires
            old(self).wf(),
            row_idx < old(self).spec_width(),
            row_roots.len() == old(self).spec_width(),
        ensures
            final(self).wf(),
            final(self).same_frame(old(self)),
            keeps_present(old(self).cells(), final(self).cells()),
            r is Err ==> final(self).cells() == old(self).cells(),
            match attempt(
                old(self).spec_codec(),
                old(self).cells(),
                old(self).spec_share_size(),
                shares_view(row_roots@),
                shares_view(col_roots@),
                (2 * row_idx) as nat,
            ) {
                Ok((m2, s, p)) => r matches Ok(x) && x == (s, p) && final(self).cells() == m2,
                Err(f) => r matches Err(e) && reports(e, f),
            },
            r matches Ok((solved, progress)) ==> (progress ==> {
                &&& old(self).spec_codec().spec_recover(old(self).cells()[row_idx as int]) matches Ok(rec) && merkle_root(rec)
                    == shares_view(row_roots@)[row_idx as int]
                &&& final(self).cells()[row_idx as int] == filled(
                    old(self).cells()[row_idx as int],
                    old(self).spec_codec().spec_recover(old(self).cells()[row_idx as int])->Ok_0,
                )
            }),
    {
        proof {
            self.lemma_wf();
            crate::laws::law_attempt_checks_root(
                self.spec_codec(),
                self.cells(),
                self.spec_share_size(),
                shares_view(row_roots@),
                shares_view(col_roots@),
                (2 * row_idx) as nat,
            );
        }
        let ghost m = self.cells();
        let ghost ss = self.spec_share_size();
        let ghost k: nat = (2 * row_idx) as nat;
        assert(k / 2 == row_idx && k % 2 == 0);
        let row = self.row(row_idx);
        let ghost v = opt_shares_view(row@);
        assert(v == attempt_axis(m, k));
        assert(keeps_present(m, m));
        if is_complete_optional(row.as_slice()) {
            return Ok((true, false));
        }
        if !self.can_reconstruct(row.as_slice()) {
            return Ok((false, false));
        }
        let reconstructed = match self.codec.decode(row.as_slice()) {
            Ok(v) => v,
            Err(e) => return Err(e),
        };
        let ghost rec = shares_view(reconstructed@);
        let computed_root = root_of_shares(&reconstructed);
        if !crate::shares::share_eq(&computed_root, &row_roots[row_idx]) {
            return Err(byzantine_error(Axis::Row, row_idx, &row));
        }
        let w = self.data_square.width();
        let share_size = self.data_square.share_size();
        let mut c: usize = 0;
        while c < reconstructed.len()
            invariant
                reconstructed.len() == w,
                row.len() == w,
                v == opt_shares_view(row@),
                rec == shares_view(reconstructed@),
                share_size == ss,
                c <= w,
                *self == *old(self),
                old(self).wf(),
                w == old(self).spec_width(),
                row_idx < w,
                m == old(self).cells(),
                ss == old(self).spec_share_size(),
                v == m[row_idx as int],
                v == attempt_axis(m, k),
                k == 2 * row_idx,
                k / 2 == row_idx,
                k % 2 == 0,
                old(self).spec_codec().spec_recover(v) == Ok::<Seq<Seq<u8>>, SquareErrorKind>(rec),
                !all_present(v),
                count_present(v) >= v.len() / 2,
                merkle_root(rec) == shares_view(row_roots@)[row_idx as int],
                keeps_present(m, m),
                forall|c2: int| 0 <= c2 < c && (#[trigger] v[c2]) is None ==> rec[c2].len() == ss,
            decreases w - c,
        {
            if row[c].is_none() && reconstructed[c].len() != share_size {
                proof {
                    assert(v[c as int] is None);
                    assert(is_first_bad_fill(v, rec, ss, c as int));
                    let c0 = choose|c1: int| is_first_bad_fill(v, rec, ss, c1);
                    if c0 < c {
                        assert(v[c0] is None);
                    } else if c0 > c {
                        assert(v[c as int] is None);
                    }
                    assert(c0 == c);
                }
                return Err(
                    SquareError::CellChunkSizeMismatch { chunk_size: reconstructed[c].len(), expected_size: share_size },
                );
            }
            c += 1;
        }
        assert(filled_upto(v, rec, 0) =~= v);
        assert(m.update(row_idx as int, v) =~= m);
        let mut col_idx: usize = 0;
        while col_idx < reconstructed.len()
            invariant
                self.wf(),
                self.same_frame(old(self)),
                w == self.spec_width(),
                row_idx < w,
                m == old(self).cells(),
                opt_square_shape(m, w as nat),
                ss == self.spec_share_size(),
                v == opt_shares_view(row@),
                v == m[row_idx as int],
                rec == shares_view(reconstructed@),
                reconstructed.len() == w,
                col_idx <= w,
                self.cells() == m.update(row_idx as int, filled_upto(v, rec, col_idx as int)),
                forall|c2: int| 0 <= c2 < w && (#[trigger] v[c2]) is None ==> rec[c2].len() == ss,
                k == 2 * row_idx,
                old(self).spec_codec().spec_recover(v) == Ok::<Seq<Seq<u8>>, SquareErrorKind>(rec),
                !all_present(v),
                count_present(v) >= v.len() / 2,
                merkle_root(rec) == shares_view(row_roots@)[row_idx as int],
            decreases w - col_idx,
        {
            proof {
                self.lemma_wf();
            }
            if row[col_idx].is_none() {
                let share = crate::shares::copy_share(&reconstructed[col_idx]);
                match self.data_square.set_cell(row_idx, col_idx, share) {
                    Ok(()) => {
                        assert(self.cells() =~~= m.update(row_idx as int, filled_upto(v, rec, col_idx + 1)));
                    },
                    Err(e) => return Err(e),
                }
            } else {
                assert(self.cells() =~~= m.update(row_idx as int, filled_upto(v, rec, col_idx + 1)));
            }
            col_idx += 1;
        }
        proof {
            assert(filled_upto(v, rec, w as int) =~= filled(v, rec));
            assert(!exists|c: int| is_first_bad_fill(v, rec, ss, c));
            assert(fill_outcome(v, rec, ss) == Ok::<Seq<Option<Seq<u8>>>, SquareErrorKind>(filled(v, rec)));
            self.lemma_wf();
        }
        Ok((true, true))
    }
}

impl<C: ErasureCodec> ExtendedDataSquare<C> {
    /// Attempt to solve a column: a complete column is solved as it is; one
    /// with at least half of its shares present is decoded, checked against
    /// its root and its missing shares filled in. Returns whether the column
    /// is solved and whether shares were added.
    fn solve_crossword_col(
        &mut self,
        col_idx: usize,
        row_roots: &[Vec<u8>],
        col_roots: &[Vec<u8>],
    ) -> (r: Result<(bool, bool), SquareError>)
        requires
            old(self).wf(),
            col_idx < old(self).spec_width(),
            col_roots.len() == old(self).spec_width(),
        ensures
            final(self).wf(),
            final(self).same_frame(old(self)),
            keeps_present(old(self).cells(), final(self).cells()),
            r is Err ==> final(self).cells() == old(self).cells(),
            match attempt(
                old(self).spec_codec(),
                old(self).cells(),
                old(self).spec_share_size(),
                shares_view(row_roots@),
                shares_view(col_roots@),
                (2 * col_idx + 1) as nat,
            ) {
                Ok((m2, s, p)) => r matches Ok(x) && x == (s, p) && final(self).cells() == m2,
                Err(f) => r matches Err(e) && reports(e, f),
            },
            r matches Ok((solved, progress)) ==> (progress ==> {
                &&& old(self).spec_codec().spec_recover(opt_column(old(self).cells(), col_idx as int)) matches Ok(rec) && merkle_root(rec)
                    == shares_view(col_roots@)[col_idx as int]
                &&& opt_column(final(self).cells(), col_idx as int) == filled(
                    opt_column(old(self).cells(), col_idx as int),
                    old(self).spec_codec().spec_recover(opt_column(old(self).cells(), col_idx as int))->Ok_0,
                )
            }),
    {
        proof {
            self.lemma_wf();
            crate::laws::law_attempt_checks_root(
                self.spec_codec(),
                self.cells(),
                self.spec_share_size(),
                shares_view(row_roots@),
                shares_view(col_roots@),
                (2 * col_idx + 1) as nat,
            );
        }
        let ghost m = self.cells();
        let ghost ss = self.spec_share_size();
        let ghost k: nat = (2 * col_idx + 1) as nat;
        assert(k / 2 == col_idx && k % 2 == 1);
        let col = self.col(col_idx);
        let ghost v = opt_shares_view(col@);
        assert(v == attempt_axis(m, k));
        assert(keeps_present(m, m));
        if is_complete_optional(col.as_slice()) {
            return Ok((true, false));
        }
        if !self.can_reconstruct(col.as_slice()) {
            return Ok((false, false));
        }
        let reconstructed = match self.codec.decode(col.as_slice()) {
            Ok(v) => v,
            Err(e) => return Err(e),
        };
        let ghost rec = shares_view(reconstructed@);
        let computed_root = root_of_shares(&reconstructed);
        if !crate::shares::share_eq(&computed_root, &col_roots[col_idx]) {
            return Err(byzantine_error(Axis::Col, col_idx, &col));
        }
        let w = self.data_square.width();
        let share_size = self.data_square.share_size();
        let mut c: usize = 0;
        while c < reconstructed.len()
            invariant
                reconstructed.len() == w,
                col.len() == w,
                v == opt_shares_view(col@),
                rec == shares_view(reconstructed@),
                share_size == ss,
                c <= w,
                *self == *old(self),
                old(self).wf(),
                w == old(self).spec_width(),
                col_idx < w,
                m == old(self).cells(),
                ss == old(self).spec_share_size(),
                v == opt_column(m, col_idx as int),
                v == attempt_axis(m, k),
                k == 2 * col_idx + 1,
                k / 2 == col_idx,
                k % 2 == 1,
                old(self).spec_codec().spec_recover(v) == Ok::<Seq<Seq<u8>>, SquareErrorKind>(rec),
                !all_present(v),
                count_present(v) >= v.len() / 2,
                merkle_root(rec) == shares_view(col_roots@)[col_idx as int],
                keeps_present(m, m),
                forall|c2: int| 0 <= c2 < c && (#[trigger] v[c2]) is None ==> rec[c2].len() == ss,
            decreases w - c,
        {
            if col[c].is_none() && reconstructed[c].len() != share_size {
                proof {
                    assert(v[c as int] is None);
                    assert(is_first_bad_fill(v, rec, ss, c as int));
                    let c0 = choose|c1: int| is_first_bad_fill(v, rec, ss, c1);
                    if c0 < c {
                        assert(v[c0] is None);
                    } else if c0 > c {
                        assert(v[c as int] is None);
                    }
                    assert(c0 == c);
                }
                return Err(
                    SquareError::CellChunkSizeMismatch { chunk_size: reconstructed[c].len(), expected_size: share_size },
                );
            }
            c += 1;
        }
        assert(filled_upto(v, rec, 0) =~= v);
        assert(with_column(m, col_idx as int, v) =~~= m);
        let mut row_idx: usize = 0;
        while row_idx < reconstructed.len()
            invariant
                self.wf(),
                self.same_frame(old(self)),
                w == self.spec_width(),
                col_idx < w,
                m == old(self).cells(),
                opt_square_shape(m, w as nat),
                ss == self.spec_share_size(),
                v == opt_shares_view(col@),
                v == opt_column(m, col_idx as int),
                rec == shares_view(reconstructed@),
                reconstructed.len() == w,
                row_idx <= w,
                self.cells() == with_column(m, col_idx as int, filled_upto(v, rec, row_idx as int)),
                forall|r2: int| 0 <= r2 < w && (#[trigger] v[r2]) is None ==> rec[r2].len() == ss,
                k == 2 * col_idx + 1,
                old(self).spec_codec().spec_recover(v) == Ok::<Seq<Seq<u8>>, SquareErrorKind>(rec),
                !all_present(v),
                count_present(v) >= v.len() / 2,
                merkle_root(rec) == shares_view(col_roots@)[col_idx as int],
            decreases w - row_idx,
        {
            proof {
                self.lemma_wf();
            }
            if col[row_idx].is_none() {
                let share = crate::shares::copy_share(&reconstructed[row_idx]);
                match self.data_square.set_cell(row_idx, col_idx, share) {
                    Ok(()) => {
                        assert(self.cells() =~~= with_column(m, col_idx as int, filled_upto(v, rec, row_idx + 1)));
                    },
                    Err(e) => return Err(e),
                }
            } else {
                assert(self.cells() =~~= with_column(m, col_idx as int, filled_upto(v, rec, row_idx + 1)));
            }
            row_idx += 1;
        }
        proof {
            assert(filled_upto(v, rec, w as int) =~= filled(v, rec));
            assert(!exists|c: int| is_first_bad_fill(v, rec, ss, c));
            assert(fill_outcome(v, rec, ss) == Ok::<Seq<Option<Seq<u8>>>, SquareErrorKind>(filled(v, rec)));
            self.lemma_wf();
        }
        Ok((true, true))
    }
}

impl<C: ErasureCodec> ExtendedDataSquare<C> {
    /// Solve the crossword puzzle to repair the square: passes over all rows
    /// and columns until one solves them all, or adds no share.
    fn solve_crossword(&mut self, row_roots: &[Vec<u8>], col_roots: &[Vec<u8>]) -> (r: Result<(), SquareError>)
        requires
            old(self).wf(),
            row_roots.len() == old(self).spec_width(),
            col_roots.len() == old(self).spec_width(),
        ensures
            final(self).wf(),
            final(self).same_frame(old(self)),
            keeps_present(old(self).cells(), final(self).cells()),
            final(self).cells() == crossword_stop(
                old(self).spec_codec(),
                old(self).cells(),
                old(self).spec_share_size(),
                shares_view(row_roots@),
                shares_view(col_roots@),
            ),
            match crossword(
                old(self).spec_codec(),
                old(self).cells(),
                old(self).spec_share_size(),
                shares_view(row_roots@),
                shares_view(col_roots@),
            ) {
                Ok(m) => r is Ok && final(self).cells() == m,
                Err(f) => r matches Err(e) && reports(e, f),
            },
    {
        let ghost codec = self.spec_codec();
        let ghost ss = self.spec_share_size();
        let ghost rr = shares_view(row_roots@);
        let ghost cr = shares_view(col_roots@);
        let ghost m0 = self.cells();
        let w = self.width();
        proof {
            self.lemma_wf();
            assert(keeps_present(m0, m0));
        }
        loop
            invariant
                self.wf(),
                self.same_frame(old(self)),
                w == self.spec_width(),
                codec == self.spec_codec(),
                ss == self.spec_share_size(),
                rr == shares_view(row_roots@),
                cr == shares_view(col_roots@),
                row_roots.len() == w,
                col_roots.len() == w,
                m0 == old(self).cells(),
                opt_square_shape(self.cells(), w as nat),
                keeps_present(m0, self.cells()),
                crossword(codec, m0, ss, rr, cr) == crossword(codec, self.cells(), ss, rr, cr),
                crossword_stop(codec, m0, ss, rr, cr) == crossword_stop(codec, self.cells(), ss, rr, cr),
            decreases crate::crossword::count_missing(self.cells()),
        {
            let ghost start = self.cells();
            let mut solved = true;
            let mut progress_made = false;
            let mut i: usize = 0;
            while i < w
                invariant
                    self.wf(),
                    self.same_frame(old(self)),
                    w == self.spec_width(),
                    codec == self.spec_codec(),
                    ss == self.spec_share_size(),
                    rr == shares_view(row_roots@),
                    cr == shares_view(col_roots@),
                    row_roots.len() == w,
                    col_roots.len() == w,
                    m0 == old(self).cells(),
                    opt_square_shape(start, w as nat),
                    keeps_present(m0, self.cells()),
                    crossword(codec, m0, ss, rr, cr) == crossword(codec, start, ss, rr, cr),
                    crossword_stop(codec, m0, ss, rr, cr) == crossword_stop(codec, start, ss, rr, cr),
                    i <= w,
                    pass_run(codec, start, ss, rr, cr, (2 * i) as nat) == Ok::<
                        (Seq<Seq<Option<Seq<u8>>>>, bool, bool),
                        CrosswordFailure,
                    >((self.cells(), solved, progress_made)),
                decreases w - i,
            {
                let ghost before_row = self.cells();
                assert((2 * i + 1 - 1) as nat == (2 * i) as nat);
                let (solved_row, progress_row) = match self.solve_crossword_row(i, row_roots, col_roots) {
                    Ok(x) => x,
                    Err(e) => {
                        proof {
                            lemma_keeps_present_trans(m0, before_row, self.cells());
                            lemma_pass_err_persists(codec, start, ss, rr, cr, (2 * i + 1) as nat, (2 * w) as nat);
                            lemma_pass_stop_ok(codec, start, ss, rr, cr, (2 * i) as nat);
                            lemma_pass_stop_persists(codec, start, ss, rr, cr, (2 * i + 1) as nat, (2 * w) as nat);
                        }
                        return Err(e);
                    },
                };
                let ghost before_col = self.cells();
                proof {
                    lemma_keeps_present_trans(m0, before_row, before_col);
                    assert(pass_run(codec, start, ss, rr, cr, (2 * i + 1) as nat) == Ok::<
                        (Seq<Seq<Option<Seq<u8>>>>, bool, bool),
                        CrosswordFailure,
                    >((before_col, solved && solved_row, progress_made || progress_row)));
                }
                assert((2 * i + 2 - 1) as nat == (2 * i + 1) as nat);
                let (solved_col, progress_col) = match self.solve_crossword_col(i, row_roots, col_roots) {
                    Ok(x) => x,
                    Err(e) => {
                        proof {
                            lemma_keeps_present_trans(m0, before_col, self.cells());
                            assert(pass_run(codec, start, ss, rr, cr, (2 * i + 2) as nat) is Err);
                            lemma_pass_err_persists(codec, start, ss, rr, cr, (2 * i + 2) as nat, (2 * w) as nat);
                            lemma_pass_stop_ok(codec, start, ss, rr, cr, (2 * i + 1) as nat);
                            lemma_pass_stop_persists(codec, start, ss, rr, cr, (2 * i + 2) as nat, (2 * w) as nat);
                        }
                        return Err(e);
                    },
                };
                proof {
                    lemma_keeps_present_trans(m0, before_col, self.cells());
                }
                if !solved_row || !solved_col {
                    solved = false;
                }
                if progress_row || progress_col {
                    progress_made = true;
                }
                i += 1;
            }
            proof {
                lemma_pass_run(codec, start, ss, rr, cr, (2 * w) as nat);
                self.lemma_wf();
            }
            if solved {
                return Ok(());
            }
            if !progress_made {
                return Err(SquareError::UnrepairableDataSquare);
            }
        }
    }

    /// Check before repair that every complete row and column has the root
    /// given for it.
    fn pre_repair_sanity_check(&self, row_roots: &[Vec<u8>], col_roots: &[Vec<u8>]) -> (r: Result<(), SquareError>)
        requires
            self.wf(),
        ensures
            row_roots.len() != self.spec_width() || col_roots.len() != self.spec_width() ==> (r matches Err(
                SquareError::UnrepairableDataSquare,
            )),
            row_roots.len() == self.spec_width() && col_roots.len() == self.spec_width() ==> {
                &&& r is Ok <==> !exists|k: nat|
                    is_first_sanity_failure(self.cells(), shares_view(row_roots@), shares_view(col_roots@), k)
                &&& forall|k: nat|
                    is_first_sanity_failure(self.cells(), shares_view(row_roots@), shares_view(col_roots@), k)
                        ==> (r matches Err(SquareError::ReedSolomonError(msg)) && msg@ == sanity_message(k))
            },
    {
        proof {
            self.lemma_wf();
        }
        let w = self.width();
        if row_roots.len() != w || col_roots.len() != w {
            return Err(SquareError::UnrepairableDataSquare);
        }
        let ghost m = self.cells();
        let ghost rr = shares_view(row_roots@);
        let ghost cr = shares_view(col_roots@);
        let mut i: usize = 0;
        while i < w
            invariant
                self.wf(),
                w == self.spec_width(),
                m == self.cells(),
                opt_square_shape(m, w as nat),
                rr == shares_view(row_roots@),
                cr == shares_view(col_roots@),
                row_roots.len() == w,
                col_roots.len() == w,
                i <= w,
                forall|k2: nat| k2 < 2 * i ==> !(#[trigger] sanity_fails_at(m, rr, cr, k2)),
            decreases w - i,
        {
            let ghost kr: nat = (2 * i) as nat;
            let ghost kc: nat = (2 * i + 1) as nat;
            assert(kr / 2 == i && kr % 2 == 0 && kc / 2 == i && kc % 2 == 1);
            let row = self.row(i);
            if is_complete_optional(row.as_slice()) {
                match self.data_square.get_row_root(i) {
                    Ok(computed_root) => {
                        if !crate::shares::share_eq(&computed_root, &row_roots[i]) {
                            let mut msg = text("Pre-repair sanity check failed: row ");
                            push_decimal(&mut msg, i);
                            push_text(&mut msg, " has incorrect root");
                            proof {
                                assert(sanity_fails_at(m, rr, cr, kr));
                                assert(is_first_sanity_failure(m, rr, cr, kr));
                                assert forall|k: nat| is_first_sanity_failure(m, rr, cr, k) implies k == kr by {
                                    if k < kr {
                                        assert(!sanity_fails_at(m, rr, cr, k));
                                    } else if k > kr {
                                        assert(!sanity_fails_at(m, rr, cr, kr));
                                    }
                                }
                            }
                            return Err(SquareError::ReedSolomonError(msg));
                        }
                    },
                    Err(e) => return Err(e),
                }
            }
            assert(!sanity_fails_at(m, rr, cr, kr));
            let col = self.col(i);
            if is_complete_optional(col.as_slice()) {
                match self.data_square.get_col_root(i) {
                    Ok(computed_root) => {
                        if !crate::shares::share_eq(&computed_root, &col_roots[i]) {
                            let mut msg = text("Pre-repair sanity check failed: column ");
                            push_decimal(&mut msg, i);
                            push_text(&mut msg, " has incorrect root");
                            proof {
                                assert(sanity_fails_at(m, rr, cr, kc));
                                assert(is_first_sanity_failure(m, rr, cr, kc));
                                assert forall|k: nat| is_first_sanity_failure(m, rr, cr, k) implies k == kc by {
                                    if k < kc {
                                        assert(!sanity_fails_at(m, rr, cr, k));
                                    } else if k > kc {
                                        assert(!sanity_fails_at(m, rr, cr, kc));
                                    }
                                }
                            }
                            return Err(SquareError::ReedSolomonError(msg));
                        }
                    },
                    Err(e) => return Err(e),
                }
            }
            assert(!sanity_fails_at(m, rr, cr, kc));
            i += 1;
        }
        Ok(())
    }

    /// Repair attempts to repair an incomplete extended data square from the
    /// roots of its rows and columns: the roots are checked against the
    /// complete rows and columns, then the crossword is solved.
    pub fn repair(&mut self, row_roots: &[Vec<u8>], col_roots: &[Vec<u8>]) -> (r: Result<(), SquareError>)
        requires
            old(self).wf(),
        ensures
            final(self).wf(),
            final(self).same_frame(old(self)),
            keeps_present(old(self).cells(), final(self).cells()),
            row_roots.len() != old(self).spec_width() || col_roots.len() != old(self).spec_width() ==> (r matches Err(
                SquareError::UnrepairableDataSquare,
            )) && final(self).cells() == old(self).cells(),
            row_roots.len() == old(self).spec_width() && col_roots.len() == old(self).spec_width() ==> {
                let m = old(self).cells();
                let rr = shares_view(row_roots@);
                let cr = shares_view(col_roots@);
                &&& forall|k: nat| #[trigger]
                    is_first_sanity_failure(m, rr, cr, k) ==> (r matches Err(SquareError::ReedSolomonError(msg))
                        && msg@ == sanity_message(k)) && final(self).cells() == m
                &&& !(exists|k: nat| is_first_sanity_failure(m, rr, cr, k)) ==> match crossword(
                    old(self).spec_codec(),
                    m,
                    old(self).spec_share_size(),
                    rr,
                    cr,
                ) {
                    Ok(m2) => r is Ok && final(self).cells() == m2,
                    Err(f) => r matches Err(e) && reports(e, f),
                }
                &&& !(exists|k: nat| is_first_sanity_failure(m, rr, cr, k)) ==> final(self).cells() == crossword_stop(
                    old(self).spec_codec(),
                    m,
                    old(self).spec_share_size(),
                    rr,
                    cr,
                )
                &&& forall|j: int|
                    0 <= j < m.len() && all_present(#[trigger] opt_column(m, j)) && crate::datasquare::axis_root(
                        opt_column(m, j),
                    ) != cr[j] ==> (r matches Err(SquareError::ReedSolomonError(_)) && final(self).cells() == m)
                &&& forall|i: int|
                    0 <= i < m.len() && all_present(#[trigger] m[i]) && crate::datasquare::axis_root(m[i]) != rr[i]
                        ==> (r matches Err(SquareError::ReedSolomonError(_)) && final(self).cells() == m)
            },
    {
        proof {
            self.lemma_wf();
            assert(keeps_present(self.cells(), self.cells()));
            let m = self.cells();
            let rr = shares_view(row_roots@);
            let cr = shares_view(col_roots@);
            if row_roots.len() == self.spec_width() && col_roots.len() == self.spec_width() {
                assert forall|j: int|
                    0 <= j < m.len() && all_present(#[trigger] opt_column(m, j)) && crate::datasquare::axis_root(
                        opt_column(m, j),
                    ) != cr[j] implies exists|k: nat| is_first_sanity_failure(m, rr, cr, k) by {
                    crate::laws::law_sanity_catches_wrong_column(m, rr, cr, j);
                }
                assert forall|i: int|
                    0 <= i < m.len() && all_present(#[trigger] m[i]) && crate::datasquare::axis_root(m[i]) != rr[i]
                        implies exists|k: nat| is_first_sanity_failure(m, rr, cr, k) by {
                    crate::laws::law_sanity_catches_wrong_row(m, rr, cr, i);
                }
            }
        }
        match self.pre_repair_sanity_check(row_roots, col_roots) {
            Ok(()) => {},
            Err(e) => return Err(e),
        }
        self.solve_crossword(row_roots, col_roots)
    }
}

/// Compute an extended data square from original data: the shares fill the
/// original square row by row, which is then extended.
pub fn compute_extended_data_square<C: ErasureCodec>(
    data: Vec<Vec<u8>>,
    codec: Arc<C>,
    tree_creator_fn: TreeConstructorFn,
) -> (r: Result<ExtendedDataSquare<C>, SquareError>)
    ensures
        ({
            let n = data.len() as nat;
            let dv = shares_view(data@);
            let ss = first_share_size(dv);
            &&& n > (*codec).spec_max_shares() ==> (r matches Err(SquareError::TooManyChunks))
            &&& n <= (*codec).spec_max_shares() ==> match (*codec).spec_validate_chunk_size(ss) {
                Err(k) => r matches Err(e) && e.kind() == k,
                Ok(()) => {
                    &&& !is_perfect_square(n) ==> (r matches Err(SquareError::NotSquareNumber))
                    &&& is_perfect_square(n) && !all_sized(dv, ss) ==> (r matches Err(SquareError::UnevenChunks))
                    &&& is_perfect_square(n) && all_sized(dv, ss) ==> match erasure_extension(
                        *codec,
                        row_major(all_some(dv), square_root(n)),
                        square_root(n),
                        ss,
                    ) {
                        Err(k) => r matches Err(e) && e.kind() == k,
                        Ok(m) => r matches Ok(eds) && eds.wf() && eds.cells() == m && eds.spec_width() == 2
                            * square_root(n) && eds.spec_original_width() == square_root(n)
                            && eds.spec_share_size() == ss && eds.spec_codec() == *codec,
                    }
                },
            }
        }),
{
    let ghost dv = shares_view(data@);
    if data.len() > codec.max_chunks() {
        return Err(SquareError::TooManyChunks);
    }
    let share_size = get_share_size(data.as_slice());
    match codec.validate_chunk_size(share_size) {
        Ok(()) => {},
        Err(e) => return Err(e),
    }
    let mut data_with_options: Vec<Option<Vec<u8>>> = Vec::with_capacity(data.len());
    let mut i: usize = 0;
    while i < data.len()
        invariant
            i <= data.len(),
            dv == shares_view(data@),
            data_with_options.len() == i,
            forall|j: int| 0 <= j < i ==> opt_share_view(#[trigger] data_with_options@[j]) == Some(dv[j]),
        decreases data.len() - i,
    {
        data_with_options.push(Some(copy_share(&data[i])));
        i += 1;
    }
    assert(opt_shares_view(data_with_options@) =~= all_some(dv));
    assert(sizes_ok(all_some(dv), share_size as nat) <==> all_sized(dv, share_size as nat)) by {
        if sizes_ok(all_some(dv), share_size as nat) {
            assert forall|j: int| 0 <= j < dv.len() implies (#[trigger] dv[j]).len() == share_size by {
                assert(all_some(dv)[j] is Some);
            }
        }
    }
    let data_square = match DataSquare::new(data_with_options, tree_creator_fn, share_size) {
        Ok(ds) => ds,
        Err(e) => return Err(e),
    };
    let mut eds = ExtendedDataSquare { data_square, codec, original_data_width: 0 };
    proof {
        let w = square_root(data.len() as nat);
        eds.data_square.lemma_wf();
        crate::shares::lemma_double_root(w, data.len() as nat);
        assert(crate::shares::sq(w) == data.len());
        assert forall|r: int, c: int| 0 <= r < eds.data_square@.len() && 0 <= c < eds.data_square@[r].len() implies (#[trigger] eds.data_square@[r][c]) is Some by {
            crate::shares::lemma_cell_index(r as nat, c as nat, w);
        }
    }
    match eds.erasure_extend_square() {
        Ok(()) => {},
        Err(e) => return Err(e),
    }
    Ok(eds)
}

/// Import an extended data square from flattened data: the shares fill the
/// square row by row.
pub fn import_extended_data_square<C: ErasureCodec>(
    data: Vec<Option<Vec<u8>>>,
    codec: Arc<C>,
    tree_creator_fn: TreeConstructorFn,
) -> (r: Result<ExtendedDataSquare<C>, SquareError>)
    requires
        4 * (*codec).spec_max_shares() <= usize::MAX,
    ensures
        ({
            let n = data.len() as nat;
            let dv = opt_shares_view(data@);
            let ss = first_present_size(dv);
            &&& n > 4 * (*codec).spec_max_shares() ==> (r matches Err(SquareError::TooManyChunks))
            &&& n <= 4 * (*codec).spec_max_shares() ==> match (*codec).spec_validate_chunk_size(ss) {
                Err(k) => r matches Err(e) && e.kind() == k,
                Ok(()) => {
                    &&& !is_perfect_square(n) ==> (r matches Err(SquareError::NotSquareNumber))
                    &&& is_perfect_square(n) && !sizes_ok(dv, ss) ==> (r matches Err(SquareError::UnevenChunks))
                    &&& is_perfect_square(n) && sizes_ok(dv, ss) && square_root(n) % 2 != 0 ==> (r matches Err(
                        SquareError::InvalidEdsWidth { width },
                    ) && width == square_root(n))
                    &&& is_perfect_square(n) && sizes_ok(dv, ss) && square_root(n) % 2 == 0 ==> (r matches Ok(eds)
                        && eds.wf() && eds.cells() == row_major(dv, square_root(n)) && eds.spec_width()
                        == square_root(n) && eds.spec_original_width() == square_root(n) / 2
                        && eds.spec_share_size() == ss && eds.spec_codec() == *codec)
                },
            }
        }),
{
    if data.len() > 4 * codec.max_chunks() {
        return Err(SquareError::TooManyChunks);
    }
    let share_size = get_share_size_optional(data.as_slice());
    match codec.validate_chunk_size(share_size) {
        Ok(()) => {},
        Err(e) => return Err(e),
    }
    let data_square = match DataSquare::new(data, tree_creator_fn, share_size) {
        Ok(ds) => ds,
        Err(e) => return Err(e),
    };
    let eds_width = data_square.width();
    match validate_eds_width(eds_width) {
        Ok(()) => {},
        Err(e) => return Err(e),
    }
    let original_data_width = eds_width / 2;
    Ok(ExtendedDataSquare { data_square, codec, original_data_width })
}

} // verus!
