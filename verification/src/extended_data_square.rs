//! The extended data square: the original chunks in the top-left quadrant,
//! with Reed-Solomon parity along its rows and columns.
use vstd::prelude::*;
use crate::codec::{
    agrees_on_present, codeword, is_first_uneven, is_rs_code, uniform_len, uneven_chunk_message, LeoRSCodec,
};
use crate::completion::{completion_fills, lemma_completion_covers, lemma_line_part, lemma_settled_takes_lines, settled};
use crate::crossword::{attempt_axis, count_missing, keeps_present, lemma_fill_decreases, lemma_keeps_present_trans};
use crate::datasquare::{opt_matrix_view, opt_square_shape};
use crate::laws::{coded_square, law_leo_decode_round_trip, law_leo_encode_shape, lemma_coded_takes_lines};
use crate::error::{CodecFailure, EdsError, RepairError};
use crate::shares::{
    copy_opt_share, copy_share, copy_shares, count_present_exec, floor_sqrt, is_complete, is_perfect_square,
    all_present, count_present, lemma_cell_index, lemma_double_root, lemma_floor_sqrt_exact, opt_share_view,
    opt_shares_view, share_eq, shares_view, sq, square_root, unwrap_all,
};
use crate::text::{decimal, push_decimal, push_text, text};
use crate::traits::{Codec, Tree};
use crate::tree::{merkle_root, new_default_tree};

verus! {

broadcast use vstd::seq_lib::group_seq_properties;

/// Index type for accessing data square elements.
#[derive(Debug, Clone, Copy, PartialEq, Eq, Structural)]
pub struct SquareIndex {
    pub row: usize,
    pub col: usize,
}

impl SquareIndex {
    pub fn new(row: usize, col: usize) -> (i: Self)
        ensures
            i.row == row,
            i.col == col,
    {
        Self { row, col }
    }
}

/// A square of chunks: `width` rows of `width` chunks.
pub open spec fn square_shape(m: Seq<Seq<Seq<u8>>>, width: nat) -> bool {
    &&& m.len() == width
    &&& forall|r: int| 0 <= r < width ==> (#[trigger] m[r]).len() == width
}

/// Column `j` of a square.
pub open spec fn column(m: Seq<Seq<Seq<u8>>>, j: int) -> Seq<Seq<u8>> {
    Seq::new(m.len(), |i: int| m[i][j])
}

/// The first `k` chunks of column `j`.
pub open spec fn column_prefix(m: Seq<Seq<Seq<u8>>>, j: int, k: nat) -> Seq<Seq<u8>> {
    Seq::new(k, |i: int| m[i][j])
}

/// A square of width `2 * ow` holding the `ow * ow` chunks of `data`, row by
/// row, in its top-left quadrant, and empty chunks elsewhere.
pub open spec fn ods_placed(data: Seq<Seq<u8>>, ow: nat) -> Seq<Seq<Seq<u8>>> {
    Seq::new(
        2 * ow,
        |r: int|
            Seq::new(
                2 * ow,
                |c: int|
                    if r < ow && c < ow {
                        data[r * ow + c]
                    } else {
                        Seq::<u8>::empty()
                    },
            ),
    )
}

/// Row `i` of a square overwritten, from its start, by the chunks of `enc` that fit.
pub open spec fn place_row(m: Seq<Seq<Seq<u8>>>, i: int, enc: Seq<Seq<u8>>) -> Seq<Seq<Seq<u8>>> {
    m.update(i, Seq::new(m[i].len(), |j: int| if j < enc.len() { enc[j] } else { m[i][j] }))
}

/// Column `j` of a square overwritten, from its top, by the chunks of `enc` that fit.
pub open spec fn place_col(m: Seq<Seq<Seq<u8>>>, j: int, enc: Seq<Seq<u8>>) -> Seq<Seq<Seq<u8>>> {
    Seq::new(m.len(), |i: int| if i < enc.len() { m[i].update(j, enc[i]) } else { m[i] })
}

/// The square after rows `0..k` were each replaced by the encoding of their
/// first `ow` chunks, or the first encoding error.
pub open spec fn encode_rows<C: Codec>(codec: C, m: Seq<Seq<Seq<u8>>>, ow: nat, k: nat) -> Result<Seq<Seq<Seq<u8>>>, CodecFailure>
    decreases k,
{
    if k == 0 {
        Ok(m)
    } else {
        match encode_rows(codec, m, ow, (k - 1) as nat) {
            Err(e) => Err(e),
            Ok(m1) => match codec.spec_encode(m1[k - 1].take(ow as int)) {
                Err(e) => Err(e),
                Ok(enc) => Ok(place_row(m1, k - 1, enc)),
            },
        }
    }
}

/// The square after columns `0..k` were each replaced by the encoding of their
/// first `ow` chunks, or the first encoding error.
pub open spec fn encode_cols<C: Codec>(codec: C, m: Seq<Seq<Seq<u8>>>, ow: nat, k: nat) -> Result<Seq<Seq<Seq<u8>>>, CodecFailure>
    decreases k,
{
    if k == 0 {
        Ok(m)
    } else {
        match encode_cols(codec, m, ow, (k - 1) as nat) {
            Err(e) => Err(e),
            Ok(m1) => match codec.spec_encode(column_prefix(m1, k - 1, ow)) {
                Err(e) => Err(e),
                Ok(enc) => Ok(place_col(m1, k - 1, enc)),
            },
        }
    }
}

/// The extension of the `ow * ow` chunks of `data`: rows of the original
/// quadrant are encoded first, then every column.
pub open spec fn extension<C: Codec>(codec: C, data: Seq<Seq<u8>>, ow: nat) -> Result<Seq<Seq<Seq<u8>>>, CodecFailure> {
    match encode_rows(codec, ods_placed(data, ow), ow, ow) {
        Err(e) => Err(e),
        Ok(m) => encode_cols(codec, m, ow, 2 * ow),
    }
}

/// The message for a chunk count that is not a perfect square.
pub open spec fn not_square_message(n: nat) -> Seq<char> {
    "Data length "@ + decimal(n) + " is not a perfect square"@
}

/// The message for an original width beyond the codec's capacity.
pub open spec fn capacity_message(ow: nat, max: nat) -> Seq<char> {
    "Data width "@ + decimal(ow) + " exceeds codec capacity "@ + decimal(max)
}

/// The error that the checks of `new` and `compute_extended_data_square`
/// give for input chunks that fail them: empty input, a count that is not a
/// perfect square, chunks of unequal size, an original width beyond the
/// codec's capacity, in this order.
pub open spec fn input_error<C: Codec>(codec: C, data: Seq<Seq<u8>>, e: EdsError) -> bool {
    let n = data.len();
    if n == 0 {
        e matches EdsError::InvalidData(m) && m@ == "Input data cannot be empty"@
    } else if !is_perfect_square(n) {
        e matches EdsError::InvalidDimensions(m) && m@ == not_square_message(n)
    } else if !uniform_len(data) {
        e matches EdsError::InvalidData(m) && exists|i: int|
            is_first_uneven(data, i) && m@ == uneven_chunk_message(i as nat, data[i].len(), data[0].len())
    } else {
        e matches EdsError::InvalidDimensions(m) && m@ == capacity_message(square_root(n), codec.spec_max_chunks())
    }
}

/// The input chunks pass the checks of `new` and `compute_extended_data_square`.
pub open spec fn input_ok<C: Codec>(codec: C, data: Seq<Seq<u8>>) -> bool {
    &&& data.len() > 0
    &&& is_perfect_square(data.len())
    &&& uniform_len(data)
    &&& square_root(data.len()) <= codec.spec_max_chunks()
}

/// The message for a root count that does not match the width.
pub open spec fn root_count_message(middle: Seq<char>, expected: nat, got: nat) -> Seq<char> {
    "Expected "@ + decimal(expected) + middle + decimal(got)
}

/// The first index at which two sequences of roots differ.
pub open spec fn is_first_mismatch(a: Seq<Seq<u8>>, b: Seq<Seq<u8>>, i: int) -> bool {
    &&& 0 <= i < a.len()
    &&& a[i] != b[i]
    &&& forall|j: int| 0 <= j < i ==> (#[trigger] a[j]) == b[j]
}

/// Main data structure representing 2D Reed-Solomon encoded data.
#[derive(Debug)]
pub struct ExtendedDataSquare {
    data: Vec<Vec<Vec<u8>>>,
    width: usize,
    original_width: usize,
}

/// The chunks of a square held as vectors.
pub open spec fn matrix_view(m: Seq<Vec<Vec<u8>>>) -> Seq<Seq<Seq<u8>>> {
    m.map_values(|row: Vec<Vec<u8>>| shares_view(row@))
}

impl View for ExtendedDataSquare {
    type V = Seq<Seq<Seq<u8>>>;

    closed spec fn view(&self) -> Seq<Seq<Seq<u8>>> {
        matrix_view(self.data@)
    }
}

impl ExtendedDataSquare {
    #[verifier::type_invariant]
    spec fn well_formed(self) -> bool {
        &&& self.data.len() == self.width
        &&& forall|r: int| 0 <= r < self.width ==> (#[trigger] self.data@[r]).len() == self.width
        &&& self.original_width == self.width / 2
    }

    /// The width of the square.
    pub closed spec fn spec_width(&self) -> nat {
        self.width as nat
    }

    /// The width of the original data before extension.
    pub closed spec fn spec_original_width(&self) -> nat {
        self.original_width as nat
    }

    /// The square has `spec_width()` rows of `spec_width()` chunks, and the
    /// original width is half of it, rounded down.
    pub open spec fn shaped(&self) -> bool {
        &&& square_shape(self@, self.spec_width())
        &&& self.spec_original_width() == self.spec_width() / 2
    }

    proof fn lemma_shaped(&self)
        requires
            self.well_formed(),
        ensures
            self.shaped(),
    {
        assert forall|r: int| 0 <= r < self.spec_width() implies (#[trigger] self@[r]).len() == self.spec_width() by {
            assert(self.data@[r].len() == self.width);
        }
    }
}

/// Checks the input chunks; on success gives the original width.
fn check_input<C: Codec>(data: &Vec<Vec<u8>>, codec: &C) -> (r: Result<usize, EdsError>)
    ensures
        match r {
            Ok(ow) => input_ok(*codec, shares_view(data@)) && ow as nat == square_root(data.len() as nat),
            Err(e) => !input_ok(*codec, shares_view(data@)) && input_error(*codec, shares_view(data@), e),
        },
{
    let ghost v = shares_view(data@);
    let n = data.len();
    if n == 0 {
        return Err(EdsError::InvalidData(text("Input data cannot be empty")));
    }
    let ow = floor_sqrt(n);
    if ow * ow != n {
        proof {
            if is_perfect_square(n as nat) {
                let x = choose|w: nat| #[trigger] sq(w) == n as nat;
                lemma_floor_sqrt_exact(ow as nat, n as nat, x);
            }
        }
        let mut m = text("Data length ");
        push_decimal(&mut m, n);
        push_text(&mut m, " is not a perfect square");
        return Err(EdsError::InvalidDimensions(m));
    }
    proof {
        assert(sq(ow as nat) == n as nat);
        let x = square_root(n as nat);
        lemma_floor_sqrt_exact(ow as nat, n as nat, x);
    }
    let chunk_size = data[0].len();
    let mut i: usize = 0;
    while i < n
        invariant
            i <= n,
            n == data.len(),
            n > 0,
            v == shares_view(data@),
            chunk_size == v[0].len(),
            is_perfect_square(n as nat),
            ow as nat == square_root(n as nat),
            forall|j: int| 0 <= j < i ==> (#[trigger] v[j]).len() == chunk_size,
        decreases n - i,
    {
        if data[i].len() != chunk_size {
            let mut m = text("Chunk ");
            push_decimal(&mut m, i);
            push_text(&mut m, " has size ");
            push_decimal(&mut m, data[i].len());
            push_text(&mut m, " but expected ");
            push_decimal(&mut m, chunk_size);
            assert(is_first_uneven(v, i as int));
            assert(v[i as int].len() != v[0].len());
            assert(m@ =~= uneven_chunk_message(i as nat, v[i as int].len(), v[0].len()));
            return Err(EdsError::InvalidData(m));
        }
        i += 1;
    }
    assert(uniform_len(v));
    let max = codec.max_chunks();
    if ow > max {
        let mut m = text("Data width ");
        push_decimal(&mut m, ow);
        push_text(&mut m, " exceeds codec capacity ");
        push_decimal(&mut m, max);
        return Err(EdsError::InvalidDimensions(m));
    }
    Ok(ow)
}

/// The square of width `2 * ow` with the chunks of `data` in its top-left
/// quadrant and empty chunks elsewhere.
fn place_ods(data: &Vec<Vec<u8>>, ow: usize) -> (m: Vec<Vec<Vec<u8>>>)
    requires
        data.len() == ow * ow,
    ensures
        matrix_view(m@) == ods_placed(shares_view(data@), ow as nat),
        m.len() == 2 * ow,
        forall|r: int| 0 <= r < m.len() ==> (#[trigger] m@[r]).len() == 2 * ow,
{
    proof {
        lemma_double_root(ow as nat, data.len() as nat);
    }
    let ghost target = ods_placed(shares_view(data@), ow as nat);
    let width = 2 * ow;
    let mut m: Vec<Vec<Vec<u8>>> = Vec::with_capacity(width);
    let mut r: usize = 0;
    while r < width
        invariant
            width == 2 * ow,
            data.len() == ow * ow,
            target == ods_placed(shares_view(data@), ow as nat),
            r <= width,
            m.len() == r,
            forall|k: int| 0 <= k < r ==> (#[trigger] m@[k]).len() == width,
            forall|k: int| 0 <= k < r ==> shares_view((#[trigger] m@[k])@) == target[k],
        decreases width - r,
    {
        let mut row: Vec<Vec<u8>> = Vec::with_capacity(width);
        let mut c: usize = 0;
        while c < width
            invariant
                width == 2 * ow,
                data.len() == ow * ow,
                target == ods_placed(shares_view(data@), ow as nat),
                r < width,
                c <= width,
                row.len() == c,
                forall|k: int| 0 <= k < c ==> (#[trigger] row@[k])@ == target[r as int][k],
            decreases width - c,
        {
            if r < ow && c < ow {
                proof {
                    lemma_cell_index(r as nat, c as nat, ow as nat);
                }
                row.push(copy_share(&data[r * ow + c]));
            } else {
                row.push(Vec::new());
            }
            c += 1;
        }
        assert(shares_view(row@) =~= target[r as int]);
        m.push(row);
        r += 1;
    }
    assert(matrix_view(m@) =~= target);
    m
}

impl ExtendedDataSquare {
    /// Create new extended data square from input data: the chunks fill the
    /// top-left quadrant of a square of twice their width, row by row, and the
    /// other chunks are empty.
    pub fn new<C: Codec>(data: Vec<Vec<u8>>, codec: C) -> (r: Result<Self, EdsError>)
        ensures
            !input_ok(codec, shares_view(data@)) ==> (r matches Err(e) && input_error(codec, shares_view(data@), e)),
            input_ok(codec, shares_view(data@)) ==> (r matches Ok(eds) && eds.shaped()
                && eds.spec_original_width() == square_root(data.len() as nat)
                && eds.spec_width() == 2 * square_root(data.len() as nat)
                && eds@ == ods_placed(shares_view(data@), square_root(data.len() as nat))),
    {
        let ow = match check_input(&data, &codec) {
            Ok(ow) => ow,
            Err(e) => return Err(e),
        };
        let matrix = place_ods(&data, ow);
        let eds = Self { data: matrix, width: 2 * ow, original_width: ow };
        proof {
            eds.lemma_shaped();
        }
        Ok(eds)
    }
}

/// Once the row phase fails, it fails with the same error on every later row.
proof fn lemma_rows_err_persists<C: Codec>(codec: C, m: Seq<Seq<Seq<u8>>>, ow: nat, k1: nat, k2: nat)
    requires
        k1 <= k2,
        encode_rows(codec, m, ow, k1) is Err,
    ensures
        encode_rows(codec, m, ow, k2) == encode_rows(codec, m, ow, k1),
    decreases k2,
{
    if k2 > k1 {
        lemma_rows_err_persists(codec, m, ow, k1, (k2 - 1) as nat);
    }
}

/// Once the column phase fails, it fails with the same error on every later column.
proof fn lemma_cols_err_persists<C: Codec>(codec: C, m: Seq<Seq<Seq<u8>>>, ow: nat, k1: nat, k2: nat)
    requires
        k1 <= k2,
        encode_cols(codec, m, ow, k1) is Err,
    ensures
        encode_cols(codec, m, ow, k2) == encode_cols(codec, m, ow, k1),
    decreases k2,
{
    if k2 > k1 {
        lemma_cols_err_persists(codec, m, ow, k1, (k2 - 1) as nat);
    }
}

/// The first `ow` chunks of row `i`.
fn row_prefix(matrix: &Vec<Vec<Vec<u8>>>, i: usize, ow: usize) -> (r: Vec<Vec<u8>>)
    requires
        i < matrix.len(),
        ow <= matrix@[i as int].len(),
    ensures
        shares_view(r@) == matrix_view(matrix@)[i as int].take(ow as int),
{
    let mut r: Vec<Vec<u8>> = Vec::with_capacity(ow);
    let mut j: usize = 0;
    while j < ow
        invariant
            i < matrix.len(),
            ow <= matrix@[i as int].len(),
            j <= ow,
            r.len() == j,
            forall|k: int| 0 <= k < j ==> (#[trigger] r@[k])@ == matrix@[i as int]@[k]@,
        decreases ow - j,
    {
        r.push(copy_share(&matrix[i][j]));
        j += 1;
    }
    assert(shares_view(r@) =~= matrix_view(matrix@)[i as int].take(ow as int));
    r
}

/// The first `ow` chunks of column `j`.
fn col_prefix(matrix: &Vec<Vec<Vec<u8>>>, j: usize, ow: usize) -> (r: Vec<Vec<u8>>)
    requires
        ow <= matrix.len(),
        forall|i: int| 0 <= i < matrix.len() ==> j < (#[trigger] matrix@[i]).len(),
    ensures
        shares_view(r@) == column_prefix(matrix_view(matrix@), j as int, ow as nat),
{
    let mut r: Vec<Vec<u8>> = Vec::with_capacity(ow);
    let mut i: usize = 0;
    while i < ow
        invariant
            ow <= matrix.len(),
            forall|i: int| 0 <= i < matrix.len() ==> j < (#[trigger] matrix@[i]).len(),
            i <= ow,
            r.len() == i,
            forall|k: int| 0 <= k < i ==> (#[trigger] r@[k])@ == matrix@[k]@[j as int]@,
        decreases ow - i,
    {
        r.push(copy_share(&matrix[i][j]));
        i += 1;
    }
    assert(shares_view(r@) =~= column_prefix(matrix_view(matrix@), j as int, ow as nat));
    r
}

/// Overwrites row `i`, from its start, with the chunks of `enc` that fit.
fn write_row(matrix: &mut Vec<Vec<Vec<u8>>>, i: usize, enc: &Vec<Vec<u8>>, width: usize)
    requires
        i < old(matrix).len(),
        old(matrix).len() == width,
        forall|r: int| 0 <= r < width ==> (#[trigger] old(matrix)@[r]).len() == width,
    ensures
        matrix_view(final(matrix)@) == place_row(matrix_view(old(matrix)@), i as int, shares_view(enc@)),
        final(matrix).len() == width,
        forall|r: int| 0 <= r < width ==> (#[trigger] final(matrix)@[r]).len() == width,
{
    let ghost m1 = matrix_view(matrix@);
    let ghost ev = shares_view(enc@);
    assert(Seq::new(width as nat, |c: int| if c < 0 && c < enc.len() { ev[c] } else { m1[i as int][c] }) =~= m1[i as int]);
    assert(m1.update(i as int, m1[i as int]) =~= m1);
    let mut j: usize = 0;
    while j < enc.len()
        invariant
            i < width,
            matrix.len() == width,
            forall|r: int| 0 <= r < width ==> (#[trigger] matrix@[r]).len() == width,
            m1.len() == width,
            m1[i as int].len() == width,
            ev == shares_view(enc@),
            j <= enc.len(),
            matrix_view(matrix@) == m1.update(
                i as int,
                Seq::new(width as nat, |c: int| if c < j && c < enc.len() { ev[c] } else { m1[i as int][c] }),
            ),
        decreases enc.len() - j,
    {
        if j < width {
            let chunk = copy_share(&enc[j]);
            let ghost before = matrix_view(matrix@);
            matrix[i][j] = chunk;
            assert(matrix_view(matrix@) =~~= before.update(i as int, before[i as int].update(j as int, ev[j as int])));
        }
        j += 1;
        assert(matrix_view(matrix@) =~~= m1.update(
            i as int,
            Seq::new(width as nat, |c: int| if c < j && c < enc.len() { ev[c] } else { m1[i as int][c] }),
        ));
    }
    assert(matrix_view(matrix@) =~~= place_row(m1, i as int, ev));
}

/// Overwrites column `j`, from its top, with the chunks of `enc` that fit.
fn write_col(matrix: &mut Vec<Vec<Vec<u8>>>, j: usize, enc: &Vec<Vec<u8>>, width: usize)
    requires
        j < width,
        old(matrix).len() == width,
        forall|r: int| 0 <= r < width ==> (#[trigger] old(matrix)@[r]).len() == width,
    ensures
        matrix_view(final(matrix)@) == place_col(matrix_view(old(matrix)@), j as int, shares_view(enc@)),
        final(matrix).len() == width,
        forall|r: int| 0 <= r < width ==> (#[trigger] final(matrix)@[r]).len() == width,
{
    let ghost m1 = matrix_view(matrix@);
    let ghost ev = shares_view(enc@);
    assert(Seq::new(width as nat, |r: int| if r < 0 && r < enc.len() { m1[r].update(j as int, ev[r]) } else { m1[r] }) =~= m1);
    let mut i: usize = 0;
    while i < enc.len()
        invariant
            j < width,
            matrix.len() == width,
            forall|r: int| 0 <= r < width ==> (#[trigger] matrix@[r]).len() == width,
            m1.len() == width,
            ev == shares_view(enc@),
            i <= enc.len(),
            matrix_view(matrix@) == Seq::new(
                width as nat,
                |r: int| if r < i && r < enc.len() { m1[r].update(j as int, ev[r]) } else { m1[r] },
            ),
        decreases enc.len() - i,
    {
        if i < width {
            let chunk = copy_share(&enc[i]);
            let ghost before = matrix_view(matrix@);
            matrix[i][j] = chunk;
            assert(matrix_view(matrix@) =~~= before.update(i as int, before[i as int].update(j as int, ev[i as int])));
        }
        i += 1;
        assert(matrix_view(matrix@) =~~= Seq::new(
            width as nat,
            |r: int| if r < i && r < enc.len() { m1[r].update(j as int, ev[r]) } else { m1[r] },
        ));
    }
    assert(matrix_view(matrix@) =~~= place_col(m1, j as int, ev));
}

impl ExtendedDataSquare {
    /// Create extended data square with Reed-Solomon encoding: the chunks fill
    /// the top-left quadrant, each of its rows is replaced by its encoding,
    /// then each column of the whole square by the encoding of its top half.
    pub fn compute_extended_data_square<C: Codec, F: Fn() -> T, T: Tree>(
        data: Vec<Vec<u8>>,
        codec: C,
        _tree_fn: F,
    ) -> (r: Result<Self, EdsError>)
        ensures
            !input_ok(codec, shares_view(data@)) ==> (r matches Err(e) && input_error(codec, shares_view(data@), e)),
            input_ok(codec, shares_view(data@)) ==> match extension(codec, shares_view(data@), square_root(data.len() as nat)) {
                Err(f) => r matches Err(EdsError::Codec(e)) && e.failure() == f,
                Ok(m) => r matches Ok(eds) && eds.shaped() && eds@ == m
                    && eds.spec_original_width() == square_root(data.len() as nat)
                    && eds.spec_width() == 2 * square_root(data.len() as nat),
            },
    {
        let ow = match check_input(&data, &codec) {
            Ok(ow) => ow,
            Err(e) => return Err(e),
        };
        let ghost dv = shares_view(data@);
        let mut matrix = place_ods(&data, ow);
        let width = 2 * ow;
        let ghost placed = matrix_view(matrix@);
        let mut i: usize = 0;
        while i < ow
            invariant
                width == 2 * ow,
                i <= ow,
                matrix.len() == width,
                forall|r: int| 0 <= r < width ==> (#[trigger] matrix@[r]).len() == width,
                placed == ods_placed(dv, ow as nat),
                dv == shares_view(data@),
                input_ok(codec, dv),
                ow as nat == square_root(data.len() as nat),
                encode_rows(codec, placed, ow as nat, i as nat) == Ok::<Seq<Seq<Seq<u8>>>, CodecFailure>(matrix_view(matrix@)),
            decreases ow - i,
        {
            let row_data = row_prefix(&matrix, i, ow);
            match codec.encode(row_data) {
                Err(e) => {
                    proof {
                        lemma_rows_err_persists(codec, placed, ow as nat, (i + 1) as nat, ow as nat);
                    }
                    return Err(EdsError::Codec(e));
                },
                Ok(enc) => {
                    write_row(&mut matrix, i, &enc, width);
                },
            }
            i += 1;
        }
        let ghost rows_done = matrix_view(matrix@);
        let mut j: usize = 0;
        while j < width
            invariant
                width == 2 * ow,
                j <= width,
                matrix.len() == width,
                forall|r: int| 0 <= r < width ==> (#[trigger] matrix@[r]).len() == width,
                encode_rows(codec, ods_placed(dv, ow as nat), ow as nat, ow as nat) == Ok::<Seq<Seq<Seq<u8>>>, CodecFailure>(rows_done),
                dv == shares_view(data@),
                input_ok(codec, dv),
                ow as nat == square_root(data.len() as nat),
                encode_cols(codec, rows_done, ow as nat, j as nat) == Ok::<Seq<Seq<Seq<u8>>>, CodecFailure>(matrix_view(matrix@)),
            decreases width - j,
        {
            let col_data = col_prefix(&matrix, j, ow);
            match codec.encode(col_data) {
                Err(e) => {
                    proof {
                        lemma_cols_err_persists(codec, rows_done, ow as nat, (j + 1) as nat, width as nat);
                    }
                    return Err(EdsError::Codec(e));
                },
                Ok(enc) => {
                    write_col(&mut matrix, j, &enc, width);
                },
            }
            j += 1;
        }
        let eds = Self { data: matrix, width, original_width: ow };
        proof {
            eds.lemma_shaped();
        }
        Ok(eds)
    }
}

/// The square of width `w` read row by row from `data`, a missing chunk read
/// as an empty one.
pub open spec fn imported(data: Seq<Option<Seq<u8>>>, w: nat) -> Seq<Seq<Seq<u8>>> {
    Seq::new(
        w,
        |r: int|
            Seq::new(
                w,
                |c: int|
                    match data[r * w + c] {
                        Some(x) => x,
                        None => Seq::<u8>::empty(),
                    },
            ),
    )
}

/// The merkle roots of the rows of a square.
pub open spec fn square_row_roots(m: Seq<Seq<Seq<u8>>>) -> Seq<Seq<u8>> {
    Seq::new(m.len(), |i: int| merkle_root(m[i]))
}

/// The merkle roots of the columns of a square of width `w`.
pub open spec fn square_col_roots(m: Seq<Seq<Seq<u8>>>, w: nat) -> Seq<Seq<u8>> {
    Seq::new(w, |j: int| merkle_root(column(m, j)))
}

/// The merkle root of a sequence of chunks, computed by the default tree.
fn axis_root(shares: &Vec<Vec<u8>>) -> (r: Vec<u8>)
    ensures
        r@ == merkle_root(shares_view(shares@)),
{
    let mut tree = new_default_tree();
    let mut k: usize = 0;
    while k < shares.len()
        invariant
            k <= shares.len(),
            tree.leaves() == shares_view(shares@).take(k as int),
        decreases shares.len() - k,
    {
        tree.push(shares[k].as_slice());
        assert(shares_view(shares@).take(k + 1) =~= shares_view(shares@).take(k as int).push(shares@[k as int]@));
        k += 1;
    }
    assert(shares_view(shares@).take(shares.len() as int) =~= shares_view(shares@));
    tree.root()
}

/// The merkle root of column `j`, computed by the default tree.
fn column_root(matrix: &Vec<Vec<Vec<u8>>>, j: usize) -> (r: Vec<u8>)
    requires
        forall|i: int| 0 <= i < matrix.len() ==> j < (#[trigger] matrix@[i]).len(),
    ensures
        r@ == merkle_root(column(matrix_view(matrix@), j as int)),
{
    let ghost col = column(matrix_view(matrix@), j as int);
    let mut tree = new_default_tree();
    let mut k: usize = 0;
    while k < matrix.len()
        invariant
            forall|i: int| 0 <= i < matrix.len() ==> j < (#[trigger] matrix@[i]).len(),
            col == column(matrix_view(matrix@), j as int),
            k <= matrix.len(),
            tree.leaves() == col.take(k as int),
        decreases matrix.len() - k,
    {
        tree.push(matrix[k][j].as_slice());
        assert(col.take(k + 1) =~= col.take(k as int).push(matrix@[k as int]@[j as int]@));
        k += 1;
    }
    assert(col.take(matrix.len() as int) =~= col);
    tree.root()
}

impl ExtendedDataSquare {
    /// Reconstruct extended data square from flattened representation: the
    /// chunks fill the square row by row, a missing chunk as an empty one.
    pub fn import_extended_data_square<C: Codec, F: Fn() -> T, T: Tree>(
        data: Vec<Option<Vec<u8>>>,
        _codec: C,
        _tree_fn: F,
    ) -> (r: Result<Self, EdsError>)
        ensures
            !is_perfect_square(data.len() as nat) ==> (r matches Err(EdsError::InvalidDimensions(m))
                && m@ == "Flattened data length "@ + decimal(data.len() as nat) + " is not a perfect square"@),
            is_perfect_square(data.len() as nat) ==> (r matches Ok(eds) && eds.shaped()
                && eds.spec_width() == square_root(data.len() as nat)
                && eds@ == imported(opt_shares_view(data@), square_root(data.len() as nat))),
            r matches Ok(eds) ==> forall|i: int, j: int|
                0 <= i < eds.spec_width() && 0 <= j < eds.spec_width() ==> #[trigger] eds@[i][j] == match data@[i
                    * eds.spec_width() + j] {
                    Some(x) => x@,
                    None => Seq::<u8>::empty(),
                },
    {
        let n = data.len();
        let width = floor_sqrt(n);
        if width * width != n {
            proof {
                if is_perfect_square(n as nat) {
                    let x = choose|w: nat| #[trigger] sq(w) == n as nat;
                    lemma_floor_sqrt_exact(width as nat, n as nat, x);
                }
            }
            let mut m = text("Flattened data length ");
            push_decimal(&mut m, n);
            push_text(&mut m, " is not a perfect square");
            return Err(EdsError::InvalidDimensions(m));
        }
        proof {
            assert(sq(width as nat) == n as nat);
            lemma_floor_sqrt_exact(width as nat, n as nat, square_root(n as nat));
        }
        let ghost target = imported(opt_shares_view(data@), width as nat);
        let mut matrix: Vec<Vec<Vec<u8>>> = Vec::with_capacity(width);
        let mut r: usize = 0;
        while r < width
            invariant
                data.len() == width * width,
                target == imported(opt_shares_view(data@), width as nat),
                r <= width,
                matrix.len() == r,
                forall|k: int| 0 <= k < r ==> (#[trigger] matrix@[k]).len() == width,
                forall|k: int| 0 <= k < r ==> shares_view((#[trigger] matrix@[k])@) == target[k],
            decreases width - r,
        {
            let mut row: Vec<Vec<u8>> = Vec::with_capacity(width);
            let mut c: usize = 0;
            while c < width
                invariant
                    data.len() == width * width,
                    target == imported(opt_shares_view(data@), width as nat),
                    r < width,
                    c <= width,
                    row.len() == c,
                    forall|k: int| 0 <= k < c ==> (#[trigger] row@[k])@ == target[r as int][k],
                decreases width - c,
            {
                proof {
                    lemma_cell_index(r as nat, c as nat, width as nat);
                }
                let idx = r * width + c;
                let chunk = match &data[idx] {
                    Some(x) => copy_share(x),
                    None => Vec::new(),
                };
                proof {
                    assert(opt_shares_view(data@)[idx as int] == opt_share_view(data@[idx as int]));
                }
                row.push(chunk);
                c += 1;
            }
            assert(shares_view(row@) =~= target[r as int]);
            matrix.push(row);
            r += 1;
        }
        assert(matrix_view(matrix@) =~= target);
        let eds = Self { data: matrix, width, original_width: width / 2 };
        proof {
            eds.lemma_shaped();
            assert forall|i: int, j: int| 0 <= i < width && 0 <= j < width implies #[trigger] eds@[i][j] == match data@[i
                * width + j] {
                Some(x) => x@,
                None => Seq::<u8>::empty(),
            } by {
                lemma_cell_index(i as nat, j as nat, width as nat);
                assert(opt_shares_view(data@)[i * width + j] == opt_share_view(data@[i * width + j]));
            }
        }
        Ok(eds)
    }

    /// Return width dimension of the data square.
    pub fn width(&self) -> (w: usize)
        ensures
            w as nat == self.spec_width(),
            self.shaped(),
    {
        proof {
            use_type_invariant(self);
            self.lemma_shaped();
        }
        self.width
    }

    /// Get original width before Reed-Solomon encoding.
    pub fn original_width(&self) -> (w: usize)
        ensures
            w as nat == self.spec_original_width(),
            self.shaped(),
    {
        proof {
            use_type_invariant(self);
            self.lemma_shaped();
        }
        self.original_width
    }

    /// Get a chunk from the data square.
    pub fn get_chunk(&self, index: SquareIndex) -> (r: Result<&Vec<u8>, EdsError>)
        ensures
            (index.row >= self.spec_width() || index.col >= self.spec_width()) ==> (r matches Err(
                EdsError::IndexOutOfBounds { row, col, width },
            ) && row == index.row && col == index.col && width == self.spec_width()),
            (index.row < self.spec_width() && index.col < self.spec_width()) ==> (r matches Ok(c)
                && c@ == self@[index.row as int][index.col as int]),
    {
        proof {
            use_type_invariant(self);
        }
        if index.row >= self.width || index.col >= self.width {
            return Err(EdsError::IndexOutOfBounds { row: index.row, col: index.col, width: self.width });
        }
        Ok(&self.data[index.row][index.col])
    }

    /// Set a chunk in the data square.
    pub fn set_chunk(&mut self, index: SquareIndex, chunk: Vec<u8>) -> (r: Result<(), EdsError>)
        ensures
            final(self).shaped(),
            final(self).spec_width() == old(self).spec_width(),
            final(self).spec_original_width() == old(self).spec_original_width(),
            (index.row >= old(self).spec_width() || index.col >= old(self).spec_width()) ==> (r matches Err(
                EdsError::IndexOutOfBounds { row, col, width },
            ) && row == index.row && col == index.col && width == old(self).spec_width()
                && final(self)@ == old(self)@),
            (index.row < old(self).spec_width() && index.col < old(self).spec_width()) ==> (r is Ok
                && final(self)@ == old(self)@.update(
                index.row as int,
                old(self)@[index.row as int].update(index.col as int, chunk@),
            )),
    {
        proof {
            use_type_invariant(&*self);
        }
        if index.row >= self.width || index.col >= self.width {
            proof {
                self.lemma_shaped();
            }
            return Err(EdsError::IndexOutOfBounds { row: index.row, col: index.col, width: self.width });
        }
        let ghost before = self@;
        let mut taken = Self { data: Vec::new(), width: 0, original_width: 0 };
        std::mem::swap(self, &mut taken);
        proof {
            use_type_invariant(&taken);
        }
        let ExtendedDataSquare { mut data, width, original_width } = taken;
        data[index.row][index.col] = chunk;
        *self = Self { data, width, original_width };
        assert(self@ =~~= before.update(index.row as int, before[index.row as int].update(index.col as int, chunk@)));
        proof {
            use_type_invariant(&*self);
            self.lemma_shaped();
        }
        Ok(())
    }

    /// Compute merkle roots for all rows in the data square.
    pub fn row_roots(&self) -> (r: Result<Vec<Vec<u8>>, EdsError>)
        ensures
            r matches Ok(roots) && shares_view(roots@) == square_row_roots(self@),
    {
        proof {
            use_type_invariant(self);
        }
        let ghost target = square_row_roots(self@);
        let mut roots: Vec<Vec<u8>> = Vec::with_capacity(self.width);
        let mut i: usize = 0;
        while i < self.data.len()
            invariant
                i <= self.data.len(),
                target == square_row_roots(self@),
                roots.len() == i,
                forall|k: int| 0 <= k < i ==> (#[trigger] roots@[k])@ == target[k],
            decreases self.data.len() - i,
        {
            roots.push(axis_root(&self.data[i]));
            i += 1;
        }
        assert(shares_view(roots@) =~= target);
        Ok(roots)
    }

    /// Compute merkle roots for all columns in the data square.
    pub fn col_roots(&self) -> (r: Result<Vec<Vec<u8>>, EdsError>)
        ensures
            r matches Ok(roots) && shares_view(roots@) == square_col_roots(self@, self.spec_width()),
    {
        proof {
            use_type_invariant(self);
        }
        let ghost target = square_col_roots(self@, self.spec_width());
        let mut roots: Vec<Vec<u8>> = Vec::with_capacity(self.width);
        let mut j: usize = 0;
        while j < self.width
            invariant
                j <= self.width,
                self.data.len() == self.width,
                forall|r: int| 0 <= r < self.width ==> (#[trigger] self.data@[r]).len() == self.width,
                target == square_col_roots(self@, self.spec_width()),
                roots.len() == j,
                forall|k: int| 0 <= k < j ==> (#[trigger] roots@[k])@ == target[k],
            decreases self.width - j,
        {
            roots.push(column_root(&self.data, j));
            j += 1;
        }
        assert(shares_view(roots@) =~= target);
        Ok(roots)
    }

    /// Return flattened representation of data square: the chunks row by row.
    pub fn flattened(&self) -> (r: Vec<Vec<u8>>)
        ensures
            shares_view(r@) == self@.flatten(),
    {
        let ghost m = self@;
        let mut result: Vec<Vec<u8>> = Vec::new();
        let mut i: usize = 0;
        while i < self.data.len()
            invariant
                i <= self.data.len(),
                m == self@,
                m.len() == self.data.len(),
                shares_view(result@) == m.take(i as int).flatten(),
            decreases self.data.len() - i,
        {
            let mut j: usize = 0;
            while j < self.data[i].len()
                invariant
                    i < self.data.len(),
                    m == self@,
                    m.len() == self.data.len(),
                    j <= self.data@[i as int].len(),
                    shares_view(result@) == m.take(i as int).flatten() + m[i as int].take(j as int),
                decreases self.data@[i as int].len() - j,
            {
                let ghost before = shares_view(result@);
                result.push(copy_share(&self.data[i][j]));
                assert(shares_view(result@) =~= before.push(m[i as int][j as int]));
                assert(m[i as int].take(j + 1) =~= m[i as int].take(j as int).push(m[i as int][j as int]));
                j += 1;
            }
            proof {
                assert(m[i as int].take(j as int) =~= m[i as int]);
                assert(m.take(i + 1) =~= m.take(i as int).push(m[i as int]));
                m.take(i as int).lemma_flatten_push(m[i as int]);
            }
            i += 1;
        }
        assert(m.take(m.len() as int) =~= m);
        result
    }
}

/// A copy of a square of chunks held as vectors.
fn copy_matrix(v: &Vec<Vec<Vec<u8>>>) -> (r: Vec<Vec<Vec<u8>>>)
    ensures
        r.len() == v.len(),
        forall|i: int| 0 <= i < v.len() ==> (#[trigger] r@[i]).len() == v@[i].len(),
        matrix_view(r@) == matrix_view(v@),
{
    let mut r: Vec<Vec<Vec<u8>>> = Vec::with_capacity(v.len());
    let mut i: usize = 0;
    while i < v.len()
        invariant
            i <= v.len(),
            r.len() == i,
            forall|j: int| 0 <= j < i ==> shares_view((#[trigger] r@[j])@) == shares_view(v@[j]@),
            forall|j: int| 0 <= j < i ==> (#[trigger] r@[j]).len() == v@[j].len(),
        decreases v.len() - i,
    {
        let row = copy_shares(&v[i]);
        assert(shares_view(row@).len() == shares_view(v@[i as int]@).len());
        r.push(row);
        i += 1;
    }
    assert(matrix_view(r@) =~= matrix_view(v@));
    r
}

impl Clone for ExtendedDataSquare {
    /// A copy of the square.
    fn clone(&self) -> (r: Self)
        ensures
            r@ == self@,
            r.spec_width() == self.spec_width(),
            r.spec_original_width() == self.spec_original_width(),
    {
        proof {
            use_type_invariant(self);
        }
        let data = copy_matrix(&self.data);
        ExtendedDataSquare { data, width: self.width, original_width: self.original_width }
    }
}

/// The first index at which `expected` and `actual` differ, if any.
fn first_mismatch(expected: &Vec<Vec<u8>>, actual: &Vec<Vec<u8>>) -> (r: Option<usize>)
    requires
        expected.len() == actual.len(),
    ensures
        match r {
            Some(i) => is_first_mismatch(shares_view(expected@), shares_view(actual@), i as int),
            None => shares_view(expected@) == shares_view(actual@),
        },
{
    let ghost e = shares_view(expected@);
    let ghost a = shares_view(actual@);
    let mut i: usize = 0;
    while i < expected.len()
        invariant
            expected.len() == actual.len(),
            e == shares_view(expected@),
            a == shares_view(actual@),
            i <= expected.len(),
            forall|j: int| 0 <= j < i ==> (#[trigger] e[j]) == a[j],
        decreases expected.len() - i,
    {
        if !share_eq(&expected[i], &actual[i]) {
            return Some(i);
        }
        i += 1;
    }
    assert(e =~= a);
    None
}

/// A root mismatch error.
fn mismatch_error(expected: &Vec<u8>, actual: &Vec<u8>) -> (r: RepairError)
    ensures
        r matches RepairError::RootHashMismatch { expected: x, actual: y } && x@ == expected@ && y@ == actual@,
{
    RepairError::RootHashMismatch { expected: copy_share(expected), actual: copy_share(actual) }
}

/// A square of chunks that may be missing, held as vectors: `w` rows of `w`.
spec fn work_shaped(work: Seq<Vec<Option<Vec<u8>>>>, w: nat) -> bool {
    &&& work.len() == w
    &&& forall|r: int| 0 <= r < w ==> (#[trigger] work[r]).len() == w
}

/// The line that `rebuild_axis` works on: `2 * i` for row `i`, `2 * i + 1`
/// for column `i`.
spec fn line_of(on_row: bool, i: nat) -> nat {
    if on_row {
        2 * i
    } else {
        2 * i + 1
    }
}

/// Share `p` of row `i` of `m` when `on_row`, of column `i` otherwise.
spec fn line_cell(m: Seq<Seq<Option<Seq<u8>>>>, on_row: bool, i: int, p: int) -> Option<Seq<u8>> {
    if on_row {
        m[i][p]
    } else {
        m[p][i]
    }
}

/// The complete square `s` is coded by the codec, holds every share of `m`,
/// and line `k` of it has the root `root`.
spec fn rebuilds_within(
    codec: LeoRSCodec,
    s: Seq<Seq<Option<Seq<u8>>>>,
    m: Seq<Seq<Option<Seq<u8>>>>,
    k: nat,
    root: Seq<u8>,
) -> bool {
    &&& coded_square(s, codec.data_shard_count(), codec.parity_shard_count())
    &&& keeps_present(m, s)
    &&& merkle_root(unwrap_all(attempt_axis(s, k))) == root
}

/// Attempt to rebuild row `i` (column `i` when `on_row` is false) of a square
/// of chunks that may be missing: when at least as many chunks are present as
/// the codec has data shards, the axis is decoded and encoded again, and when
/// the root of the result is `root`, the missing chunks are taken from it.
/// Returns whether chunks were added. Within a coded square `s` that holds
/// the chunks of the square and has the root `root` on that line, a line that
/// can be decoded is completed with the chunks of `s`.
fn rebuild_axis(
    work: &mut Vec<Vec<Option<Vec<u8>>>>,
    codec: &LeoRSCodec,
    on_row: bool,
    i: usize,
    root: &Vec<u8>,
    Ghost(s): Ghost<Seq<Seq<Option<Seq<u8>>>>>,
) -> (progress: bool)
    requires
        work_shaped(old(work)@, old(work).len() as nat),
        i < old(work).len(),
        is_rs_code(codec.data_shard_count(), codec.parity_shard_count()),
        codec.data_shard_count() > 0,
        codec.data_shard_count() == codec.parity_shard_count(),
        old(work).len() == 2 * codec.data_shard_count(),
    ensures
        work_shaped(final(work)@, old(work).len() as nat),
        count_missing(opt_matrix_view(final(work)@)) <= count_missing(opt_matrix_view(old(work)@)),
        progress ==> count_missing(opt_matrix_view(final(work)@)) < count_missing(opt_matrix_view(old(work)@)),
        keeps_present(opt_matrix_view(old(work)@), opt_matrix_view(final(work)@)),
        !progress ==> opt_matrix_view(final(work)@) == opt_matrix_view(old(work)@),
        rebuilds_within(*codec, s, opt_matrix_view(old(work)@), line_of(on_row, i as nat), root@) ==> {
            &&& keeps_present(opt_matrix_view(final(work)@), s)
            &&& (!all_present(attempt_axis(opt_matrix_view(old(work)@), line_of(on_row, i as nat))) && count_present(
                attempt_axis(opt_matrix_view(old(work)@), line_of(on_row, i as nat)),
            ) >= codec.data_shard_count() ==> progress)
        },
{
    let ghost m0 = opt_matrix_view(work@);
    let ghost k: nat = line_of(on_row, i as nat);
    let ghost d = codec.data_shard_count();
    let ghost fits = rebuilds_within(*codec, s, m0, k, root@);
    let w = work.len();
    let mut axis: Vec<Option<Vec<u8>>> = Vec::with_capacity(w);
    let mut j: usize = 0;
    while j < w
        invariant
            w == work.len(),
            work_shaped(work@, w as nat),
            m0 == opt_matrix_view(work@),
            i < w,
            j <= w,
            axis.len() == j,
            forall|p: int| 0 <= p < j ==> opt_share_view(#[trigger] axis@[p]) == line_cell(m0, on_row, i as int, p),
        decreases w - j,
    {
        if on_row {
            axis.push(copy_opt_share(&work[i][j]));
        } else {
            axis.push(copy_opt_share(&work[j][i]));
        }
        j += 1;
    }
    let ghost line = attempt_axis(m0, k);
    assert(k / 2 == i && (k % 2 == 0) == on_row);
    assert(opt_shares_view(axis@) =~= line) by {
        assert(line.len() == w) by {
            if on_row {
                assert(m0[i as int].len() == w);
            }
        }
    }
    if is_complete(axis.as_slice()) {
        return false;
    }
    if count_present_exec(axis.as_slice()) < codec.max_chunks() {
        return false;
    }
    let ghost a = unwrap_all(attempt_axis(s, k));
    let ghost x = a.take(d as int);
    proof {
        if fits {
            lemma_line_part(m0, s, k);
            assert(x[0] == a[0]);
            assert(agrees_on_present(line, codeword(d, d, x))) by {
                assert forall|c: int| 0 <= c < line.len() && (#[trigger] line[c]) is Some implies line[c]->0 == codeword(
                    d,
                    d,
                    x,
                )[c] by {
                    assert(line[c] == attempt_axis(s, k)[c]);
                }
            }
            law_leo_decode_round_trip(*codec, x, line);
            law_leo_encode_shape(*codec, x);
        }
    }
    let data = match codec.decode(axis) {
        Ok(d) => d,
        Err(_) => return false,
    };
    let full = match codec.encode(data) {
        Ok(f) => f,
        Err(_) => return false,
    };
    if full.len() != w {
        return false;
    }
    let computed = axis_root(&full);
    if !share_eq(&computed, root) {
        return false;
    }
    proof {
        if fits {
            assert forall|p: int| 0 <= p < w implies line_cell(s, on_row, i as int, p) == Some(
                #[trigger] full@[p]@,
            ) by {
                assert(attempt_axis(s, k)[p] == line_cell(s, on_row, i as int, p));
                if on_row {
                    assert(s[i as int][p] is Some);
                } else {
                    assert(s[p][i as int] is Some);
                }
                assert(shares_view(full@)[p] == a[p]);
            }
        }
    }
    let ghost start = count_missing(opt_matrix_view(work@));
    let mut filled = false;
    let mut j: usize = 0;
    while j < w
        invariant
            w == work.len(),
            work_shaped(work@, w as nat),
            i < w,
            j <= w,
            full.len() == w,
            start == count_missing(m0),
            count_missing(opt_matrix_view(work@)) <= start,
            filled ==> count_missing(opt_matrix_view(work@)) < start,
            keeps_present(m0, opt_matrix_view(work@)),
            !filled ==> opt_matrix_view(work@) == m0,
            !filled ==> forall|p: int| 0 <= p < j ==> (#[trigger] line_cell(m0, on_row, i as int, p)) is Some,
            fits ==> keeps_present(opt_matrix_view(work@), s),
            fits ==> forall|p: int| 0 <= p < w ==> line_cell(s, on_row, i as int, p) == Some(#[trigger] full@[p]@),
        decreases w - j,
    {
        let ghost before = opt_matrix_view(work@);
        if on_row {
            if work[i][j].is_none() {
                assert(before[i as int][j as int] is None);
                work[i][j] = Some(copy_share(&full[j]));
                proof {
                    lemma_fill_decreases(before, i as int, j as int, full@[j as int]@);
                    assert(opt_matrix_view(work@) =~~= before.update(
                        i as int,
                        before[i as int].update(j as int, Some(full@[j as int]@)),
                    ));
                }
                filled = true;
            } else {
                assert(line_cell(before, on_row, i as int, j as int) is Some);
            }
        } else {
            if work[j][i].is_none() {
                assert(before[j as int][i as int] is None);
                work[j][i] = Some(copy_share(&full[j]));
                proof {
                    lemma_fill_decreases(before, j as int, i as int, full@[j as int]@);
                    assert(opt_matrix_view(work@) =~~= before.update(
                        j as int,
                        before[j as int].update(i as int, Some(full@[j as int]@)),
                    ));
                }
                filled = true;
            } else {
                assert(line_cell(before, on_row, i as int, j as int) is Some);
            }
        }
        j += 1;
    }
    proof {
        if !filled {
            assert forall|p: int| 0 <= p < line.len() implies (#[trigger] line[p]) is Some by {
                assert(line[p] == line_cell(m0, on_row, i as int, p));
            }
        }
    }
    filled
}

/// The chunks of a square, every one present.
pub open spec fn as_present(m: Seq<Seq<Seq<u8>>>) -> Seq<Seq<Option<Seq<u8>>>> {
    m.map_values(|row: Seq<Seq<u8>>| row.map_values(|x: Seq<u8>| Some(x)))
}

/// The chunks of the square `m` that the roots `rr` of its rows and `cr` of
/// its columns vouch for: a nonempty chunk is kept when the root of its row
/// is the one given for that row, or the root of its column the one given for
/// that column; the other chunks are missing.
pub open spec fn vouched(m: Seq<Seq<Seq<u8>>>, rr: Seq<Seq<u8>>, cr: Seq<Seq<u8>>) -> Seq<Seq<Option<Seq<u8>>>> {
    Seq::new(
        m.len(),
        |r: int|
            Seq::new(
                m.len(),
                |c: int|
                    if (merkle_root(m[r]) == rr[r] || merkle_root(column(m, c)) == cr[c]) && m[r][c].len() > 0 {
                        Some(m[r][c])
                    } else {
                        None
                    },
            ),
    )
}

/// Repairing the square `m` with row roots `rr` and column roots `cr` can
/// give the square `sq`: `m` has an even width `2 * ow` of at most 256; every
/// row and column of `sq` is the coding of its first `ow` chunks, which share
/// one nonzero length, by the Reed-Solomon code of `ow` data and `ow` parity
/// shards; the roots of `sq` are `rr` and `cr`; the chunks of `m` that these
/// roots vouch for are those of `sq`; and completing the lines `ks` of them
/// from `sq`, one after another, each holding at least half of its chunks
/// when its turn comes, fills the square.
pub open spec fn restores_to(
    m: Seq<Seq<Seq<u8>>>,
    rr: Seq<Seq<u8>>,
    cr: Seq<Seq<u8>>,
    sq: Seq<Seq<Seq<u8>>>,
    ks: Seq<nat>,
) -> bool {
    let ow = m.len() / 2;
    &&& ow > 0
    &&& m.len() == 2 * ow
    &&& m.len() <= 256
    &&& coded_square(as_present(sq), ow, ow)
    &&& square_row_roots(sq) == rr
    &&& square_col_roots(sq, m.len()) == cr
    &&& keeps_present(vouched(m, rr, cr), as_present(sq))
    &&& completion_fills(vouched(m, rr, cr), as_present(sq), ks)
}

/// The lines of a square of chunks, every one present, are its rows and
/// columns.
proof fn lemma_present_lines(t: Seq<Seq<Seq<u8>>>, i: int)
    requires
        opt_square_shape(as_present(t), t.len()),
        0 <= i < t.len(),
    ensures
        unwrap_all(attempt_axis(as_present(t), (2 * i) as nat)) == t[i],
        unwrap_all(attempt_axis(as_present(t), (2 * i + 1) as nat)) == column(t, i),
{
    assert forall|r: int| 0 <= r < t.len() implies (#[trigger] t[r]).len() == t.len() by {
        assert(as_present(t)[r].len() == t[r].len());
    }
    assert(((2 * i) as nat) / 2 == i);
    assert(((2 * i + 1) as nat) / 2 == i);
    assert(unwrap_all(attempt_axis(as_present(t), (2 * i) as nat)) =~= t[i]);
    assert(unwrap_all(attempt_axis(as_present(t), (2 * i + 1) as nat)) =~= column(t, i));
}

/// Two squares that repairing `m` with the same roots can give are the same.
proof fn lemma_restores_unique(
    m: Seq<Seq<Seq<u8>>>,
    rr: Seq<Seq<u8>>,
    cr: Seq<Seq<u8>>,
    s1: Seq<Seq<Seq<u8>>>,
    ks1: Seq<nat>,
    s2: Seq<Seq<Seq<u8>>>,
    ks2: Seq<nat>,
)
    requires
        restores_to(m, rr, cr, s1, ks1),
        restores_to(m, rr, cr, s2, ks2),
        is_rs_code(m.len() / 2, m.len() / 2),
    ensures
        s1 == s2,
{
    let ow = m.len() / 2;
    let p1 = as_present(s1);
    let p2 = as_present(s2);
    lemma_coded_takes_lines(p2, p1, ow);
    lemma_completion_covers(vouched(m, rr, cr), p1, p2, ks1);
    assert forall|r: int| 0 <= r < s1.len() implies #[trigger] s1[r] == s2[r] by {
        assert(p1[r].len() == m.len());
        assert(p2[r].len() == m.len());
        assert forall|c: int| 0 <= c < s1[r].len() implies #[trigger] s1[r][c] == s2[r][c] by {
            assert(p1[r][c] == Some(s1[r][c]));
            assert(p2[r][c] == Some(s2[r][c]));
        }
        assert(s1[r] =~= s2[r]);
    }
    assert(s1 =~= s2);
}

impl ExtendedDataSquare {
    /// The square rebuilt from the chunks that the given roots vouch for, by
    /// decoding rows and columns with the Reed-Solomon codec of
    /// `original_width` data and as many parity shards until no more chunks
    /// can be added. It is given only when it is complete and its rows and
    /// columns have the given roots, and it is given whenever repair can give
    /// a square.
    fn rebuilt(
        &self,
        rr: &Vec<Vec<u8>>,
        cr: &Vec<Vec<u8>>,
        own_rows: &Vec<Vec<u8>>,
        own_cols: &Vec<Vec<u8>>,
    ) -> (r: Option<Vec<Vec<Vec<u8>>>>)
        requires
            rr.len() == self.spec_width(),
            cr.len() == self.spec_width(),
            own_rows.len() == self.spec_width(),
            own_cols.len() == self.spec_width(),
            shares_view(own_rows@) == square_row_roots(self@),
            shares_view(own_cols@) == square_col_roots(self@, self.spec_width()),
        ensures
            r matches Some(m) ==> {
                &&& m.len() == self.spec_width()
                &&& forall|k: int| 0 <= k < m.len() ==> (#[trigger] m@[k]).len() == self.spec_width()
                &&& square_row_roots(matrix_view(m@)) == shares_view(rr@)
                &&& square_col_roots(matrix_view(m@), self.spec_width()) == shares_view(cr@)
            },
            forall|sq: Seq<Seq<Seq<u8>>>, ks: Seq<nat>|
                #[trigger] restores_to(self@, shares_view(rr@), shares_view(cr@), sq, ks) ==> (r matches Some(m)
                    && matrix_view(m@) == sq),
    {
        proof {
            use_type_invariant(self);
            self.lemma_shaped();
        }
        let ghost rrv = shares_view(rr@);
        let ghost crv = shares_view(cr@);
        let w = self.width;
        let ow = self.original_width;
        if ow == 0 || w != ow + ow {
            return None;
        }
        let codec = match LeoRSCodec::new(ow, ow) {
            Ok(c) => c,
            Err(_) => return None,
        };
        let ghost good = exists|sq: Seq<Seq<Seq<u8>>>, ks: Seq<nat>| restores_to(self@, rrv, crv, sq, ks);
        let ghost (target, tks) = choose|sq: Seq<Seq<Seq<u8>>>, ks: Seq<nat>| restores_to(self@, rrv, crv, sq, ks);
        let ghost tsq = as_present(target);
        let ghost start = vouched(self@, rrv, crv);
        let mut work: Vec<Vec<Option<Vec<u8>>>> = Vec::with_capacity(w);
        let mut r: usize = 0;
        while r < w
            invariant
                w == self.width,
                self.data.len() == w,
                forall|k: int| 0 <= k < w ==> (#[trigger] self.data@[k]).len() == w,
                rr.len() == w,
                cr.len() == w,
                own_rows.len() == w,
                own_cols.len() == w,
                shares_view(own_rows@) == square_row_roots(self@),
                shares_view(own_cols@) == square_col_roots(self@, w as nat),
                rrv == shares_view(rr@),
                crv == shares_view(cr@),
                start == vouched(self@, rrv, crv),
                r <= w,
                work.len() == r,
                forall|k: int| 0 <= k < r ==> (#[trigger] work@[k]).len() == w,
                forall|k: int| 0 <= k < r ==> opt_shares_view((#[trigger] work@[k])@) == start[k],
            decreases w - r,
        {
            let row_ok = share_eq(&own_rows[r], &rr[r]);
            proof {
                assert(square_row_roots(self@)[r as int] == shares_view(own_rows@)[r as int]);
            }
            let mut row: Vec<Option<Vec<u8>>> = Vec::with_capacity(w);
            let mut c: usize = 0;
            while c < w
                invariant
                    w == self.width,
                    self.data.len() == w,
                    forall|k: int| 0 <= k < w ==> (#[trigger] self.data@[k]).len() == w,
                    cr.len() == w,
                    own_cols.len() == w,
                    shares_view(own_cols@) == square_col_roots(self@, w as nat),
                    crv == shares_view(cr@),
                    start == vouched(self@, rrv, crv),
                    row_ok == (merkle_root(self@[r as int]) == rrv[r as int]),
                    r < w,
                    c <= w,
                    row.len() == c,
                    forall|j: int| 0 <= j < c ==> opt_share_view(#[trigger] row@[j]) == start[r as int][j],
                decreases w - c,
            {
                proof {
                    assert(square_col_roots(self@, w as nat)[c as int] == shares_view(own_cols@)[c as int]);
                    assert(self@[r as int][c as int] == self.data@[r as int]@[c as int]@);
                }
                if (row_ok || share_eq(&own_cols[c], &cr[c])) && self.data[r][c].len() > 0 {
                    row.push(Some(copy_share(&self.data[r][c])));
                } else {
                    row.push(None);
                }
                c += 1;
            }
            assert(opt_shares_view(row@) =~= start[r as int]);
            work.push(row);
            r += 1;
        }
        assert(opt_matrix_view(work@) =~~= start);
        loop
            invariant
                w == work.len(),
                work_shaped(work@, w as nat),
                rr.len() == w,
                cr.len() == w,
                rrv == shares_view(rr@),
                crv == shares_view(cr@),
                w == 2 * ow,
                ow > 0,
                codec.data_shard_count() == ow,
                codec.parity_shard_count() == ow,
                is_rs_code(ow as nat, ow as nat),
                opt_square_shape(start, w as nat),
                keeps_present(start, opt_matrix_view(work@)),
                tsq == as_present(target),
                good ==> restores_to(self@, rrv, crv, target, tks),
                good ==> keeps_present(opt_matrix_view(work@), tsq),
            ensures
                w == work.len(),
                work_shaped(work@, w as nat),
                keeps_present(start, opt_matrix_view(work@)),
                good ==> keeps_present(opt_matrix_view(work@), tsq),
                good ==> settled(opt_matrix_view(work@)),
            decreases count_missing(opt_matrix_view(work@)),
        {
            let ghost pass_start = opt_matrix_view(work@);
            let ghost start_count = count_missing(pass_start);
            let mut progress = false;
            let mut i: usize = 0;
            while i < w
                invariant
                    w == work.len(),
                    work_shaped(work@, w as nat),
                    rr.len() == w,
                    cr.len() == w,
                    rrv == shares_view(rr@),
                    crv == shares_view(cr@),
                    w == 2 * ow,
                    ow > 0,
                    codec.data_shard_count() == ow,
                    codec.parity_shard_count() == ow,
                    is_rs_code(ow as nat, ow as nat),
                    opt_square_shape(start, w as nat),
                    keeps_present(start, opt_matrix_view(work@)),
                    tsq == as_present(target),
                    good ==> restores_to(self@, rrv, crv, target, tks),
                    good ==> keeps_present(opt_matrix_view(work@), tsq),
                    i <= w,
                    start_count == count_missing(pass_start),
                    count_missing(opt_matrix_view(work@)) <= start_count,
                    progress ==> count_missing(opt_matrix_view(work@)) < start_count,
                    !progress ==> opt_matrix_view(work@) == pass_start,
                    good && !progress ==> forall|k: nat|
                        k < 2 * i ==> all_present(#[trigger] attempt_axis(pass_start, k)) || count_present(
                            attempt_axis(pass_start, k),
                        ) < ow,
                decreases w - i,
            {
                let ghost before = opt_matrix_view(work@);
                proof {
                    if good {
                        lemma_present_lines(target, i as int);
                        assert(rrv[i as int] == merkle_root(target[i as int]));
                        assert(crv[i as int] == merkle_root(column(target, i as int)));
                    }
                }
                let row_progress = rebuild_axis(&mut work, &codec, true, i, &rr[i], Ghost(tsq));
                let ghost mid = opt_matrix_view(work@);
                let col_progress = rebuild_axis(&mut work, &codec, false, i, &cr[i], Ghost(tsq));
                proof {
                    lemma_keeps_present_trans(start, before, mid);
                    lemma_keeps_present_trans(start, mid, opt_matrix_view(work@));
                }
                if row_progress || col_progress {
                    progress = true;
                }
                i += 1;
            }
            if !progress {
                break;
            }
        }
        proof {
            if good {
                let view = opt_matrix_view(work@);
                lemma_settled_takes_lines(view, tsq);
                lemma_completion_covers(start, tsq, view, tks);
                assert forall|r: int| 0 <= r < w implies #[trigger] view[r] == tsq[r] by {
                    assert forall|c: int| 0 <= c < w implies #[trigger] view[r][c] == tsq[r][c] by {
                        assert(tsq[r][c] is Some);
                    }
                    assert(view[r] =~= tsq[r]);
                }
                assert(view =~= tsq);
            }
        }
        let mut m: Vec<Vec<Vec<u8>>> = Vec::with_capacity(w);
        let mut r: usize = 0;
        while r < w
            invariant
                w == work.len(),
                work_shaped(work@, w as nat),
                r <= w,
                m.len() == r,
                forall|k: int| 0 <= k < r ==> (#[trigger] m@[k]).len() == w,
                tsq == as_present(target),
                rrv == shares_view(rr@),
                crv == shares_view(cr@),
                good == exists|sq: Seq<Seq<Seq<u8>>>, ks: Seq<nat>| restores_to(self@, rrv, crv, sq, ks),
                good ==> restores_to(self@, rrv, crv, target, tks),
                good ==> opt_matrix_view(work@) == tsq,
                good ==> forall|k: int| 0 <= k < r ==> (#[trigger] matrix_view(m@)[k]) == target[k],
            decreases w - r,
        {
            let mut row: Vec<Vec<u8>> = Vec::with_capacity(w);
            let mut c: usize = 0;
            while c < w
                invariant
                    w == work.len(),
                    work_shaped(work@, w as nat),
                    r < w,
                    c <= w,
                    row.len() == c,
                    tsq == as_present(target),
                    rrv == shares_view(rr@),
                crv == shares_view(cr@),
                good == exists|sq: Seq<Seq<Seq<u8>>>, ks: Seq<nat>| restores_to(self@, rrv, crv, sq, ks),
                    good ==> restores_to(self@, rrv, crv, target, tks),
                    good ==> opt_matrix_view(work@) == tsq,
                    good ==> forall|j: int| 0 <= j < c ==> (#[trigger] row@[j])@ == target[r as int][j],
                decreases w - c,
            {
                proof {
                    if good {
                        assert(tsq[r as int].len() == target[r as int].len());
                        assert(opt_matrix_view(work@)[r as int][c as int] == tsq[r as int][c as int]);
                        assert(tsq[r as int][c as int] == Some(target[r as int][c as int]));
                    }
                }
                match &work[r][c] {
                    Some(x) => row.push(copy_share(x)),
                    None => {
                        proof {
                            assert forall|sq: Seq<Seq<Seq<u8>>>, ks: Seq<nat>|
                                #[trigger] restores_to(self@, rrv, crv, sq, ks) implies false by {
                                assert(good);
                            }
                        }
                        return None;
                    },
                }
                c += 1;
            }
            proof {
                if good {
                    assert(tsq[r as int].len() == target[r as int].len());
                    assert(shares_view(row@) =~= target[r as int]);
                }
            }
            let ghost old_m = m@;
            m.push(row);
            proof {
                if good {
                    assert(matrix_view(m@)[r as int] == shares_view(m@[r as int]@));
                    assert forall|k: int| 0 <= k < r implies #[trigger] matrix_view(m@)[k] == matrix_view(old_m)[k] by {
                        assert(m@[k] == old_m[k]);
                    }
                }
            }
            r += 1;
        }
        proof {
            if good {
                assert(matrix_view(m@) =~= target);
            }
        }
        let mut i: usize = 0;
        while i < w
            invariant
                m.len() == w,
                forall|k: int| 0 <= k < w ==> (#[trigger] m@[k]).len() == w,
                rr.len() == w,
                rrv == shares_view(rr@),
                i <= w,
                forall|k: int| 0 <= k < i ==> merkle_root(#[trigger] matrix_view(m@)[k]) == shares_view(rr@)[k],
                rrv == shares_view(rr@),
                crv == shares_view(cr@),
                good == exists|sq: Seq<Seq<Seq<u8>>>, ks: Seq<nat>| restores_to(self@, rrv, crv, sq, ks),
                good ==> restores_to(self@, rrv, crv, target, tks),
                good ==> matrix_view(m@) == target,
            decreases w - i,
        {
            let root = axis_root(&m[i]);
            proof {
                if good {
                    assert(rrv[i as int] == merkle_root(target[i as int]));
                }
            }
            if !share_eq(&root, &rr[i]) {
                proof {
                    assert forall|sq: Seq<Seq<Seq<u8>>>, ks: Seq<nat>|
                        #[trigger] restores_to(self@, rrv, crv, sq, ks) implies false by {
                        assert(good);
                        assert(matrix_view(m@)[i as int] == target[i as int]);
                    }
                }
                return None;
            }
            assert(matrix_view(m@)[i as int] == shares_view(m@[i as int]@));
            i += 1;
        }
        let mut j: usize = 0;
        while j < w
            invariant
                m.len() == w,
                forall|k: int| 0 <= k < w ==> (#[trigger] m@[k]).len() == w,
                cr.len() == w,
                crv == shares_view(cr@),
                j <= w,
                forall|k: int| 0 <= k < j ==> merkle_root(#[trigger] column(matrix_view(m@), k)) == shares_view(cr@)[k],
                rrv == shares_view(rr@),
                crv == shares_view(cr@),
                good == exists|sq: Seq<Seq<Seq<u8>>>, ks: Seq<nat>| restores_to(self@, rrv, crv, sq, ks),
                good ==> restores_to(self@, rrv, crv, target, tks),
                good ==> matrix_view(m@) == target,
            decreases w - j,
        {
            let root = column_root(&m, j);
            proof {
                if good {
                    assert(crv[j as int] == merkle_root(column(target, j as int)));
                }
            }
            if !share_eq(&root, &cr[j]) {
                proof {
                    assert forall|sq: Seq<Seq<Seq<u8>>>, ks: Seq<nat>|
                        #[trigger] restores_to(self@, rrv, crv, sq, ks) implies false by {
                        assert(good);
                        assert(column(matrix_view(m@), j as int) == column(target, j as int));
                    }
                }
                return None;
            }
            j += 1;
        }
        assert(square_row_roots(matrix_view(m@)) =~= shares_view(rr@));
        assert(square_col_roots(matrix_view(m@), w as nat) =~= shares_view(cr@));
        proof {
            assert forall|sq: Seq<Seq<Seq<u8>>>, ks: Seq<nat>|
                #[trigger] restores_to(self@, rrv, crv, sq, ks) implies matrix_view(m@) == sq by {
                lemma_restores_unique(self@, rrv, crv, target, tks, sq, ks);
            }
        }
        Some(m)
    }
}

impl ExtendedDataSquare {
    /// Repair missing or corrupted data using Reed-Solomon decoding: the
    /// given roots are checked against the square's own; where they differ,
    /// the chunks that a row or column with a matching root vouches for are
    /// kept, the others are rebuilt by decoding rows and columns, and the
    /// rebuilt square is taken when its roots are the given ones. Otherwise
    /// the square is left as it is and the first differing root is reported.
    /// Whenever the vouched chunks are those of a coded square with the given
    /// roots, and completing its lines one after another from half of their
    /// chunks fills the square, the repair succeeds with that square.
    pub fn repair(&mut self, row_roots: Vec<Vec<u8>>, col_roots: Vec<Vec<u8>>) -> (r: Result<(), RepairError>)
        ensures
            final(self).shaped(),
            final(self).spec_width() == old(self).spec_width(),
            final(self).spec_original_width() == old(self).spec_original_width(),
            ({
                let w = old(self).spec_width();
                let rr = shares_view(row_roots@);
                let cr = shares_view(col_roots@);
                let own_rows = square_row_roots(old(self)@);
                let own_cols = square_col_roots(old(self)@, w);
                &&& rr.len() != w ==> (r matches Err(RepairError::ValidationFailed(m))
                    && m@ == root_count_message(" row roots, got "@, w, rr.len()))
                &&& rr.len() == w && cr.len() != w ==> (r matches Err(RepairError::ValidationFailed(m))
                    && m@ == root_count_message(" column roots, got "@, w, cr.len()))
                &&& r is Err ==> final(self)@ == old(self)@
                &&& r is Ok ==> square_row_roots(final(self)@) == rr && square_col_roots(final(self)@, w) == cr
                &&& rr.len() == w && cr.len() == w && rr == own_rows && cr == own_cols ==> (r is Ok && final(self)@
                    == old(self)@)
                &&& rr.len() == w && cr.len() == w && r is Err && rr != own_rows ==> exists|i: int|
                    is_first_mismatch(rr, own_rows, i) && (r matches Err(RepairError::RootHashMismatch {
                        expected,
                        actual,
                    }) && expected@ == rr[i] && actual@ == own_rows[i])
                &&& rr.len() == w && cr.len() == w && r is Err && rr == own_rows ==> exists|i: int|
                    is_first_mismatch(cr, own_cols, i) && (r matches Err(RepairError::RootHashMismatch {
                        expected,
                        actual,
                    }) && expected@ == cr[i] && actual@ == own_cols[i])
                &&& forall|sq: Seq<Seq<Seq<u8>>>, ks: Seq<nat>|
                    #[trigger] restores_to(old(self)@, rr, cr, sq, ks) && (rr != own_rows || cr != own_cols) ==> (r is Ok
                        && final(self)@ == sq)
            }),
    {
        proof {
            use_type_invariant(&*self);
            self.lemma_shaped();
        }
        if row_roots.len() != self.width {
            let mut m = text("Expected ");
            push_decimal(&mut m, self.width);
            push_text(&mut m, " row roots, got ");
            push_decimal(&mut m, row_roots.len());
            assert(m@ =~= root_count_message(" row roots, got "@, self.width as nat, row_roots.len() as nat));
            return Err(RepairError::ValidationFailed(m));
        }
        if col_roots.len() != self.width {
            let mut m = text("Expected ");
            push_decimal(&mut m, self.width);
            push_text(&mut m, " column roots, got ");
            push_decimal(&mut m, col_roots.len());
            assert(m@ =~= root_count_message(" column roots, got "@, self.width as nat, col_roots.len() as nat));
            return Err(RepairError::ValidationFailed(m));
        }
        let current_row_roots = match self.row_roots() {
            Ok(roots) => roots,
            Err(e) => {
                let mut m = text("Failed to compute row roots: ");
                let shown = e.to_string();
                push_text(&mut m, shown.as_str());
                return Err(RepairError::ValidationFailed(m));
            },
        };
        let current_col_roots = match self.col_roots() {
            Ok(roots) => roots,
            Err(e) => {
                let mut m = text("Failed to compute column roots: ");
                let shown = e.to_string();
                push_text(&mut m, shown.as_str());
                return Err(RepairError::ValidationFailed(m));
            },
        };
        assert(shares_view(current_row_roots@).len() == self.width);
        assert(shares_view(current_col_roots@).len() == self.width);
        assert(shares_view(row_roots@).len() == row_roots.len());
        let row_mismatch = first_mismatch(&row_roots, &current_row_roots);
        let col_mismatch = first_mismatch(&col_roots, &current_col_roots);
        if row_mismatch.is_none() && col_mismatch.is_none() {
            return Ok(());
        }
        match self.rebuilt(&row_roots, &col_roots, &current_row_roots, &current_col_roots) {
            Some(data) => {
                let width = self.width;
                let original_width = self.original_width;
                *self = Self { data, width, original_width };
                proof {
                    use_type_invariant(&*self);
                    self.lemma_shaped();
                }
                return Ok(());
            },
            None => {},
        }
        match row_mismatch {
            Some(i) => return Err(mismatch_error(&row_roots[i], &current_row_roots[i])),
            None => {},
        }
        match col_mismatch {
            Some(i) => return Err(mismatch_error(&col_roots[i], &current_col_roots[i])),
            None => {},
        }
        Ok(())
    }
}

} // verus!
