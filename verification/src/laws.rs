//! Properties of the library that relate its operations to one another.
use vstd::prelude::*;
use crate::crossword::{
    attempt, attempt_axis, count_missing, crossword, filled, fill_outcome, is_first_bad_fill,
    is_first_sanity_failure, keeps_present, lemma_attempt, lemma_keeps_present_trans, lemma_pass_run, pass_run,
    sanity_fails_at, with_column, crossword_stop, CrosswordFailure,
};
use crate::datasquare::{
    all_sized, axis_root, cols_roots, extended, opt_column, opt_square_shape, row_major, rows_roots, sizes_ok,
    with_col_slice, with_row_slice, SquareErrorKind,
};
use crate::erasure::ErasureCodec;
use crate::codec::{
    agrees_on_present, codeword, column_parity_of_row_parity, is_rs_code, row_parity_of_column_parity, rs_parity,
    uniform_len, uniform_square, LeoRSCodec,
};
use crate::extended_data_square::{
    as_present, column, encode_cols, encode_rows, extension, imported, ods_placed, restores_to, square_col_roots,
    square_row_roots, square_shape, vouched,
};
use crate::traits::Codec;
use crate::extendeddatasquare::{
    all_cells_present, all_some, erasure_extension, first_present_size, extend_col_step, extend_row_step, extension_run, extension_step,
    ods_rows,
};
use crate::completion::{
    complete_line, completion_fills, lemma_completion_covers, lemma_count_present_grows, lemma_line_part, lemma_settled_takes_lines,
    part_of, settled, takes_lines_from,
};
use crate::tree::merkle_root;
use crate::shares::{all_present, count_present, is_perfect_square, lemma_root_of_square, sq, square_root, unwrap_all};

verus! {

broadcast use vstd::seq_lib::group_seq_properties;

/// The flattening of rows that all have `w` items holds row `r` at positions
/// `r * w` to `r * w + w`.
pub proof fn lemma_flatten_uniform<A>(m: Seq<Seq<A>>, w: nat)
    requires
        forall|r: int| 0 <= r < m.len() ==> (#[trigger] m[r]).len() == w,
    ensures
        m.flatten().len() == m.len() * w,
        forall|r: int, c: int| 0 <= r < m.len() && 0 <= c < w ==> #[trigger] m.flatten()[r * w + c] == m[r][c],
    decreases m.len(),
{
    if m.len() > 0 {
        let n = (m.len() - 1) as nat;
        let p = m.drop_last();
        lemma_flatten_uniform(p, w);
        assert(p.push(m.last()) =~= m);
        p.lemma_flatten_push(m.last());
        assert(m.flatten() == p.flatten() + m.last());
        assert(n * w + w == m.len() * w) by (nonlinear_arith)
            requires
                n + 1 == m.len(),
        ;
        assert forall|r: int, c: int| 0 <= r < m.len() && 0 <= c < w implies #[trigger] m.flatten()[r * w + c]
            == m[r][c] by {
            if r < n {
                assert(r * w + c < n * w) by (nonlinear_arith)
                    requires
                        0 <= r < n,
                        0 <= c < w,
                ;
                assert(0 <= r * w + c) by (nonlinear_arith)
                    requires
                        0 <= r,
                        0 <= c,
                ;
                assert(p[r] == m[r]);
            } else {
                assert(r * w == n * w);
            }
        }
    }
}

/// Importing the flattening of a square of width `w` gives the square back:
/// the flattening holds a perfect square of shares, whose root is `w`, and
/// read row by row it is the square.
pub proof fn law_row_major_of_flatten(m: Seq<Seq<Option<Seq<u8>>>>, w: nat)
    requires
        opt_square_shape(m, w),
    ensures
        m.flatten().len() == w * w,
        is_perfect_square(m.flatten().len()),
        square_root(m.flatten().len()) == w,
        row_major(m.flatten(), w) == m,
{
    lemma_flatten_uniform(m, w);
    lemma_root_of_square(w);
    assert(row_major(m.flatten(), w) =~~= m);
}

/// Importing the flattening of a complete square gives the square back: for
/// a square of width `w` > 0 whose shares are all present and of `ss` bytes,
/// the flattening holds a perfect square of shares whose root is `w`, its
/// first share has `ss` bytes, every share has that size, and read row by row
/// it is the square.
pub proof fn law_import_of_flatten(m: Seq<Seq<Option<Seq<u8>>>>, w: nat, ss: nat)
    requires
        opt_square_shape(m, w),
        w > 0,
        all_cells_present(m),
        shares_sized(m, ss),
    ensures
        m.flatten().len() == w * w,
        is_perfect_square(m.flatten().len()),
        square_root(m.flatten().len()) == w,
        first_present_size(m.flatten()) == ss,
        sizes_ok(m.flatten(), ss),
        row_major(m.flatten(), w) == m,
{
    law_row_major_of_flatten(m, w);
    let v = m.flatten();
    assert(v[0] == m[0][0]) by {
        assert(v[0 * w as int + 0] == m[0][0]);
    }
    assert(m[0][0] is Some);
    assert forall|i: int| 0 <= i < v.len() && (#[trigger] v[i]) is Some implies v[i]->0.len() == ss by {
        let r = i / w as int;
        let c = i % w as int;
        assert(i == r * w + c && 0 <= r < w && 0 <= c < w) by (nonlinear_arith)
            requires
                0 <= i < w * w,
                r == i / w as int,
                c == i % w as int,
        ;
        assert(v[r * w + c] == m[r][c]);
    }
}

/// Importing places each chunk where the flattening puts it: chunk `c` of
/// row `r` is the chunk at position `r * w + c` when it is present, and an
/// empty chunk when it is missing.
pub proof fn law_imported_cell(data: Seq<Option<Seq<u8>>>, w: nat, r: int, c: int)
    requires
        data.len() == w * w,
        0 <= r < w,
        0 <= c < w,
    ensures
        imported(data, w).len() == w,
        imported(data, w)[r].len() == w,
        data[r * w + c] matches Some(x) ==> imported(data, w)[r][c] == x,
        data[r * w + c] is None ==> imported(data, w)[r][c] == Seq::<u8>::empty(),
{
}

/// Reading row by row a sequence of `w * w` shares, then flattening the
/// square, gives the sequence back.
pub proof fn law_flatten_of_row_major<A>(v: Seq<A>, w: nat)
    requires
        v.len() == w * w,
    ensures
        Seq::new(w, |r: int| Seq::new(w, |c: int| v[r * w + c])).flatten() == v,
{
    let m = Seq::new(w, |r: int| Seq::new(w, |c: int| v[r * w + c]));
    lemma_flatten_uniform(m, w);
    assert forall|i: int| 0 <= i < v.len() implies #[trigger] m.flatten()[i] == v[i] by {
        let r = i / w as int;
        let c = i % w as int;
        assert(i == r * w + c && 0 <= r < w && 0 <= c < w) by (nonlinear_arith)
            requires
                0 <= i < w * w,
                r == i / w as int,
                c == i % w as int,
        ;
    }
    assert(m.flatten() =~= v);
}

/// Importing the flattening of a square of chunks of width `w`, every chunk
/// present, gives the square back.
pub proof fn law_imported_of_flatten(m: Seq<Seq<Seq<u8>>>, w: nat)
    requires
        square_shape(m, w),
    ensures
        m.flatten().len() == w * w,
        is_perfect_square(m.flatten().len()),
        square_root(m.flatten().len()) == w,
        imported(m.flatten().map_values(|x: Seq<u8>| Some(x)), w) == m,
{
    lemma_flatten_uniform(m, w);
    lemma_root_of_square(w);
    let im = imported(m.flatten().map_values(|x: Seq<u8>| Some(x)), w);
    assert forall|r: int, c: int| 0 <= r < w && 0 <= c < w implies #[trigger] im[r][c] == m[r][c] by {
        crate::shares::lemma_cell_index(r as nat, c as nat, w);
    }
    assert(im =~~= m);
}

/// Setting a missing share of a square and then reading it gives the share,
/// and leaves every other share and the shape of the square as they were.
pub proof fn law_cell_read_after_write(m: Seq<Seq<Option<Seq<u8>>>>, w: nat, r: int, c: int, x: Seq<u8>)
    requires
        opt_square_shape(m, w),
        0 <= r < w,
        0 <= c < w,
    ensures
        ({
            let m2 = m.update(r, m[r].update(c, Some(x)));
            &&& m2[r][c] == Some(x)
            &&& opt_square_shape(m2, w)
            &&& forall|r2: int, c2: int|
                0 <= r2 < w && 0 <= c2 < w && (r2 != r || c2 != c) ==> #[trigger] m2[r2][c2] == m[r2][c2]
        }),
{
}

/// Setting a chunk of a square and then reading it gives the chunk, and
/// leaves every other chunk and the shape of the square as they were.
pub proof fn law_chunk_read_after_write(m: Seq<Seq<Seq<u8>>>, w: nat, r: int, c: int, x: Seq<u8>)
    requires
        square_shape(m, w),
        0 <= r < w,
        0 <= c < w,
    ensures
        ({
            let m2 = m.update(r, m[r].update(c, x));
            &&& m2[r][c] == x
            &&& square_shape(m2, w)
            &&& forall|r2: int, c2: int|
                0 <= r2 < w && 0 <= c2 < w && (r2 != r || c2 != c) ==> #[trigger] m2[r2][c2] == m[r2][c2]
        }),
{
}

/// The first `k` steps of an extension keep the shape of the square, keep
/// every share present, and leave the original quadrant as it was.
proof fn lemma_extension_run_keeps<C: ErasureCodec>(
    codec: C,
    m0: Seq<Seq<Option<Seq<u8>>>>,
    ow: nat,
    ss: nat,
    k: nat,
)
    requires
        opt_square_shape(m0, 2 * ow),
        all_cells_present(m0),
    ensures
        extension_run(codec, m0, ow, ss, k) matches Ok(m) ==> {
            &&& opt_square_shape(m, 2 * ow)
            &&& all_cells_present(m)
            &&& forall|r: int, c: int| 0 <= r < ow && 0 <= c < ow ==> #[trigger] m[r][c] == m0[r][c]
        },
    decreases k,
{
    if k > 0 {
        lemma_extension_run_keeps(codec, m0, ow, ss, (k - 1) as nat);
        if let Ok(m1) = extension_run(codec, m0, ow, ss, (k - 1) as nat) {
            if let Ok(m2) = extension_step(codec, m1, ow, ss, (k - 1) as nat) {
                assert(opt_square_shape(m2, 2 * ow));
                assert forall|r: int, c: int| 0 <= r < m2.len() && 0 <= c < m2[r].len() implies (#[trigger] m2[r][c]) is Some by {
                    assert(m1[r][c] is Some);
                }
                assert forall|r: int, c: int| 0 <= r < ow && 0 <= c < ow implies #[trigger] m2[r][c] == m0[r][c] by {
                    assert(m1[r][c] == m0[r][c]);
                }
            }
        }
    }
}

/// Extension leaves the original square in the top-left quadrant: when the
/// extension of a complete original square of width `ow` succeeds, the first
/// `ow` shares of its first `ow` rows are those of the original square, and
/// every share of the extended square is present.
pub proof fn law_extension_keeps_original<C: ErasureCodec>(
    codec: C,
    ods: Seq<Seq<Option<Seq<u8>>>>,
    ow: nat,
    ss: nat,
)
    requires
        opt_square_shape(ods, ow),
        all_cells_present(ods),
    ensures
        erasure_extension(codec, ods, ow, ss) matches Ok(m) ==> {
            &&& opt_square_shape(m, 2 * ow)
            &&& all_cells_present(m)
            &&& ods_rows(m, ow) == ods
        },
{
    let m0 = extended(ods, ow, ow, Seq::new(ss, |i: int| 0u8));
    assert forall|r: int, c: int| 0 <= r < m0.len() && 0 <= c < m0[r].len() implies (#[trigger] m0[r][c]) is Some by {
        if r < ow && c < ow {
            assert(ods[r][c] is Some);
        }
    }
    lemma_extension_run_keeps(codec, m0, ow, ss, 3 * ow);
    if let Ok(m) = erasure_extension(codec, ods, ow, ss) {
        assert(ods_rows(m, ow) =~~= ods);
    }
}

/// The original square of a computed extended data square is the data it was
/// computed from: when the extension of the `n` shares of `data`, `n` a
/// perfect square, succeeds, its original square read row by row is `data`.
pub proof fn law_compute_keeps_data<C: ErasureCodec>(codec: C, data: Seq<Seq<u8>>, ss: nat)
    requires
        is_perfect_square(data.len()),
    ensures
        erasure_extension(
            codec,
            row_major(all_some(data), square_root(data.len())),
            square_root(data.len()),
            ss,
        ) matches Ok(m) ==> ods_rows(m, square_root(data.len())).flatten() == all_some(data),
{
    let w = square_root(data.len());
    assert(sq(w) == data.len());
    let ods = row_major(all_some(data), w);
    assert forall|r: int, c: int| 0 <= r < ods.len() && 0 <= c < ods[r].len() implies (#[trigger] ods[r][c]) is Some by {
        crate::shares::lemma_cell_index(r as nat, c as nat, w);
    }
    law_extension_keeps_original(codec, ods, w, ss);
    if let Ok(m) = erasure_extension(codec, ods, w, ss) {
        law_flatten_of_row_major(all_some(data), w);
        assert(ods_rows(m, w) =~~= Seq::new(w, |r: int| Seq::new(w, |c: int| all_some(data)[r * w + c])));
    }
}

/// Every attempt of a pass over a complete square solves its axis as it is.
proof fn lemma_pass_run_complete<C: ErasureCodec>(
    codec: C,
    m: Seq<Seq<Option<Seq<u8>>>>,
    ss: nat,
    rr: Seq<Seq<u8>>,
    cr: Seq<Seq<u8>>,
    k: nat,
)
    requires
        opt_square_shape(m, m.len()),
        all_cells_present(m),
        k <= 2 * m.len(),
    ensures
        pass_run(codec, m, ss, rr, cr, k) == Ok::<(Seq<Seq<Option<Seq<u8>>>>, bool, bool), CrosswordFailure>(
            (m, true, false),
        ),
    decreases k,
{
    if k > 0 {
        lemma_pass_run_complete(codec, m, ss, rr, cr, (k - 1) as nat);
        let j = ((k - 1) as nat / 2) as int;
        assert(all_present(attempt_axis(m, (k - 1) as nat))) by {
            if (k - 1) as nat % 2 == 1 {
                assert forall|r: int| 0 <= r < opt_column(m, j).len() implies (#[trigger] opt_column(m, j)[r]) is Some by {
                    assert(m[r][j] is Some);
                }
            }
        }
    }
}

/// Repair gives a complete square: when the repair of a square succeeds, every
/// share of the result is present, and every share present before is kept.
pub proof fn law_repair_complete<C: ErasureCodec>(
    codec: C,
    m: Seq<Seq<Option<Seq<u8>>>>,
    ss: nat,
    rr: Seq<Seq<u8>>,
    cr: Seq<Seq<u8>>,
)
    requires
        opt_square_shape(m, m.len()),
    ensures
        crossword(codec, m, ss, rr, cr) matches Ok(m2) ==> {
            &&& all_cells_present(m2)
            &&& keeps_present(m, m2)
            &&& opt_square_shape(m2, m.len())
        },
    decreases count_missing(m),
{
    lemma_pass_run(codec, m, ss, rr, cr, 2 * m.len());
    if let Ok((m1, solved, progress)) = pass_run(codec, m, ss, rr, cr, 2 * m.len()) {
        if solved {
            assert forall|r: int, c: int| 0 <= r < m1.len() && 0 <= c < m1[r].len() implies (#[trigger] m1[r][c]) is Some by {
                assert(all_present(attempt_axis(m1, (2 * r) as nat)));
                assert(attempt_axis(m1, (2 * r) as nat) == m1[r]);
            }
        } else if progress {
            law_repair_complete(codec, m1, ss, rr, cr);
            if let Ok(m2) = crossword(codec, m1, ss, rr, cr) {
                lemma_keeps_present_trans(m, m1, m2);
            }
        }
    }
}

/// Repairing a complete square with its own roots succeeds and leaves it as
/// it is: the check before repair finds no wrong root, and the crossword gives
/// the square back.
pub proof fn law_repair_of_complete_square<C: ErasureCodec>(codec: C, m: Seq<Seq<Option<Seq<u8>>>>, ss: nat)
    requires
        opt_square_shape(m, m.len()),
        all_cells_present(m),
    ensures
        !exists|k: nat| is_first_sanity_failure(m, rows_roots(m), cols_roots(m, m.len()), k),
        crossword(codec, m, ss, rows_roots(m), cols_roots(m, m.len())) == Ok::<
            Seq<Seq<Option<Seq<u8>>>>,
            CrosswordFailure,
        >(m),
{
    let rr = rows_roots(m);
    let cr = cols_roots(m, m.len());
    assert forall|k: nat| !#[trigger] is_first_sanity_failure(m, rr, cr, k) by {
        if k < 2 * m.len() && k % 2 == 1 {
            assert(cr[(k / 2) as int] == axis_root(opt_column(m, (k / 2) as int)));
        }
    }
    lemma_pass_run_complete(codec, m, ss, rr, cr, 2 * m.len());
}

/// The codec gives back every row and column of the complete square `s`
/// from any part of it that misses shares but holds at least half of them.
pub open spec fn recovers<C: ErasureCodec>(codec: C, s: Seq<Seq<Option<Seq<u8>>>>) -> bool {
    forall|k: nat, v: Seq<Option<Seq<u8>>>|
        #![trigger codec.spec_recover(v), attempt_axis(s, k)]
        k < 2 * s.len() && part_of(v, attempt_axis(s, k)) && !all_present(v) && count_present(v) >= v.len() / 2
            ==> codec.spec_recover(v) == Ok::<Seq<Seq<u8>>, SquareErrorKind>(unwrap_all(attempt_axis(s, k)))
}

/// Every share of the square has `ss` bytes.
pub open spec fn shares_sized(s: Seq<Seq<Option<Seq<u8>>>>, ss: nat) -> bool {
    forall|r: int, c: int| 0 <= r < s.len() && 0 <= c < s[r].len() ==> (#[trigger] s[r][c])->0.len() == ss
}

/// An attempt on a part of a complete square that the codec recovers keeps it
/// a part of that square.
proof fn lemma_attempt_sound<C: ErasureCodec>(
    codec: C,
    s: Seq<Seq<Option<Seq<u8>>>>,
    m: Seq<Seq<Option<Seq<u8>>>>,
    ss: nat,
    k: nat,
)
    requires
        opt_square_shape(s, s.len()),
        all_cells_present(s),
        shares_sized(s, ss),
        recovers(codec, s),
        opt_square_shape(m, s.len()),
        keeps_present(m, s),
        k < 2 * s.len(),
    ensures
        attempt(codec, m, ss, rows_roots(s), cols_roots(s, s.len()), k) matches Ok((m2, solved, progress)) && keeps_present(
            m2,
            s,
        ) && opt_square_shape(m2, s.len()) && (count_present(attempt_axis(m, k)) >= s.len() / 2 ==> solved),
{
    let w = s.len();
    let i = (k / 2) as int;
    let v = attempt_axis(m, k);
    let a = attempt_axis(s, k);
    let rr = rows_roots(s);
    let cr = cols_roots(s, w);
    assert(part_of(v, a)) by {
        if k % 2 == 1 {
            assert forall|c: int| 0 <= c < v.len() && (#[trigger] v[c]) is Some implies v[c] == a[c] by {
                assert(m[c][i] is Some);
            }
        }
    }
    assert(all_present(a)) by {
        if k % 2 == 1 {
            assert forall|c: int| 0 <= c < a.len() implies (#[trigger] a[c]) is Some by {
                assert(s[c][i] is Some);
            }
        }
    }
    if !all_present(v) && count_present(v) >= v.len() / 2 {
        let rec = unwrap_all(a);
        assert(codec.spec_recover(v) == Ok::<Seq<Seq<u8>>, SquareErrorKind>(rec));
        assert(merkle_root_of_axis(k, rr, cr, i) == axis_root(a)) by {
            if k % 2 == 1 {
                assert(cr[i] == axis_root(opt_column(s, i)));
            }
        }
        assert forall|c: int| !#[trigger] is_first_bad_fill(v, rec, ss, c) by {
            if 0 <= c < v.len() {
                if k % 2 == 0 {
                    assert(s[i][c]->0.len() == ss);
                } else {
                    assert(s[c][i]->0.len() == ss);
                }
            }
        }
        assert(fill_outcome(v, rec, ss) == Ok::<Seq<Option<Seq<u8>>>, SquareErrorKind>(filled(v, rec)));
        assert(filled(v, rec) =~= a);
        if k % 2 == 0 {
            let m2 = m.update(i, a);
            assert forall|r: int, c: int|
                0 <= r < m2.len() && 0 <= c < m2[r].len() && (#[trigger] m2[r][c]) is Some implies s[r][c] == m2[r][c] by {
                if r != i {
                    assert(m2[r][c] == m[r][c]);
                }
            }
        } else {
            let m2 = with_column(m, i, a);
            assert forall|r: int, c: int|
                0 <= r < m2.len() && 0 <= c < m2[r].len() && (#[trigger] m2[r][c]) is Some implies s[r][c] == m2[r][c] by {
                if c != i {
                    assert(m2[r][c] == m[r][c]);
                }
            }
        }
    }
}

/// The root given for attempt `k`: that of row `i` when `k` is even, of
/// column `i` when odd.
spec fn merkle_root_of_axis(k: nat, rr: Seq<Seq<u8>>, cr: Seq<Seq<u8>>, i: int) -> Seq<u8> {
    if k % 2 == 0 {
        rr[i]
    } else {
        cr[i]
    }
}

/// The attempts of a pass over a part of a complete square that the codec
/// recovers never fail, and keep it a part of that square.
proof fn lemma_pass_sound<C: ErasureCodec>(
    codec: C,
    s: Seq<Seq<Option<Seq<u8>>>>,
    m: Seq<Seq<Option<Seq<u8>>>>,
    ss: nat,
    k: nat,
)
    requires
        opt_square_shape(s, s.len()),
        all_cells_present(s),
        shares_sized(s, ss),
        recovers(codec, s),
        opt_square_shape(m, s.len()),
        keeps_present(m, s),
        k <= 2 * s.len(),
    ensures
        pass_run(codec, m, ss, rows_roots(s), cols_roots(s, s.len()), k) matches Ok((m1, solved, progress))
            && keeps_present(m1, s) && opt_square_shape(m1, s.len()),
    decreases k,
{
    if k > 0 {
        lemma_pass_sound(codec, s, m, ss, (k - 1) as nat);
        let m1 = pass_run(codec, m, ss, rows_roots(s), cols_roots(s, s.len()), (k - 1) as nat)->Ok_0.0;
        lemma_attempt_sound(codec, s, m1, ss, (k - 1) as nat);
    }
}

/// Repair never gives wrong shares: when the shares present in a square are
/// those of a complete square `s` with shares of `ss` bytes, and the codec
/// gives back every row and column of `s` from any part of it with at least
/// half of its shares, then repairing with the roots of `s` finds no wrong
/// root, and either gives `s` back or finds the square unrepairable.
pub proof fn law_repair_gives_back<C: ErasureCodec>(
    codec: C,
    s: Seq<Seq<Option<Seq<u8>>>>,
    m: Seq<Seq<Option<Seq<u8>>>>,
    ss: nat,
)
    requires
        opt_square_shape(s, s.len()),
        all_cells_present(s),
        shares_sized(s, ss),
        recovers(codec, s),
        opt_square_shape(m, s.len()),
        keeps_present(m, s),
    ensures
        !exists|k: nat| is_first_sanity_failure(m, rows_roots(s), cols_roots(s, s.len()), k),
        crossword(codec, m, ss, rows_roots(s), cols_roots(s, s.len())) == Ok::<
            Seq<Seq<Option<Seq<u8>>>>,
            CrosswordFailure,
        >(s) || crossword(codec, m, ss, rows_roots(s), cols_roots(s, s.len())) == Err::<
            Seq<Seq<Option<Seq<u8>>>>,
            CrosswordFailure,
        >(CrosswordFailure::Refused(SquareErrorKind::UnrepairableDataSquare)),
    decreases count_missing(m),
{
    let w = s.len();
    let rr = rows_roots(s);
    let cr = cols_roots(s, w);
    assert forall|k: nat| !#[trigger] is_first_sanity_failure(m, rr, cr, k) by {
        if k < 2 * w && all_present(attempt_axis(m, k)) {
            let i = (k / 2) as int;
            if k % 2 == 0 {
                assert(m[i] =~= s[i]) by {
                    assert forall|c: int| 0 <= c < w implies #[trigger] m[i][c] == s[i][c] by {
                        assert(attempt_axis(m, k)[c] is Some);
                    }
                }
            } else {
                assert(opt_column(m, i) =~= opt_column(s, i)) by {
                    assert forall|r: int| 0 <= r < w implies #[trigger] m[r][i] == s[r][i] by {
                        assert(attempt_axis(m, k)[r] is Some);
                    }
                }
                assert(cr[i] == axis_root(opt_column(s, i)));
            }
            assert(!sanity_fails_at(m, rr, cr, k));
        }
    }
    lemma_pass_sound(codec, s, m, ss, 2 * w);
    lemma_pass_run(codec, m, ss, rr, cr, 2 * w);
    let (m1, solved, progress) = pass_run(codec, m, ss, rr, cr, 2 * w)->Ok_0;
    if solved {
        assert(m1 =~~= s) by {
            assert forall|r: int, c: int| 0 <= r < w && 0 <= c < w implies #[trigger] m1[r][c] == s[r][c] by {
                assert(all_present(attempt_axis(m1, (2 * r) as nat)));
                assert(attempt_axis(m1, (2 * r) as nat) == m1[r]);
                assert(m1[r][c] is Some);
            }
        }
    } else if progress {
        law_repair_gives_back(codec, s, m1, ss);
    }
}

/// The encodings of the codec begin with the data they encode.
pub open spec fn systematic<C: Codec>(codec: C) -> bool {
    forall|x: Seq<Seq<u8>>|
        #[trigger] codec.spec_encode(x) matches Ok(y) ==> x.len() <= y.len() && y.take(x.len() as int) == x
}

/// The Reed-Solomon codec is systematic: its encodings are the data followed
/// by the parity.
pub proof fn law_leo_codec_systematic(codec: LeoRSCodec)
    ensures
        systematic(codec),
{
    assert forall|x: Seq<Seq<u8>>| #[trigger] codec.spec_encode(x) is Ok implies x.len() <= codec.spec_encode(
        x,
    )->Ok_0.len() && codec.spec_encode(x)->Ok_0.take(x.len() as int) == x by {
        assert(codec.spec_encode(x)->Ok_0.take(x.len() as int) =~= x);
    }
}

/// The row phase of the extension by a systematic codec keeps the shape of
/// the square and the data in its top-left quadrant.
proof fn lemma_encode_rows_keeps<C: Codec>(codec: C, data: Seq<Seq<u8>>, ow: nat, k: nat)
    requires
        systematic(codec),
        k <= ow,
    ensures
        encode_rows(codec, ods_placed(data, ow), ow, k) matches Ok(m) ==> {
            &&& square_shape(m, 2 * ow)
            &&& forall|r: int, c: int| 0 <= r < ow && 0 <= c < ow ==> #[trigger] m[r][c] == data[r * ow + c]
        },
    decreases k,
{
    if k > 0 {
        lemma_encode_rows_keeps(codec, data, ow, (k - 1) as nat);
        if let Ok(m1) = encode_rows(codec, ods_placed(data, ow), ow, (k - 1) as nat) {
            let x = m1[k - 1].take(ow as int);
            if let Ok(y) = codec.spec_encode(x) {
                assert(y.take(x.len() as int) == x);
                let m2 = encode_rows(codec, ods_placed(data, ow), ow, k)->Ok_0;
                assert forall|r: int, c: int| 0 <= r < ow && 0 <= c < ow implies #[trigger] m2[r][c] == data[r * ow + c] by {
                    assert(m1[r][c] == data[r * ow + c]);
                    if r == k - 1 {
                        assert(y[c] == y.take(x.len() as int)[c]);
                    }
                }
            }
        }
    }
}

/// The column phase of the extension by a systematic codec keeps the shape of
/// the square and its first `ow` rows.
proof fn lemma_encode_cols_keeps<C: Codec>(codec: C, m0: Seq<Seq<Seq<u8>>>, ow: nat, k: nat)
    requires
        systematic(codec),
        square_shape(m0, 2 * ow),
        k <= 2 * ow,
    ensures
        encode_cols(codec, m0, ow, k) matches Ok(m) ==> {
            &&& square_shape(m, 2 * ow)
            &&& forall|r: int, c: int| 0 <= r < ow && 0 <= c < 2 * ow ==> #[trigger] m[r][c] == m0[r][c]
        },
    decreases k,
{
    if k > 0 {
        lemma_encode_cols_keeps(codec, m0, ow, (k - 1) as nat);
        if let Ok(m1) = encode_cols(codec, m0, ow, (k - 1) as nat) {
            let x = crate::extended_data_square::column_prefix(m1, k - 1, ow);
            if let Ok(y) = codec.spec_encode(x) {
                assert(y.take(x.len() as int) == x);
                let m2 = encode_cols(codec, m0, ow, k)->Ok_0;
                assert forall|r: int, c: int| 0 <= r < ow && 0 <= c < 2 * ow implies #[trigger] m2[r][c] == m0[r][c] by {
                    assert(m1[r][c] == m0[r][c]);
                    if c == k - 1 {
                        assert(y[r] == y.take(x.len() as int)[r]);
                    }
                }
            }
        }
    }
}

/// Extension by a systematic codec leaves the data in the top-left quadrant:
/// when it succeeds, the square is twice as wide as the original one, and
/// chunk `c` of row `r` of the original quadrant is chunk `r * ow + c` of the
/// data.
pub proof fn law_extension_keeps_data<C: Codec>(codec: C, data: Seq<Seq<u8>>, ow: nat)
    requires
        systematic(codec),
    ensures
        extension(codec, data, ow) matches Ok(m) ==> {
            &&& square_shape(m, 2 * ow)
            &&& forall|r: int, c: int| 0 <= r < ow && 0 <= c < ow ==> #[trigger] m[r][c] == data[r * ow + c]
        },
{
    lemma_encode_rows_keeps(codec, data, ow, ow);
    if let Ok(m1) = encode_rows(codec, ods_placed(data, ow), ow, ow) {
        lemma_encode_cols_keeps(codec, m1, ow, 2 * ow);
        if let Ok(m) = encode_cols(codec, m1, ow, 2 * ow) {
            assert forall|r: int, c: int| 0 <= r < ow && 0 <= c < ow implies #[trigger] m[r][c] == data[r * ow + c] by {
                assert(m1[r][c] == data[r * ow + c]);
            }
        }
    }
}

/// A pass that adds no share leaves the square as it was.
proof fn lemma_pass_without_progress<C: ErasureCodec>(
    codec: C,
    m: Seq<Seq<Option<Seq<u8>>>>,
    ss: nat,
    rr: Seq<Seq<u8>>,
    cr: Seq<Seq<u8>>,
    k: nat,
)
    ensures
        pass_run(codec, m, ss, rr, cr, k) matches Ok((m1, solved, progress)) ==> (!progress ==> m1 == m),
    decreases k,
{
    if k > 0 {
        lemma_pass_without_progress(codec, m, ss, rr, cr, (k - 1) as nat);
    }
}

/// Every axis of one direction holds at least half of its shares: the rows
/// when `p` is 0, the columns when it is 1.
pub open spec fn half_present_along(m: Seq<Seq<Option<Seq<u8>>>>, p: nat) -> bool {
    forall|i: int| 0 <= i < m.len() ==> count_present(#[trigger] attempt_axis(m, (2 * i + p) as nat)) >= m.len() / 2
}

/// The first `k` attempts of a pass over a part of a complete square that the
/// codec recovers, every axis of one direction of which holds at least half of
/// its shares, leave each of those axes complete.
proof fn lemma_pass_fills_direction<C: ErasureCodec>(
    codec: C,
    s: Seq<Seq<Option<Seq<u8>>>>,
    m: Seq<Seq<Option<Seq<u8>>>>,
    ss: nat,
    p: nat,
    k: nat,
)
    requires
        opt_square_shape(s, s.len()),
        all_cells_present(s),
        shares_sized(s, ss),
        recovers(codec, s),
        opt_square_shape(m, s.len()),
        keeps_present(m, s),
        p < 2,
        half_present_along(m, p),
        k <= 2 * s.len(),
    ensures
        pass_run(codec, m, ss, rows_roots(s), cols_roots(s, s.len()), k) matches Ok((m1, solved, progress)) && {
            &&& keeps_present(m1, s)
            &&& keeps_present(m, m1)
            &&& opt_square_shape(m1, s.len())
            &&& forall|k2: nat| k2 < k && k2 % 2 == p ==> all_present(#[trigger] attempt_axis(m1, k2))
        },
    decreases k,
{
    let rr = rows_roots(s);
    let cr = cols_roots(s, s.len());
    if k == 0 {
        assert(keeps_present(m, m));
    } else {
        lemma_pass_fills_direction(codec, s, m, ss, p, (k - 1) as nat);
        let m1 = pass_run(codec, m, ss, rr, cr, (k - 1) as nat)->Ok_0.0;
        lemma_attempt_sound(codec, s, m1, ss, (k - 1) as nat);
        lemma_attempt(codec, m1, ss, rr, cr, (k - 1) as nat);
        let m2 = attempt(codec, m1, ss, rr, cr, (k - 1) as nat)->Ok_0.0;
        lemma_keeps_present_trans(m, m1, m2);
        let j = ((k - 1) as nat / 2) as int;
        if (k - 1) as nat % 2 == p {
            assert((k - 1) as nat == (2 * j + p) as nat);
            let before = attempt_axis(m, (k - 1) as nat);
            let now = attempt_axis(m1, (k - 1) as nat);
            assert(count_present(before) >= s.len() / 2);
            assert forall|c: int| 0 <= c < before.len() && (#[trigger] before[c]) is Some implies now[c] is Some by {
                if p == 0 {
                    assert(m[j][c] is Some);
                } else {
                    assert(m[c][j] is Some);
                }
            }
            lemma_count_present_grows(before, now);
        }
        assert forall|k2: nat| k2 < k && k2 % 2 == p implies all_present(#[trigger] attempt_axis(m2, k2)) by {
            if k2 < k - 1 {
                let i2 = (k2 / 2) as int;
                assert(all_present(attempt_axis(m1, k2)));
                assert forall|c: int| 0 <= c < attempt_axis(m2, k2).len() implies (#[trigger] attempt_axis(m2, k2)[c]) is Some by {
                    if k2 % 2 == 0 {
                        assert(m1[i2][c] is Some);
                    } else {
                        assert(opt_column(m1, i2)[c] is Some);
                        assert(m1[c][i2] is Some);
                    }
                }
            }
        }
    }
}

/// Repair gives the square back when one direction suffices: when the shares
/// present in a square are those of a complete square `s` with shares of `ss`
/// bytes, every row (or every column) holds at least half of its shares, and
/// the codec gives back every row and column of `s` from any part of it with
/// at least half of its shares, then repairing with the roots of `s` gives `s`.
pub proof fn law_repair_recovers<C: ErasureCodec>(
    codec: C,
    s: Seq<Seq<Option<Seq<u8>>>>,
    m: Seq<Seq<Option<Seq<u8>>>>,
    ss: nat,
    p: nat,
)
    requires
        opt_square_shape(s, s.len()),
        all_cells_present(s),
        shares_sized(s, ss),
        recovers(codec, s),
        opt_square_shape(m, s.len()),
        keeps_present(m, s),
        p < 2,
        half_present_along(m, p),
    ensures
        !exists|k: nat| is_first_sanity_failure(m, rows_roots(s), cols_roots(s, s.len()), k),
        crossword(codec, m, ss, rows_roots(s), cols_roots(s, s.len())) == Ok::<
            Seq<Seq<Option<Seq<u8>>>>,
            CrosswordFailure,
        >(s),
{
    let w = s.len();
    let rr = rows_roots(s);
    let cr = cols_roots(s, w);
    law_repair_gives_back(codec, s, m, ss);
    lemma_pass_fills_direction(codec, s, m, ss, p, 2 * w);
    lemma_pass_without_progress(codec, m, ss, rr, cr, 2 * w);
    let (m1, solved, progress) = pass_run(codec, m, ss, rr, cr, 2 * w)->Ok_0;
    assert(m1 =~~= s) by {
        assert forall|r: int, c: int| 0 <= r < w && 0 <= c < w implies #[trigger] m1[r][c] == s[r][c] by {
            if p == 0 {
                assert(all_present(attempt_axis(m1, (2 * r + p) as nat)));
                assert(attempt_axis(m1, (2 * r) as nat) == m1[r]);
            } else {
                assert(all_present(attempt_axis(m1, (2 * c + p) as nat)));
                assert(attempt_axis(m1, (2 * c + 1) as nat)[r] == m1[r][c]);
            }
            assert(m1[r][c] is Some);
        }
    }
    if !solved {
        if !progress {
            assert(m1 == m);
            lemma_pass_run_complete(codec, m, ss, rr, cr, 2 * w);
            assert(false);
        } else {
            lemma_pass_run_complete(codec, s, ss, rr, cr, 2 * w);
        }
    }
}

/// A repair that cannot decode any incomplete row or column leaves the square
/// as it was: when the first pass over it leaves some axis unsolved and adds
/// no share, the repair fails as unrepairable and stops at the square itself.
pub proof fn law_repair_stuck_leaves_square<C: ErasureCodec>(
    codec: C,
    m: Seq<Seq<Option<Seq<u8>>>>,
    ss: nat,
    rr: Seq<Seq<u8>>,
    cr: Seq<Seq<u8>>,
)
    requires
        opt_square_shape(m, m.len()),
        pass_run(codec, m, ss, rr, cr, 2 * m.len()) is Ok,
        !pass_run(codec, m, ss, rr, cr, 2 * m.len())->Ok_0.1,
        !pass_run(codec, m, ss, rr, cr, 2 * m.len())->Ok_0.2,
    ensures
        crossword(codec, m, ss, rr, cr) == Err::<Seq<Seq<Option<Seq<u8>>>>, CrosswordFailure>(
            CrosswordFailure::Refused(SquareErrorKind::UnrepairableDataSquare),
        ),
        crossword_stop(codec, m, ss, rr, cr) == m,
{
    lemma_pass_without_progress(codec, m, ss, rr, cr, 2 * m.len());
}

/// A pass that adds no share finds every line of the square complete or
/// holding fewer than half of its shares.
proof fn lemma_no_progress_settled<C: ErasureCodec>(
    codec: C,
    m: Seq<Seq<Option<Seq<u8>>>>,
    ss: nat,
    rr: Seq<Seq<u8>>,
    cr: Seq<Seq<u8>>,
    k: nat,
)
    requires
        opt_square_shape(m, m.len()),
        k <= 2 * m.len(),
    ensures
        pass_run(codec, m, ss, rr, cr, k) matches Ok((m1, solved, progress)) && !progress ==> forall|k2: nat|
            k2 < k ==> all_present(#[trigger] attempt_axis(m, k2)) || count_present(attempt_axis(m, k2)) < m.len()
                / 2,
    decreases k,
{
    if k > 0 {
        let j = (k - 1) as nat;
        lemma_no_progress_settled(codec, m, ss, rr, cr, j);
        lemma_pass_without_progress(codec, m, ss, rr, cr, j);
        assert(attempt_axis(m, j).len() == m.len()) by {
            if j % 2 == 0 {
                assert(m[(j / 2) as int].len() == m.len());
            }
        }
    }
}

/// A repair that fails on a part of a complete square that the codec
/// recovers stops at a settled part of that square that holds every share of
/// the square it started from and misses some share.
proof fn lemma_unrepairable_settles<C: ErasureCodec>(
    codec: C,
    s: Seq<Seq<Option<Seq<u8>>>>,
    m: Seq<Seq<Option<Seq<u8>>>>,
    ss: nat,
) -> (f: Seq<Seq<Option<Seq<u8>>>>)
    requires
        opt_square_shape(s, s.len()),
        all_cells_present(s),
        shares_sized(s, ss),
        recovers(codec, s),
        opt_square_shape(m, s.len()),
        keeps_present(m, s),
        crossword(codec, m, ss, rows_roots(s), cols_roots(s, s.len())) is Err,
    ensures
        opt_square_shape(f, s.len()),
        keeps_present(m, f),
        keeps_present(f, s),
        settled(f),
        !all_cells_present(f),
    decreases count_missing(m),
{
    let w = s.len();
    let rr = rows_roots(s);
    let cr = cols_roots(s, w);
    lemma_pass_sound(codec, s, m, ss, 2 * w);
    lemma_pass_run(codec, m, ss, rr, cr, 2 * w);
    let (m1, solved, progress) = pass_run(codec, m, ss, rr, cr, 2 * w)->Ok_0;
    if progress && !solved {
        let f = lemma_unrepairable_settles(codec, s, m1, ss);
        lemma_keeps_present_trans(m, m1, f);
        f
    } else {
        lemma_pass_without_progress(codec, m, ss, rr, cr, 2 * w);
        lemma_no_progress_settled(codec, m, ss, rr, cr, 2 * w);
        assert(m1 == m);
        if all_cells_present(m) {
            lemma_pass_run_complete(codec, m, ss, rr, cr, 2 * w);
        }
        assert(keeps_present(m, m));
        m
    }
}

/// Repair gives the square back whenever completing lines one after another
/// fills it: when the shares present in a square are those of a complete
/// square `s` with shares of `ss` bytes, the codec gives back every row and
/// column of `s` from any part of it with at least half of its shares, and
/// completing the lines `ks` from `s` one after another, each holding at
/// least half of its shares when its turn comes, fills the square, then
/// repairing with the roots of `s` gives `s`.
pub proof fn law_repair_completes<C: ErasureCodec>(
    codec: C,
    s: Seq<Seq<Option<Seq<u8>>>>,
    m: Seq<Seq<Option<Seq<u8>>>>,
    ss: nat,
    ks: Seq<nat>,
)
    requires
        opt_square_shape(s, s.len()),
        all_cells_present(s),
        shares_sized(s, ss),
        recovers(codec, s),
        opt_square_shape(m, s.len()),
        keeps_present(m, s),
        completion_fills(m, s, ks),
    ensures
        !exists|k: nat| is_first_sanity_failure(m, rows_roots(s), cols_roots(s, s.len()), k),
        crossword(codec, m, ss, rows_roots(s), cols_roots(s, s.len())) == Ok::<
            Seq<Seq<Option<Seq<u8>>>>,
            CrosswordFailure,
        >(s),
{
    law_repair_gives_back(codec, s, m, ss);
    if crossword(codec, m, ss, rows_roots(s), cols_roots(s, s.len())) is Err {
        let f = lemma_unrepairable_settles(codec, s, m, ss);
        lemma_settled_takes_lines(f, s);
        lemma_completion_covers(m, s, f, ks);
        assert(all_cells_present(f)) by {
            assert forall|r: int, c: int| 0 <= r < f.len() && 0 <= c < f[r].len() implies (#[trigger] f[r][c]) is Some by {
                assert(s[r][c] is Some);
            }
        }
    }
}

/// Encoding with the Reed-Solomon codec: data of the codec's shard count
/// whose shares share one nonzero length encodes to the data followed by its
/// parity, with as many shares as the codec has data and parity shards, all
/// of that length.
pub proof fn law_leo_encode_shape(codec: LeoRSCodec, x: Seq<Seq<u8>>)
    requires
        is_rs_code(codec.data_shard_count(), codec.parity_shard_count()),
        codec.data_shard_count() > 0,
        x.len() == codec.data_shard_count(),
        uniform_len(x),
        x[0].len() > 0,
    ensures
        codec.spec_encode(x) == Ok::<Seq<Seq<u8>>, crate::error::CodecFailure>(
            codeword(codec.data_shard_count(), codec.parity_shard_count(), x),
        ),
        codeword(codec.data_shard_count(), codec.parity_shard_count(), x).len() == codec.data_shard_count()
            + codec.parity_shard_count(),
        uniform_len(codeword(codec.data_shard_count(), codec.parity_shard_count(), x)),
        codeword(codec.data_shard_count(), codec.parity_shard_count(), x)[0] == x[0],
{
    let d = codec.data_shard_count();
    let p = codec.parity_shard_count();
    let y = codeword(d, p, x);
    assert(crate::codec::rs_parity(d, p, x).len() == p);
    assert forall|i: int| 0 <= i < y.len() implies (#[trigger] y[i]).len() == y[0].len() by {
        if i >= d {
            assert(y[i] == crate::codec::rs_parity(d, p, x)[i - d]);
        }
    }
}

/// Decoding with the Reed-Solomon codec gives the data back: from shares of
/// the encoding of `x`, at least as many present as the codec has data
/// shards, the others missing, decoding gives `x`, and recovering the axis
/// gives the whole encoding.
pub proof fn law_leo_decode_round_trip(codec: LeoRSCodec, x: Seq<Seq<u8>>, v: Seq<Option<Seq<u8>>>)
    requires
        is_rs_code(codec.data_shard_count(), codec.parity_shard_count()),
        codec.data_shard_count() > 0,
        x.len() == codec.data_shard_count(),
        uniform_len(x),
        x[0].len() > 0,
        v.len() == codec.data_shard_count() + codec.parity_shard_count(),
        count_present(v) >= codec.data_shard_count(),
        agrees_on_present(v, codeword(codec.data_shard_count(), codec.parity_shard_count(), x)),
    ensures
        codec.spec_decode(v) == Ok::<Seq<Seq<u8>>, crate::error::CodecFailure>(x),
        codec.spec_recover(v) == Ok::<Seq<Seq<u8>>, SquareErrorKind>(
            codeword(codec.data_shard_count(), codec.parity_shard_count(), x),
        ),
{
    let d = codec.data_shard_count();
    let p = codec.parity_shard_count();
    let y = codeword(d, p, x);
    law_leo_encode_shape(codec, x);
    assert(crate::codec::present_well_sized(v)) by {
        assert forall|i: int| 0 <= i < v.len() && (#[trigger] v[i]) is Some implies v[i]->0.len() == x[0].len() by {
            assert(v[i]->0 == y[i]);
        }
    }
    assert(y.take(d as int) =~= x);
}

/// Every row and column of the complete square `s`, of width `d + p`, is the
/// coding of its first `d` shares, which share one nonzero length.
pub open spec fn coded_square(s: Seq<Seq<Option<Seq<u8>>>>, d: nat, p: nat) -> bool {
    &&& opt_square_shape(s, d + p)
    &&& all_cells_present(s)
    &&& forall|k: nat|
        k < 2 * (d + p) ==> {
            let a = unwrap_all(#[trigger] attempt_axis(s, k));
            &&& uniform_len(a.take(d as int))
            &&& a[0].len() > 0
            &&& a == codeword(d, p, a.take(d as int))
        }
}

/// The Reed-Solomon codec with at least as many parity as data shards gives
/// back every row and column of a coded square from any part of it with at
/// least half of its shares.
pub proof fn lemma_leo_recovers(codec: LeoRSCodec, s: Seq<Seq<Option<Seq<u8>>>>)
    requires
        is_rs_code(codec.data_shard_count(), codec.parity_shard_count()),
        codec.data_shard_count() > 0,
        codec.data_shard_count() <= codec.parity_shard_count(),
        coded_square(s, codec.data_shard_count(), codec.parity_shard_count()),
    ensures
        recovers(codec, s),
{
    let d = codec.data_shard_count();
    let p = codec.parity_shard_count();
    assert forall|k: nat, v: Seq<Option<Seq<u8>>>|
        #![trigger codec.spec_recover(v), attempt_axis(s, k)]
        k < 2 * s.len() && part_of(v, attempt_axis(s, k)) && !all_present(v) && count_present(v) >= v.len() / 2
            implies codec.spec_recover(v) == Ok::<Seq<Seq<u8>>, SquareErrorKind>(unwrap_all(attempt_axis(s, k))) by {
        let axis = attempt_axis(s, k);
        let a = unwrap_all(axis);
        let x = a.take(d as int);
        assert(a == codeword(d, p, x));
        assert(axis.len() == d + p) by {
            if k % 2 == 1 {
                assert(axis.len() == s.len());
            }
        }
        assert(x[0] == a[0]);
        assert(agrees_on_present(v, codeword(d, p, x))) by {
            assert forall|c: int| 0 <= c < v.len() && (#[trigger] v[c]) is Some implies v[c]->0 == codeword(d, p, x)[c] by {
                assert(v[c] == axis[c]);
            }
        }
        law_leo_decode_round_trip(codec, x, v);
    }
}

/// Repair with the Reed-Solomon codec gives a coded square back: when the
/// codec has at least as many parity as data shards, the shares present in a
/// square are those of a coded square `s` with shares of `ss` bytes, and every
/// row (or every column) holds at least half of its shares, then repairing
/// with the roots of `s` gives `s`.
pub proof fn law_leo_repair_recovers(
    codec: LeoRSCodec,
    s: Seq<Seq<Option<Seq<u8>>>>,
    m: Seq<Seq<Option<Seq<u8>>>>,
    ss: nat,
    dir: nat,
)
    requires
        is_rs_code(codec.data_shard_count(), codec.parity_shard_count()),
        codec.data_shard_count() > 0,
        codec.data_shard_count() <= codec.parity_shard_count(),
        coded_square(s, codec.data_shard_count(), codec.parity_shard_count()),
        shares_sized(s, ss),
        opt_square_shape(m, s.len()),
        keeps_present(m, s),
        dir < 2,
        half_present_along(m, dir),
    ensures
        !exists|k: nat| is_first_sanity_failure(m, rows_roots(s), cols_roots(s, s.len()), k),
        crossword(codec, m, ss, rows_roots(s), cols_roots(s, s.len())) == Ok::<
            Seq<Seq<Option<Seq<u8>>>>,
            CrosswordFailure,
        >(s),
{
    lemma_leo_recovers(codec, s);
    law_repair_recovers(codec, s, m, ss, dir);
}

/// Repair with the Reed-Solomon codec gives a coded square back whenever
/// completing lines one after another fills it: when the codec has at least
/// as many parity as data shards, the shares present in a square are those of
/// a coded square `s` with shares of `ss` bytes, and completing the lines `ks`
/// from `s`, each holding at least half of its shares when its turn comes,
/// fills the square, then repairing with the roots of `s` gives `s`.
pub proof fn law_leo_repair_completes(
    codec: LeoRSCodec,
    s: Seq<Seq<Option<Seq<u8>>>>,
    m: Seq<Seq<Option<Seq<u8>>>>,
    ss: nat,
    ks: Seq<nat>,
)
    requires
        is_rs_code(codec.data_shard_count(), codec.parity_shard_count()),
        codec.data_shard_count() > 0,
        codec.data_shard_count() <= codec.parity_shard_count(),
        coded_square(s, codec.data_shard_count(), codec.parity_shard_count()),
        shares_sized(s, ss),
        opt_square_shape(m, s.len()),
        keeps_present(m, s),
        completion_fills(m, s, ks),
    ensures
        !exists|k: nat| is_first_sanity_failure(m, rows_roots(s), cols_roots(s, s.len()), k),
        crossword(codec, m, ss, rows_roots(s), cols_roots(s, s.len())) == Ok::<
            Seq<Seq<Option<Seq<u8>>>>,
            CrosswordFailure,
        >(s),
{
    lemma_leo_recovers(codec, s);
    law_repair_completes(codec, s, m, ss, ks);
}

/// Two squares coded by a Reed-Solomon code of `d` data and `d` parity shards
/// take lines from each other: lines of the two that agree on half of their
/// shares are the same line.
pub proof fn lemma_coded_takes_lines(f: Seq<Seq<Option<Seq<u8>>>>, s: Seq<Seq<Option<Seq<u8>>>>, d: nat)
    requires
        is_rs_code(d, d),
        d > 0,
        coded_square(f, d, d),
        coded_square(s, d, d),
    ensures
        takes_lines_from(f, s),
{
    assert forall|k: nat, v: Seq<Option<Seq<u8>>>|
        #![trigger part_of(v, attempt_axis(f, k)), part_of(v, attempt_axis(s, k))]
        k < 2 * f.len() && part_of(v, attempt_axis(f, k)) && part_of(v, attempt_axis(s, k)) && count_present(v)
            >= f.len() / 2 implies part_of(attempt_axis(s, k), attempt_axis(f, k)) by {
        let fl = attempt_axis(f, k);
        let sl = attempt_axis(s, k);
        let fa = unwrap_all(fl);
        let sa = unwrap_all(sl);
        let xf = fa.take(d as int);
        let xs = sa.take(d as int);
        lemma_line_part(f, f, k);
        lemma_line_part(s, s, k);
        assert(xf[0] == fa[0]);
        assert(xs[0] == sa[0]);
        assert(all_present(fl)) by {
            if k % 2 == 1 {
                assert forall|c: int| 0 <= c < fl.len() implies (#[trigger] fl[c]) is Some by {
                    assert(f[c][(k / 2) as int] is Some);
                }
            }
        }
        assert(all_present(sl)) by {
            if k % 2 == 1 {
                assert forall|c: int| 0 <= c < sl.len() implies (#[trigger] sl[c]) is Some by {
                    assert(s[c][(k / 2) as int] is Some);
                }
            }
        }
        assert(agrees_on_present(v, codeword(d, d, xf))) by {
            assert forall|c: int| 0 <= c < v.len() && (#[trigger] v[c]) is Some implies v[c]->0 == codeword(d, d, xf)[c] by {
                assert(v[c] == fl[c]);
            }
        }
        assert(agrees_on_present(v, codeword(d, d, xs))) by {
            assert forall|c: int| 0 <= c < v.len() && (#[trigger] v[c]) is Some implies v[c]->0 == codeword(d, d, xs)[c] by {
                assert(v[c] == sl[c]);
            }
        }
        assert(crate::codec::rs_reconstructed(d, d, v) == codeword(d, d, xf));
        assert(crate::codec::rs_reconstructed(d, d, v) == codeword(d, d, xs));
        assert forall|c: int| 0 <= c < sl.len() && (#[trigger] sl[c]) is Some implies sl[c] == fl[c] by {
            assert(fa[c] == sa[c]);
            assert(fl[c] is Some);
        }
    }
}

/// Every chunk of the first `k` rows of the square has `len` bytes, and so
/// has every chunk of the top-left quadrant of width `ow`.
spec fn rows_sized(m: Seq<Seq<Seq<u8>>>, ow: nat, k: nat, len: nat) -> bool {
    &&& forall|r: int, c: int| 0 <= r < k && 0 <= c < 2 * ow ==> (#[trigger] m[r][c]).len() == len
    &&& forall|r: int, c: int| 0 <= r < ow && 0 <= c < ow ==> (#[trigger] m[r][c]).len() == len
}

/// The row phase of the extension by the Reed-Solomon codec of `ow` data and
/// at least as many parity shards succeeds on data of one nonzero length, and
/// leaves every chunk of the first rows of that length.
proof fn lemma_leo_encode_rows(codec: LeoRSCodec, data: Seq<Seq<u8>>, ow: nat, k: nat)
    requires
        is_rs_code(codec.data_shard_count(), codec.parity_shard_count()),
        codec.data_shard_count() == ow,
        ow > 0,
        ow <= codec.parity_shard_count(),
        data.len() == ow * ow,
        uniform_len(data),
        data[0].len() > 0,
        k <= ow,
    ensures
        encode_rows(codec, ods_placed(data, ow), ow, k) matches Ok(m) && square_shape(m, 2 * ow) && rows_sized(
            m,
            ow,
            k,
            data[0].len(),
        ),
    decreases k,
{
    let len = data[0].len();
    if k == 0 {
        let m = ods_placed(data, ow);
        assert forall|r: int, c: int| 0 <= r < ow && 0 <= c < ow implies (#[trigger] m[r][c]).len() == len by {
            crate::shares::lemma_cell_index(r as nat, c as nat, ow);
        }
    } else {
        lemma_leo_encode_rows(codec, data, ow, (k - 1) as nat);
        let m1 = encode_rows(codec, ods_placed(data, ow), ow, (k - 1) as nat)->Ok_0;
        let x = m1[k - 1].take(ow as int);
        assert(uniform_len(x) && x[0].len() > 0) by {
            assert forall|i: int| 0 <= i < x.len() implies (#[trigger] x[i]).len() == x[0].len() by {
                assert(m1[k - 1][i].len() == len);
                assert(m1[k - 1][0].len() == len);
            }
            assert(m1[k - 1][0].len() == len);
        }
        law_leo_encode_shape(codec, x);
        let y = codeword(ow, codec.parity_shard_count(), x);
        let m2 = encode_rows(codec, ods_placed(data, ow), ow, k)->Ok_0;
        assert(m2 == crate::extended_data_square::place_row(m1, k - 1, y));
        assert(y[0].len() == len) by {
            assert(m1[k - 1][0].len() == len);
        }
        assert forall|r: int, c: int| 0 <= r < k && 0 <= c < 2 * ow implies (#[trigger] m2[r][c]).len() == len by {
            if r == k - 1 {
                assert(y[c].len() == y[0].len());
            } else {
                assert(m2[r][c] == m1[r][c]);
            }
        }
        assert forall|r: int, c: int| 0 <= r < ow && 0 <= c < ow implies (#[trigger] m2[r][c]).len() == len by {
            if r == k - 1 {
                assert(y[c].len() == y[0].len());
            } else {
                assert(m2[r][c] == m1[r][c]);
            }
        }
    }
}

/// Every chunk of the first `ow` rows, and of the first `k` columns, has
/// `len` bytes.
spec fn cols_sized(m: Seq<Seq<Seq<u8>>>, ow: nat, k: nat, len: nat) -> bool {
    &&& forall|r: int, c: int| 0 <= r < ow && 0 <= c < 2 * ow ==> (#[trigger] m[r][c]).len() == len
    &&& forall|r: int, c: int| 0 <= r < 2 * ow && 0 <= c < k ==> (#[trigger] m[r][c]).len() == len
}

/// The column phase of the extension by the Reed-Solomon codec succeeds on a
/// square whose first `ow` rows have chunks of one nonzero length, and leaves
/// every chunk of the first columns of that length.
proof fn lemma_leo_encode_cols(codec: LeoRSCodec, m0: Seq<Seq<Seq<u8>>>, ow: nat, len: nat, k: nat)
    requires
        is_rs_code(codec.data_shard_count(), codec.parity_shard_count()),
        codec.data_shard_count() == ow,
        ow > 0,
        ow <= codec.parity_shard_count(),
        square_shape(m0, 2 * ow),
        len > 0,
        cols_sized(m0, ow, 0, len),
        k <= 2 * ow,
    ensures
        encode_cols(codec, m0, ow, k) matches Ok(m) && square_shape(m, 2 * ow) && cols_sized(m, ow, k, len),
    decreases k,
{
    if k > 0 {
        lemma_leo_encode_cols(codec, m0, ow, len, (k - 1) as nat);
        let m1 = encode_cols(codec, m0, ow, (k - 1) as nat)->Ok_0;
        let j = k - 1;
        let x = crate::extended_data_square::column_prefix(m1, j, ow);
        assert(uniform_len(x) && x[0].len() > 0) by {
            assert forall|i: int| 0 <= i < x.len() implies (#[trigger] x[i]).len() == x[0].len() by {
                assert(m1[i][j].len() == len);
                assert(m1[0][j].len() == len);
            }
            assert(m1[0][j].len() == len);
        }
        law_leo_encode_shape(codec, x);
        let y = codeword(ow, codec.parity_shard_count(), x);
        let m2 = encode_cols(codec, m0, ow, k)->Ok_0;
        assert(m2 == crate::extended_data_square::place_col(m1, j, y));
        assert(y[0].len() == len) by {
            assert(m1[0][j].len() == len);
        }
        assert forall|r: int, c: int| 0 <= r < 2 * ow && 0 <= c < k implies (#[trigger] m2[r][c]).len() == len by {
            assert(y[r].len() == y[0].len());
            if c != j {
                assert(m2[r][c] == m1[r][c]);
            }
        }
        assert forall|r: int, c: int| 0 <= r < ow && 0 <= c < 2 * ow implies (#[trigger] m2[r][c]).len() == len by {
            assert(y[r].len() == y[0].len());
            if c != j {
                assert(m2[r][c] == m1[r][c]);
            }
        }
    }
}

/// Extension by the Reed-Solomon codec of `ow` data and at least as many
/// parity shards succeeds on `ow * ow` chunks of one nonzero length, and
/// every chunk of the extended square has that length.
pub proof fn law_leo_extension_succeeds(codec: LeoRSCodec, data: Seq<Seq<u8>>, ow: nat)
    requires
        is_rs_code(codec.data_shard_count(), codec.parity_shard_count()),
        codec.data_shard_count() == ow,
        ow > 0,
        ow <= codec.parity_shard_count(),
        data.len() == ow * ow,
        uniform_len(data),
        data[0].len() > 0,
    ensures
        extension(codec, data, ow) matches Ok(m) && square_shape(m, 2 * ow) && forall|r: int, c: int|
            0 <= r < 2 * ow && 0 <= c < 2 * ow ==> (#[trigger] m[r][c]).len() == data[0].len(),
{
    lemma_leo_encode_rows(codec, data, ow, ow);
    let m1 = encode_rows(codec, ods_placed(data, ow), ow, ow)->Ok_0;
    lemma_leo_encode_cols(codec, m1, ow, data[0].len(), 2 * ow);
}

/// Row `r` of the complete square `o` of width `ow`.
spec fn data_row(o: Seq<Seq<Option<Seq<u8>>>>, ow: nat, r: int) -> Seq<Seq<u8>> {
    Seq::new(ow, |c: int| o[r][c]->0)
}

/// Column `c` of the complete square `o` of width `ow`.
spec fn data_col(o: Seq<Seq<Option<Seq<u8>>>>, ow: nat, c: int) -> Seq<Seq<u8>> {
    Seq::new(ow, |r: int| o[r][c]->0)
}

/// The shares of the complete square `o` of width `ow`.
spec fn data_square(o: Seq<Seq<Option<Seq<u8>>>>, ow: nat) -> Seq<Seq<Seq<u8>>> {
    Seq::new(ow, |r: int| data_row(o, ow, r))
}

/// Parity share `q` of every column of `o`: row `ow + q` of its extension.
spec fn lower_row(o: Seq<Seq<Option<Seq<u8>>>>, ow: nat, q: int) -> Seq<Seq<u8>> {
    Seq::new(ow, |c: int| rs_parity(ow, ow, data_col(o, ow, c))[q])
}

/// Share `(r, c)` of the extension of the complete square `o` of width `ow`
/// by a code of `ow` data and `ow` parity shards.
spec fn ext_cell(o: Seq<Seq<Option<Seq<u8>>>>, ow: nat, r: int, c: int) -> Seq<u8> {
    if r < ow && c < ow {
        o[r][c]->0
    } else if r < ow {
        rs_parity(ow, ow, data_row(o, ow, r))[c - ow]
    } else if c < ow {
        rs_parity(ow, ow, data_col(o, ow, c))[r - ow]
    } else {
        rs_parity(ow, ow, lower_row(o, ow, r - ow))[c - ow]
    }
}

/// Share `(r, c)` is written by one of the first `k` steps of the extension,
/// or lies in the original square.
spec fn ext_done(ow: nat, k: nat, r: int, c: int) -> bool {
    ||| r < ow && c < ow
    ||| r < ow && 2 * r < k
    ||| r >= ow && c < ow && 2 * c + 1 < k
    ||| r >= ow && c >= ow && ow + r < k
}

/// The square after the first `k` steps of the extension of `o`.
spec fn ext_state(o: Seq<Seq<Option<Seq<u8>>>>, ow: nat, ss: nat, k: nat) -> Seq<Seq<Option<Seq<u8>>>> {
    Seq::new(
        2 * ow,
        |r: int|
            Seq::new(
                2 * ow,
                |c: int|
                    if ext_done(ow, k, r, c) {
                        Some(ext_cell(o, ow, r, c))
                    } else {
                        Some(Seq::new(ss, |i: int| 0u8))
                    },
            ),
    )
}

/// The original square is complete, of width `ow`, with shares of `ss > 0` bytes.
spec fn ods_ok(o: Seq<Seq<Option<Seq<u8>>>>, ow: nat, ss: nat) -> bool {
    &&& opt_square_shape(o, ow)
    &&& all_cells_present(o)
    &&& ss > 0
    &&& forall|r: int, c: int| 0 <= r < ow && 0 <= c < ow ==> (#[trigger] o[r][c])->0.len() == ss
}

/// The parity of `ow` shares of `ss` bytes is `ow` shares of `ss` bytes.
proof fn lemma_parity_sized(codec: LeoRSCodec, x: Seq<Seq<u8>>, ss: nat)
    requires
        is_rs_code(codec.data_shard_count(), codec.parity_shard_count()),
        codec.data_shard_count() == codec.parity_shard_count(),
        x.len() == codec.data_shard_count(),
        x.len() > 0,
        ss > 0,
        forall|i: int| 0 <= i < x.len() ==> (#[trigger] x[i]).len() == ss,
    ensures
        codec.spec_parity(x) == Ok::<Seq<Seq<u8>>, SquareErrorKind>(
            rs_parity(codec.data_shard_count(), codec.parity_shard_count(), x),
        ),
        rs_parity(codec.data_shard_count(), codec.parity_shard_count(), x).len() == x.len(),
        all_sized(rs_parity(codec.data_shard_count(), codec.parity_shard_count(), x), ss),
{
    assert(uniform_len(x));
    assert(x[0].len() == ss);
}

/// Each step of the extension of a complete square by the Reed-Solomon codec
/// of `ow` data and `ow` parity shards succeeds and writes the shares of the
/// closed form.
proof fn lemma_ext_run(codec: LeoRSCodec, o: Seq<Seq<Option<Seq<u8>>>>, ow: nat, ss: nat, k: nat)
    requires
        is_rs_code(codec.data_shard_count(), codec.parity_shard_count()),
        codec.data_shard_count() == ow,
        codec.parity_shard_count() == ow,
        ow > 0,
        ods_ok(o, ow, ss),
        k <= 3 * ow,
    ensures
        extension_run(codec, extended(o, ow, ow, Seq::new(ss, |i: int| 0u8)), ow, ss, k) == Ok::<
            Seq<Seq<Option<Seq<u8>>>>,
            SquareErrorKind,
        >(ext_state(o, ow, ss, k)),
    decreases k,
{
    let m0 = extended(o, ow, ow, Seq::new(ss, |i: int| 0u8));
    if k == 0 {
        assert(m0 =~~= ext_state(o, ow, ss, 0));
    } else {
        let k1 = (k - 1) as nat;
        lemma_ext_run(codec, o, ow, ss, k1);
        let m = ext_state(o, ow, ss, k1);
        let next = ext_state(o, ow, ss, k);
        if k1 < 2 * ow && k1 % 2 == 0 {
            let i = (k1 / 2) as int;
            let x = unwrap_all(m[i].take(ow as int));
            assert(x =~= data_row(o, ow, i));
            lemma_parity_sized(codec, x, ss);
            let par = rs_parity(ow, ow, x);
            assert(with_row_slice(m, i, ow as int, par) =~~= next);
            assert(extend_row_step(codec, m, ow, ss, i) == Ok::<Seq<Seq<Option<Seq<u8>>>>, SquareErrorKind>(next));
        } else if k1 < 2 * ow {
            let i = (k1 / 2) as int;
            let x = unwrap_all(opt_column(m, i).take(ow as int));
            assert(x =~= data_col(o, ow, i));
            lemma_parity_sized(codec, x, ss);
            let par = rs_parity(ow, ow, x);
            assert(with_col_slice(m, i, ow as int, par) =~~= next);
            assert(extend_col_step(codec, m, ow, ss, i) == Ok::<Seq<Seq<Option<Seq<u8>>>>, SquareErrorKind>(next));
        } else {
            let i = k1 - ow;
            let x = unwrap_all(m[i].take(ow as int));
            assert(x =~= lower_row(o, ow, i - ow));
            assert forall|c: int| 0 <= c < ow implies (#[trigger] x[c]).len() == ss by {
                lemma_parity_sized(codec, data_col(o, ow, c), ss);
            }
            lemma_parity_sized(codec, x, ss);
            let par = rs_parity(ow, ow, x);
            assert(with_row_slice(m, i, ow as int, par) =~~= next);
            assert(extend_row_step(codec, m, ow, ss, i) == Ok::<Seq<Seq<Option<Seq<u8>>>>, SquareErrorKind>(next));
        }
    }
}

/// Every share of the closed form of the extension has `ss` bytes.
proof fn lemma_ext_cell_sized(codec: LeoRSCodec, o: Seq<Seq<Option<Seq<u8>>>>, ow: nat, ss: nat, r: int, c: int)
    requires
        is_rs_code(codec.data_shard_count(), codec.parity_shard_count()),
        codec.data_shard_count() == ow,
        codec.parity_shard_count() == ow,
        ow > 0,
        ods_ok(o, ow, ss),
        0 <= r < 2 * ow,
        0 <= c < 2 * ow,
    ensures
        ext_cell(o, ow, r, c).len() == ss,
{
    if r < ow && c < ow {
    } else if r < ow {
        lemma_parity_sized(codec, data_row(o, ow, r), ss);
    } else if c < ow {
        lemma_parity_sized(codec, data_col(o, ow, c), ss);
    } else {
        assert forall|c2: int| 0 <= c2 < ow implies (#[trigger] lower_row(o, ow, r - ow)[c2]).len() == ss by {
            lemma_parity_sized(codec, data_col(o, ow, c2), ss);
        }
        lemma_parity_sized(codec, lower_row(o, ow, r - ow), ss);
    }
}

/// The extension of a complete square by the Reed-Solomon codec of `ow` data
/// and `ow` parity shards succeeds and gives a coded square: every row and
/// every column of it is the coding of its first `ow` shares, all of which
/// have the size of the original shares.
pub proof fn law_leo_extension_coded(codec: LeoRSCodec, o: Seq<Seq<Option<Seq<u8>>>>, ow: nat, ss: nat)
    requires
        is_rs_code(codec.data_shard_count(), codec.parity_shard_count()),
        codec.data_shard_count() == ow,
        codec.parity_shard_count() == ow,
        ow > 0,
        opt_square_shape(o, ow),
        all_cells_present(o),
        ss > 0,
        shares_sized(o, ss),
    ensures
        erasure_extension(codec, o, ow, ss) matches Ok(s) && coded_square(s, ow, ow) && shares_sized(s, ss)
            && opt_square_shape(s, 2 * ow),
{
    lemma_ext_run(codec, o, ow, ss, 3 * ow);
    let s = ext_state(o, ow, ss, 3 * ow);
    assert forall|r: int, c: int| 0 <= r < 2 * ow && 0 <= c < 2 * ow implies #[trigger] s[r][c] == Some(
        ext_cell(o, ow, r, c),
    ) && ext_cell(o, ow, r, c).len() == ss by {
        lemma_ext_cell_sized(codec, o, ow, ss, r, c);
    }
    let x = data_square(o, ow);
    assert forall|k: nat| k < 2 * (ow + ow) implies {
        let a = unwrap_all(#[trigger] attempt_axis(s, k));
        &&& uniform_len(a.take(ow as int))
        &&& a[0].len() > 0
        &&& a == codeword(ow, ow, a.take(ow as int))
    } by {
        let a = unwrap_all(attempt_axis(s, k));
        let i = (k / 2) as int;
        assert(a.len() == 2 * ow);
        assert forall|c: int| 0 <= c < 2 * ow implies #[trigger] a[c] == if k % 2 == 0 {
            ext_cell(o, ow, i, c)
        } else {
            ext_cell(o, ow, c, i)
        } by {}
        assert forall|c: int| 0 <= c < 2 * ow implies (#[trigger] a[c]).len() == ss by {}
        assert(uniform_len(a.take(ow as int)));
        let y = a.take(ow as int);
        if k % 2 == 0 {
            if i < ow {
                assert(y =~= data_row(o, ow, i));
            } else {
                assert(y =~= lower_row(o, ow, i - ow));
            }
        } else {
            if i < ow {
                assert(y =~= data_col(o, ow, i));
            } else {
                let j = i - ow;
                assert(y =~= Seq::new(ow, |r: int| rs_parity(ow, ow, x[r])[j]));
                assert(uniform_square(x, ow)) by {
                    assert(x[0][0] == o[0][0]->0);
                    assert forall|r: int, c: int| 0 <= r < ow && 0 <= c < ow implies (#[trigger] x[r][c]).len()
                        == x[0][0].len() by {
                        assert(x[r][c] == o[r][c]->0);
                    }
                }
                assert forall|q: int| 0 <= q < ow implies #[trigger] a[ow + q] == rs_parity(ow, ow, y)[q] by {
                    assert(column_parity_of_row_parity(ow, ow, x, j)[q] == row_parity_of_column_parity(ow, ow, x, q)[j]);
                    assert(Seq::new(ow, |c2: int| rs_parity(ow, ow, Seq::new(ow, |r: int| x[r][c2]))[q]) =~= lower_row(
                        o,
                        ow,
                        q,
                    )) by {
                        assert forall|c2: int| 0 <= c2 < ow implies Seq::new(ow, |r: int| x[r][c2])
                            == #[trigger] data_col(o, ow, c2) by {
                            assert(Seq::new(ow, |r: int| x[r][c2]) =~= data_col(o, ow, c2));
                        }
                    }
                }
            }
        }
        lemma_parity_sized(codec, y, ss);
        assert forall|c: int| ow <= c < 2 * ow implies #[trigger] a[c] == rs_parity(ow, ow, y)[c - ow] by {
            let q = c - ow;
            if k % 2 == 1 && i >= ow {
                assert(a[ow + q] == rs_parity(ow, ow, y)[q]);
            }
        }
        assert(a =~= codeword(ow, ow, y));
    }
}

/// Repair gives a computed square back: when the extension of a complete
/// square by the Reed-Solomon codec of `ow` data and `ow` parity shards has
/// lost shares, every row (or every column) keeping at least half of them,
/// repairing what is left with the roots of the extension finds no wrong root
/// and gives the extension back.
pub proof fn law_leo_repair_computed(
    codec: LeoRSCodec,
    o: Seq<Seq<Option<Seq<u8>>>>,
    ow: nat,
    ss: nat,
    m: Seq<Seq<Option<Seq<u8>>>>,
    dir: nat,
)
    requires
        is_rs_code(codec.data_shard_count(), codec.parity_shard_count()),
        codec.data_shard_count() == ow,
        codec.parity_shard_count() == ow,
        ow > 0,
        opt_square_shape(o, ow),
        all_cells_present(o),
        ss > 0,
        shares_sized(o, ss),
        erasure_extension(codec, o, ow, ss) is Ok,
        opt_square_shape(m, 2 * ow),
        keeps_present(m, erasure_extension(codec, o, ow, ss)->Ok_0),
        dir < 2,
        half_present_along(m, dir),
    ensures
        ({
            let s = erasure_extension(codec, o, ow, ss)->Ok_0;
            &&& !exists|k: nat| is_first_sanity_failure(m, rows_roots(s), cols_roots(s, s.len()), k)
            &&& crossword(codec, m, ss, rows_roots(s), cols_roots(s, s.len())) == Ok::<
                Seq<Seq<Option<Seq<u8>>>>,
                CrosswordFailure,
            >(s)
        }),
{
    law_leo_extension_coded(codec, o, ow, ss);
    let s = erasure_extension(codec, o, ow, ss)->Ok_0;
    law_leo_repair_recovers(codec, s, m, ss, dir);
}

/// The number of positions marked in `mask`.
pub open spec fn count_marked(mask: Seq<bool>) -> nat
    decreases mask.len(),
{
    if mask.len() == 0 {
        0
    } else {
        count_marked(mask.drop_last()) + if mask.last() {
            1nat
        } else {
            0nat
        }
    }
}

/// A sequence whose shares are present wherever `mask` is unmarked holds at
/// least as many shares as it has unmarked positions.
proof fn lemma_count_present_unmarked(v: Seq<Option<Seq<u8>>>, mask: Seq<bool>)
    requires
        v.len() == mask.len(),
        forall|c: int| 0 <= c < v.len() && !mask[c] ==> (#[trigger] v[c]) is Some,
    ensures
        count_present(v) + count_marked(mask) >= v.len(),
    decreases v.len(),
{
    if v.len() > 0 {
        assert forall|c: int| 0 <= c < v.drop_last().len() && !mask.drop_last()[c] implies (
        #[trigger] v.drop_last()[c]) is Some by {
            assert(v[c] is Some);
        }
        lemma_count_present_unmarked(v.drop_last(), mask.drop_last());
    }
}

/// Every chunk of a square coded by a Reed-Solomon code of `ow` data and `ow`
/// parity shards is nonempty.
proof fn lemma_coded_nonempty(sq: Seq<Seq<Seq<u8>>>, ow: nat, r: int, c: int)
    requires
        is_rs_code(ow, ow),
        ow > 0,
        coded_square(as_present(sq), ow, ow),
        0 <= r < 2 * ow,
        0 <= c < 2 * ow,
    ensures
        sq.len() == 2 * ow,
        sq[r].len() == 2 * ow,
        sq[r][c].len() > 0,
{
    let s = as_present(sq);
    let a = unwrap_all(attempt_axis(s, (2 * r) as nat));
    let x = a.take(ow as int);
    assert(((2 * r) as nat) / 2 == r);
    assert(s[r].len() == 2 * ow);
    assert(a == codeword(ow, ow, x));
    assert(x[0] == a[0]);
    assert(rs_parity(ow, ow, x).len() == ow);
    assert(a[c] == sq[r][c]);
    if c >= ow {
        assert(a[c] == rs_parity(ow, ow, x)[c - ow]);
    }
}

/// The rows `j` to `w` of a square, in order, as lines.
pub open spec fn rows_from(j: nat, w: nat) -> Seq<nat> {
    Seq::new((w - j) as nat, |i: int| (2 * (i + j)) as nat)
}

/// Completing the rows from `j` of a square whose earlier rows are those of
/// the complete square `s`, and whose other rows hold at least half of their
/// shares, fills the square.
proof fn lemma_rows_complete(g: Seq<Seq<Option<Seq<u8>>>>, s: Seq<Seq<Option<Seq<u8>>>>, j: nat)
    requires
        opt_square_shape(s, s.len()),
        all_cells_present(s),
        opt_square_shape(g, s.len()),
        j <= s.len(),
        forall|r: int| 0 <= r < j ==> #[trigger] g[r] == s[r],
        forall|r: int| j <= r < s.len() ==> count_present(#[trigger] g[r]) >= s.len() / 2,
    ensures
        completion_fills(g, s, rows_from(j, s.len())),
    decreases s.len() - j,
{
    let w = s.len();
    let ks = rows_from(j, w);
    if j == w {
        assert(ks.len() == 0);
        assert forall|r: int, c: int| 0 <= r < g.len() && 0 <= c < g[r].len() implies (#[trigger] g[r][c]) is Some by {
            assert(g[r] == s[r]);
        }
    } else {
        let k = (2 * j) as nat;
        assert(ks[0] == k);
        assert(k / 2 == j && k % 2 == 0);
        let g2 = complete_line(g, s, k);
        assert(attempt_axis(g, k) == g[j as int]);
        assert(ks.drop_first() =~= rows_from(j + 1, w));
        assert forall|r: int| 0 <= r < j + 1 implies #[trigger] g2[r] == s[r] by {
            if r < j {
                assert(g2[r] == g[r]);
            }
        }
        assert forall|r: int| j + 1 <= r < w implies count_present(#[trigger] g2[r]) >= w / 2 by {
            assert(g2[r] == g[r]);
        }
        lemma_rows_complete(g2, s, j + 1);
    }
}

/// Chunks lost within at most half of the columns are restored: when `m` is
/// the square `sq`, coded by the Reed-Solomon code of `ow` data and `ow`
/// parity shards, with chunks emptied only in columns marked in `lost_cols`,
/// at most `ow` of them, repairing `m` with the roots of `sq` gives `sq`:
/// the chunks vouched for are those of `sq`, and completing its rows in order
/// fills the square.
pub proof fn law_lost_columns_restore(sq: Seq<Seq<Seq<u8>>>, m: Seq<Seq<Seq<u8>>>, lost_cols: Seq<bool>, ow: nat)
    requires
        is_rs_code(ow, ow),
        ow > 0,
        2 * ow <= 256,
        coded_square(as_present(sq), ow, ow),
        square_shape(m, 2 * ow),
        lost_cols.len() == 2 * ow,
        count_marked(lost_cols) <= ow,
        forall|r: int, c: int|
            0 <= r < 2 * ow && 0 <= c < 2 * ow ==> #[trigger] m[r][c] == sq[r][c] || (m[r][c].len() == 0
                && lost_cols[c]),
    ensures
        restores_to(m, square_row_roots(sq), square_col_roots(sq, 2 * ow), sq, rows_from(0, 2 * ow)),
{
    let w = 2 * ow;
    let rr = square_row_roots(sq);
    let cr = square_col_roots(sq, w);
    let s = as_present(sq);
    let v = vouched(m, rr, cr);
    assert forall|r: int, c: int| 0 <= r < w && 0 <= c < w implies (#[trigger] sq[r][c]).len() > 0 && sq[r].len()
        == w by {
        lemma_coded_nonempty(sq, ow, r, c);
    }
    lemma_coded_nonempty(sq, ow, 0, 0);
    assert forall|c: int| 0 <= c < w && !lost_cols[c] implies #[trigger] column(m, c) == column(sq, c) by {
        assert forall|r: int| 0 <= r < w implies #[trigger] m[r][c] == sq[r][c] by {
            assert(sq[r][c].len() > 0);
        }
        assert(column(m, c) =~= column(sq, c));
    }
    assert forall|r: int, c: int| 0 <= r < w && 0 <= c < w && (#[trigger] v[r][c]) is Some implies v[r][c] == s[r][c] by {
        assert(m[r][c].len() > 0);
        assert(s[r].len() == sq[r].len());
    }
    assert(keeps_present(v, s)) by {
        assert forall|r: int| 0 <= r < w implies (#[trigger] s[r]).len() == v[r].len() by {
            assert(s[r].len() == sq[r].len());
        }
    }
    assert forall|r: int| 0 <= r < w implies count_present(#[trigger] v[r]) >= w / 2 by {
        assert forall|c: int| 0 <= c < w && !lost_cols[c] implies (#[trigger] v[r][c]) is Some by {
            assert(column(m, c) == column(sq, c));
            assert(m[r][c] == sq[r][c]);
            assert(sq[r][c].len() > 0);
        }
        lemma_count_present_unmarked(v[r], lost_cols);
    }
    assert forall|r: int| 0 <= r < w implies (#[trigger] s[r]).len() == w by {
        assert(s[r].len() == sq[r].len());
    }
    lemma_rows_complete(v, s, 0);
}

/// The columns `j` to `w` of a square, in order, as lines.
pub open spec fn cols_from(j: nat, w: nat) -> Seq<nat> {
    Seq::new((w - j) as nat, |i: int| (2 * (i + j) + 1) as nat)
}

/// Completing the columns from `j` of a square whose earlier columns are
/// those of the complete square `s`, and whose other columns hold at least
/// half of their shares, fills the square.
proof fn lemma_cols_complete(g: Seq<Seq<Option<Seq<u8>>>>, s: Seq<Seq<Option<Seq<u8>>>>, j: nat)
    requires
        opt_square_shape(s, s.len()),
        all_cells_present(s),
        opt_square_shape(g, s.len()),
        j <= s.len(),
        forall|r: int, c: int| 0 <= r < s.len() && 0 <= c < j ==> #[trigger] g[r][c] == s[r][c],
        forall|c: int| j <= c < s.len() ==> count_present(#[trigger] opt_column(g, c)) >= s.len() / 2,
    ensures
        completion_fills(g, s, cols_from(j, s.len())),
    decreases s.len() - j,
{
    let w = s.len();
    let ks = cols_from(j, w);
    if j == w {
        assert(ks.len() == 0);
        assert forall|r: int, c: int| 0 <= r < g.len() && 0 <= c < g[r].len() implies (#[trigger] g[r][c]) is Some by {
            assert(g[r][c] == s[r][c]);
        }
    } else {
        let k = (2 * j + 1) as nat;
        assert(ks[0] == k);
        assert(k / 2 == j && k % 2 == 1);
        let g2 = complete_line(g, s, k);
        assert(attempt_axis(g, k) == opt_column(g, j as int));
        assert(ks.drop_first() =~= cols_from(j + 1, w));
        assert(opt_square_shape(g2, w)) by {
            assert forall|r: int| 0 <= r < w implies (#[trigger] g2[r]).len() == w by {
                assert(g2[r] == g[r].update(j as int, s[r][j as int]));
            }
        }
        assert forall|r: int, c: int| 0 <= r < w && 0 <= c < j + 1 implies #[trigger] g2[r][c] == s[r][c] by {
            assert(g2[r] == g[r].update(j as int, opt_column(s, j as int)[r]));
        }
        assert forall|c: int| j + 1 <= c < w implies count_present(#[trigger] opt_column(g2, c)) >= w / 2 by {
            assert forall|r: int| 0 <= r < w implies #[trigger] opt_column(g2, c)[r] == opt_column(g, c)[r] by {
                assert(g2[r] == g[r].update(j as int, opt_column(s, j as int)[r]));
            }
            assert(opt_column(g2, c) =~= opt_column(g, c));
        }
        lemma_cols_complete(g2, s, j + 1);
    }
}

/// Chunks lost within at most half of the rows are restored: when `m` is
/// the square `sq`, coded by the Reed-Solomon code of `ow` data and `ow`
/// parity shards, with chunks emptied only in rows marked in `lost_rows`, at
/// most `ow` of them, repairing `m` with the roots of `sq` gives `sq`: the
/// chunks vouched for are those of `sq`, and completing its columns in order
/// fills the square.
pub proof fn law_lost_rows_restore(sq: Seq<Seq<Seq<u8>>>, m: Seq<Seq<Seq<u8>>>, lost_rows: Seq<bool>, ow: nat)
    requires
        is_rs_code(ow, ow),
        ow > 0,
        2 * ow <= 256,
        coded_square(as_present(sq), ow, ow),
        square_shape(m, 2 * ow),
        lost_rows.len() == 2 * ow,
        count_marked(lost_rows) <= ow,
        forall|r: int, c: int|
            0 <= r < 2 * ow && 0 <= c < 2 * ow ==> #[trigger] m[r][c] == sq[r][c] || (m[r][c].len() == 0
                && lost_rows[r]),
    ensures
        restores_to(m, square_row_roots(sq), square_col_roots(sq, 2 * ow), sq, cols_from(0, 2 * ow)),
{
    let w = 2 * ow;
    let rr = square_row_roots(sq);
    let cr = square_col_roots(sq, w);
    let s = as_present(sq);
    let v = vouched(m, rr, cr);
    assert forall|r: int, c: int| 0 <= r < w && 0 <= c < w implies (#[trigger] sq[r][c]).len() > 0 && sq[r].len()
        == w by {
        lemma_coded_nonempty(sq, ow, r, c);
    }
    lemma_coded_nonempty(sq, ow, 0, 0);
    assert forall|r: int| 0 <= r < w && !lost_rows[r] implies #[trigger] m[r] == sq[r] by {
        assert forall|c: int| 0 <= c < w implies #[trigger] m[r][c] == sq[r][c] by {
            assert(sq[r][c].len() > 0);
        }
        lemma_coded_nonempty(sq, ow, r, 0);
        assert(m[r] =~= sq[r]);
    }
    assert forall|r: int, c: int| 0 <= r < w && 0 <= c < w && (#[trigger] v[r][c]) is Some implies v[r][c] == s[r][c] by {
        assert(m[r][c].len() > 0);
        assert(s[r].len() == sq[r].len());
    }
    assert(keeps_present(v, s)) by {
        assert forall|r: int| 0 <= r < w implies (#[trigger] s[r]).len() == v[r].len() by {
            assert(s[r].len() == sq[r].len());
        }
    }
    assert forall|c: int| 0 <= c < w implies count_present(#[trigger] opt_column(v, c)) >= w / 2 by {
        assert forall|r: int| 0 <= r < w && !lost_rows[r] implies (#[trigger] opt_column(v, c)[r]) is Some by {
            assert(m[r] == sq[r]);
            assert(sq[r][c].len() > 0);
        }
        lemma_count_present_unmarked(opt_column(v, c), lost_rows);
    }
    assert forall|r: int| 0 <= r < w implies (#[trigger] s[r]).len() == w by {
        assert(s[r].len() == sq[r].len());
    }
    lemma_cols_complete(v, s, 0);
}

/// The complete square of width `ow` holding the chunks of `data` row by row.
spec fn data_opt(data: Seq<Seq<u8>>, ow: nat) -> Seq<Seq<Option<Seq<u8>>>> {
    Seq::new(ow, |r: int| Seq::new(ow, |c: int| Some(data[r * ow + c])))
}

/// The row phase of the extension by the Reed-Solomon codec of `ow` data and
/// `ow` parity shards writes the closed form of the extension into its first
/// `k` rows, and leaves the rest of the square as placed.
proof fn lemma_leo_rows_closed(codec: LeoRSCodec, data: Seq<Seq<u8>>, ow: nat, k: nat)
    requires
        is_rs_code(codec.data_shard_count(), codec.parity_shard_count()),
        codec.data_shard_count() == ow,
        codec.parity_shard_count() == ow,
        ow > 0,
        data.len() == ow * ow,
        uniform_len(data),
        data[0].len() > 0,
        k <= ow,
    ensures
        encode_rows(codec, ods_placed(data, ow), ow, k) matches Ok(m) && forall|r: int, c: int|
            0 <= r < 2 * ow && 0 <= c < 2 * ow ==> #[trigger] m[r][c] == if r < k || (r < ow && c < ow) {
                ext_cell(data_opt(data, ow), ow, r, c)
            } else {
                Seq::<u8>::empty()
            },
    decreases k,
{
    let o = data_opt(data, ow);
    lemma_leo_encode_rows(codec, data, ow, k);
    if k == 0 {
        let m = ods_placed(data, ow);
        assert forall|r: int, c: int| 0 <= r < ow && 0 <= c < ow implies #[trigger] m[r][c] == ext_cell(o, ow, r, c) by {
            crate::shares::lemma_cell_index(r as nat, c as nat, ow);
        }
    } else {
        lemma_leo_rows_closed(codec, data, ow, (k - 1) as nat);
        lemma_leo_encode_rows(codec, data, ow, (k - 1) as nat);
        let m1 = encode_rows(codec, ods_placed(data, ow), ow, (k - 1) as nat)->Ok_0;
        let i = k - 1;
        let x = m1[i].take(ow as int);
        assert(x =~= data_row(o, ow, i)) by {
            assert forall|c: int| 0 <= c < ow implies #[trigger] x[c] == data_row(o, ow, i)[c] by {
                assert(m1[i][c] == ext_cell(o, ow, i, c));
            }
        }
        assert(uniform_len(x) && x[0].len() > 0) by {
            assert forall|c: int| 0 <= c < x.len() implies (#[trigger] x[c]).len() == x[0].len() by {
                assert(m1[i][c].len() == data[0].len());
                assert(m1[i][0].len() == data[0].len());
            }
            assert(m1[i][0].len() == data[0].len());
        }
        law_leo_encode_shape(codec, x);
        let y = codeword(ow, ow, x);
        let m2 = encode_rows(codec, ods_placed(data, ow), ow, k)->Ok_0;
        assert(m2 == crate::extended_data_square::place_row(m1, i, y));
        assert forall|r: int, c: int| 0 <= r < 2 * ow && 0 <= c < 2 * ow implies #[trigger] m2[r][c] == if r < k || (r
            < ow && c < ow) {
            ext_cell(o, ow, r, c)
        } else {
            Seq::<u8>::empty()
        } by {
            if r == i {
                assert(m2[r][c] == y[c]);
            } else {
                assert(m2[r][c] == m1[r][c]);
            }
        }
    }
}

/// The column phase of the extension by the Reed-Solomon codec of `ow` data
/// and `ow` parity shards, after the row phase, writes the closed form of the
/// extension into its first `k` columns.
proof fn lemma_leo_cols_closed(codec: LeoRSCodec, data: Seq<Seq<u8>>, ow: nat, k: nat)
    requires
        is_rs_code(codec.data_shard_count(), codec.parity_shard_count()),
        codec.data_shard_count() == ow,
        codec.parity_shard_count() == ow,
        ow > 0,
        data.len() == ow * ow,
        uniform_len(data),
        data[0].len() > 0,
        k <= 2 * ow,
    ensures
        encode_rows(codec, ods_placed(data, ow), ow, ow) matches Ok(m0) && encode_cols(codec, m0, ow, k) matches Ok(m)
            && forall|r: int, c: int|
            0 <= r < 2 * ow && 0 <= c < 2 * ow ==> #[trigger] m[r][c] == if r < ow || c < k {
                ext_cell(data_opt(data, ow), ow, r, c)
            } else {
                Seq::<u8>::empty()
            },
    decreases k,
{
    let o = data_opt(data, ow);
    let len = data[0].len();
    lemma_leo_rows_closed(codec, data, ow, ow);
    lemma_leo_encode_rows(codec, data, ow, ow);
    let m0 = encode_rows(codec, ods_placed(data, ow), ow, ow)->Ok_0;
    lemma_leo_encode_cols(codec, m0, ow, len, k);
    if k > 0 {
        lemma_leo_cols_closed(codec, data, ow, (k - 1) as nat);
        lemma_leo_encode_cols(codec, m0, ow, len, (k - 1) as nat);
        let m1 = encode_cols(codec, m0, ow, (k - 1) as nat)->Ok_0;
        let j = k - 1;
        let x = crate::extended_data_square::column_prefix(m1, j, ow);
        assert(uniform_len(x) && x[0].len() > 0) by {
            assert forall|i: int| 0 <= i < x.len() implies (#[trigger] x[i]).len() == x[0].len() by {
                assert(m1[i][j].len() == len);
                assert(m1[0][j].len() == len);
            }
            assert(m1[0][j].len() == len);
        }
        law_leo_encode_shape(codec, x);
        let y = codeword(ow, ow, x);
        let m2 = encode_cols(codec, m0, ow, k)->Ok_0;
        assert(m2 == crate::extended_data_square::place_col(m1, j, y));
        let dx = data_square(o, ow);
        assert forall|q: int| 0 <= q < ow implies #[trigger] rs_parity(ow, ow, x)[q] == ext_cell(o, ow, ow + q, j) by {
            if j < ow {
                assert(x =~= data_col(o, ow, j)) by {
                    assert forall|r: int| 0 <= r < ow implies #[trigger] x[r] == data_col(o, ow, j)[r] by {
                        assert(m1[r][j] == ext_cell(o, ow, r, j));
                    }
                }
            } else {
                let jj = j - ow;
                assert(x =~= Seq::new(ow, |r: int| rs_parity(ow, ow, dx[r])[jj])) by {
                    assert forall|r: int| 0 <= r < ow implies #[trigger] x[r] == rs_parity(ow, ow, dx[r])[jj] by {
                        assert(m1[r][j] == ext_cell(o, ow, r, j));
                        assert(dx[r] == data_row(o, ow, r));
                    }
                }
                assert(uniform_square(dx, ow)) by {
                    assert(dx[0][0] == o[0][0]->0);
                    assert forall|r: int, c: int| 0 <= r < ow && 0 <= c < ow implies (#[trigger] dx[r][c]).len()
                        == dx[0][0].len() by {
                        assert(dx[r][c] == o[r][c]->0);
                        crate::shares::lemma_cell_index(r as nat, c as nat, ow);
                        crate::shares::lemma_cell_index(0, 0, ow);
                    }
                }
                assert(column_parity_of_row_parity(ow, ow, dx, jj)[q] == row_parity_of_column_parity(ow, ow, dx, q)[jj]);
                assert(Seq::new(ow, |c2: int| rs_parity(ow, ow, Seq::new(ow, |r: int| dx[r][c2]))[q]) =~= lower_row(
                    o,
                    ow,
                    q,
                )) by {
                    assert forall|c2: int| 0 <= c2 < ow implies Seq::new(ow, |r: int| dx[r][c2])
                        == #[trigger] data_col(o, ow, c2) by {
                        assert(Seq::new(ow, |r: int| dx[r][c2]) =~= data_col(o, ow, c2));
                    }
                }
            }
        }
        assert forall|r: int, c: int| 0 <= r < 2 * ow && 0 <= c < 2 * ow implies #[trigger] m2[r][c] == if r < ow
            || c < k {
            ext_cell(o, ow, r, c)
        } else {
            Seq::<u8>::empty()
        } by {
            if c == j {
                assert(m2[r][c] == y[r]);
                if r < ow {
                    assert(y[r] == x[r]);
                    assert(m1[r][j] == ext_cell(o, ow, r, j));
                } else {
                    assert(y[r] == rs_parity(ow, ow, x)[r - ow]);
                    assert(rs_parity(ow, ow, x)[r - ow] == ext_cell(o, ow, ow + (r - ow), j));
                }
            } else {
                assert(m2[r][c] == m1[r][c]);
            }
        }
    }
}

/// The extended data square computed with the Reed-Solomon codec is coded:
/// for `ow * ow` chunks of one nonzero length and the codec of `ow` data and
/// `ow` parity shards, the extension succeeds and every row and column of it
/// is the coding of its first `ow` chunks.
pub proof fn law_leo_compute_coded(codec: LeoRSCodec, data: Seq<Seq<u8>>, ow: nat)
    requires
        is_rs_code(codec.data_shard_count(), codec.parity_shard_count()),
        codec.data_shard_count() == ow,
        codec.parity_shard_count() == ow,
        ow > 0,
        data.len() == ow * ow,
        uniform_len(data),
        data[0].len() > 0,
    ensures
        extension(codec, data, ow) matches Ok(sq) && coded_square(as_present(sq), ow, ow),
{
    let o = data_opt(data, ow);
    let ss = data[0].len();
    lemma_leo_cols_closed(codec, data, ow, 2 * ow);
    law_leo_extension_succeeds(codec, data, ow);
    let sq = extension(codec, data, ow)->Ok_0;
    assert(ods_ok(o, ow, ss)) by {
        assert forall|r: int, c: int| 0 <= r < ow && 0 <= c < ow implies (#[trigger] o[r][c])->0.len() == ss by {
            crate::shares::lemma_cell_index(r as nat, c as nat, ow);
        }
    }
    assert(shares_sized(o, ss));
    lemma_ext_run(codec, o, ow, ss, 3 * ow);
    law_leo_extension_coded(codec, o, ow, ss);
    let s = ext_state(o, ow, ss, 3 * ow);
    assert(as_present(sq) =~~= s) by {
        assert forall|r: int| 0 <= r < 2 * ow implies #[trigger] as_present(sq)[r] =~= s[r] by {
            assert(sq[r].len() == 2 * ow);
            assert forall|c: int| 0 <= c < 2 * ow implies #[trigger] as_present(sq)[r][c] == s[r][c] by {
                assert(sq[r][c] == ext_cell(o, ow, r, c));
                assert(ext_done(ow, 3 * ow, r, c));
            }
        }
    }
}

/// Repair gives back a computed square that lost chunks within at most half
/// of its columns: for `ow * ow` chunks of one nonzero length extended by the
/// Reed-Solomon codec of `ow` data and `ow` parity shards, the extension with
/// chunks emptied only in columns marked in `lost_cols`, at most `ow` of
/// them, is restored to the extension by repair with its roots.
pub proof fn law_leo_computed_lost_columns_restore(
    codec: LeoRSCodec,
    data: Seq<Seq<u8>>,
    ow: nat,
    m: Seq<Seq<Seq<u8>>>,
    lost_cols: Seq<bool>,
)
    requires
        is_rs_code(codec.data_shard_count(), codec.parity_shard_count()),
        codec.data_shard_count() == ow,
        codec.parity_shard_count() == ow,
        ow > 0,
        2 * ow <= 256,
        data.len() == ow * ow,
        uniform_len(data),
        data[0].len() > 0,
        square_shape(m, 2 * ow),
        lost_cols.len() == 2 * ow,
        count_marked(lost_cols) <= ow,
        forall|r: int, c: int|
            0 <= r < 2 * ow && 0 <= c < 2 * ow ==> #[trigger] m[r][c] == extension(codec, data, ow)->Ok_0[r][c] || (
            m[r][c].len() == 0 && lost_cols[c]),
    ensures
        extension(codec, data, ow) matches Ok(sq) && restores_to(
            m,
            square_row_roots(sq),
            square_col_roots(sq, 2 * ow),
            sq,
            rows_from(0, 2 * ow),
        ),
{
    law_leo_compute_coded(codec, data, ow);
    law_lost_columns_restore(extension(codec, data, ow)->Ok_0, m, lost_cols, ow);
}

/// Repair gives back a computed square that lost chunks within at most half
/// of its rows: for `ow * ow` chunks of one nonzero length extended by the
/// Reed-Solomon codec of `ow` data and `ow` parity shards, the extension with
/// chunks emptied only in rows marked in `lost_rows`, at most `ow` of them,
/// is restored to the extension by repair with its roots.
pub proof fn law_leo_computed_lost_rows_restore(
    codec: LeoRSCodec,
    data: Seq<Seq<u8>>,
    ow: nat,
    m: Seq<Seq<Seq<u8>>>,
    lost_rows: Seq<bool>,
)
    requires
        is_rs_code(codec.data_shard_count(), codec.parity_shard_count()),
        codec.data_shard_count() == ow,
        codec.parity_shard_count() == ow,
        ow > 0,
        2 * ow <= 256,
        data.len() == ow * ow,
        uniform_len(data),
        data[0].len() > 0,
        square_shape(m, 2 * ow),
        lost_rows.len() == 2 * ow,
        count_marked(lost_rows) <= ow,
        forall|r: int, c: int|
            0 <= r < 2 * ow && 0 <= c < 2 * ow ==> #[trigger] m[r][c] == extension(codec, data, ow)->Ok_0[r][c] || (
            m[r][c].len() == 0 && lost_rows[r]),
    ensures
        extension(codec, data, ow) matches Ok(sq) && restores_to(
            m,
            square_row_roots(sq),
            square_col_roots(sq, 2 * ow),
            sq,
            cols_from(0, 2 * ow),
        ),
{
    law_leo_compute_coded(codec, data, ow);
    law_lost_rows_restore(extension(codec, data, ow)->Ok_0, m, lost_rows, ow);
}

/// The first `k` steps of an extension keep every share of `ss` bytes.
proof fn lemma_extension_run_sized<C: ErasureCodec>(
    codec: C,
    m0: Seq<Seq<Option<Seq<u8>>>>,
    ow: nat,
    ss: nat,
    k: nat,
)
    requires
        opt_square_shape(m0, 2 * ow),
        all_cells_present(m0),
        shares_sized(m0, ss),
    ensures
        extension_run(codec, m0, ow, ss, k) matches Ok(m) ==> shares_sized(m, ss),
    decreases k,
{
    if k > 0 {
        lemma_extension_run_sized(codec, m0, ow, ss, (k - 1) as nat);
        lemma_extension_run_keeps(codec, m0, ow, ss, (k - 1) as nat);
        if let Ok(m1) = extension_run(codec, m0, ow, ss, (k - 1) as nat) {
            if let Ok(m2) = extension_step(codec, m1, ow, ss, (k - 1) as nat) {
                assert forall|r: int, c: int| 0 <= r < m2.len() && 0 <= c < m2[r].len() implies (
                #[trigger] m2[r][c])->0.len() == ss by {
                    assert(m1[r][c] is Some);
                    assert(m1[r][c]->0.len() == ss);
                }
            }
        }
    }
}

/// Importing the flattening of a computed square gives it back: when the
/// extension of a complete square `o` of width `ow` > 0 with shares of `ss`
/// bytes succeeds, the flattening of the extended square holds a perfect
/// square of shares whose root is `2 * ow`, its first share has `ss` bytes,
/// every share has that size, and read row by row it is the extended square.
pub proof fn law_import_of_computed<C: ErasureCodec>(codec: C, o: Seq<Seq<Option<Seq<u8>>>>, ow: nat, ss: nat)
    requires
        opt_square_shape(o, ow),
        all_cells_present(o),
        shares_sized(o, ss),
        ow > 0,
        erasure_extension(codec, o, ow, ss) is Ok,
    ensures
        erasure_extension(codec, o, ow, ss) matches Ok(m) && {
            &&& m.flatten().len() == 2 * ow * (2 * ow)
            &&& is_perfect_square(m.flatten().len())
            &&& square_root(m.flatten().len()) == 2 * ow
            &&& first_present_size(m.flatten()) == ss
            &&& sizes_ok(m.flatten(), ss)
            &&& row_major(m.flatten(), 2 * ow) == m
        },
{
    let m0 = extended(o, ow, ow, Seq::new(ss, |i: int| 0u8));
    assert(opt_square_shape(m0, 2 * ow));
    assert(all_cells_present(m0));
    assert(shares_sized(m0, ss));
    lemma_extension_run_keeps(codec, m0, ow, ss, 3 * ow);
    lemma_extension_run_sized(codec, m0, ow, ss, 3 * ow);
    let m = erasure_extension(codec, o, ow, ss)->Ok_0;
    law_import_of_flatten(m, 2 * ow, ss);
}

/// When some attempt of the check before repair finds a wrong root, a first
/// one does.
proof fn lemma_first_sanity_failure(m: Seq<Seq<Option<Seq<u8>>>>, rr: Seq<Seq<u8>>, cr: Seq<Seq<u8>>, k: nat)
    requires
        k < 2 * m.len(),
        sanity_fails_at(m, rr, cr, k),
    ensures
        exists|k0: nat| is_first_sanity_failure(m, rr, cr, k0),
    decreases k,
{
    if exists|k2: nat| k2 < k && #[trigger] sanity_fails_at(m, rr, cr, k2) {
        let k2 = choose|k2: nat| k2 < k && #[trigger] sanity_fails_at(m, rr, cr, k2);
        lemma_first_sanity_failure(m, rr, cr, k2);
    } else {
        assert(is_first_sanity_failure(m, rr, cr, k));
    }
}

/// The check before repair catches every complete column whose root is not
/// the one given for it: whatever its index, some first attempt of the check
/// finds a wrong root.
pub proof fn law_sanity_catches_wrong_column(m: Seq<Seq<Option<Seq<u8>>>>, rr: Seq<Seq<u8>>, cr: Seq<Seq<u8>>, j: int)
    requires
        opt_square_shape(m, m.len()),
        0 <= j < m.len(),
        cr.len() == m.len(),
        all_present(opt_column(m, j)),
        axis_root(opt_column(m, j)) != cr[j],
    ensures
        exists|k: nat| is_first_sanity_failure(m, rr, cr, k),
{
    let k = (2 * j + 1) as nat;
    assert(k / 2 == j && k % 2 == 1);
    assert(sanity_fails_at(m, rr, cr, k));
    lemma_first_sanity_failure(m, rr, cr, k);
}

/// The check before repair catches every complete row whose root is not the
/// one given for it: whatever its index, some first attempt of the check
/// finds a wrong root.
pub proof fn law_sanity_catches_wrong_row(m: Seq<Seq<Option<Seq<u8>>>>, rr: Seq<Seq<u8>>, cr: Seq<Seq<u8>>, i: int)
    requires
        opt_square_shape(m, m.len()),
        0 <= i < m.len(),
        rr.len() == m.len(),
        all_present(m[i]),
        axis_root(m[i]) != rr[i],
    ensures
        exists|k: nat| is_first_sanity_failure(m, rr, cr, k),
{
    let k = (2 * i) as nat;
    assert(k / 2 == i && k % 2 == 0);
    assert(sanity_fails_at(m, rr, cr, k));
    lemma_first_sanity_failure(m, rr, cr, k);
}

/// An attempt that adds shares to a line has decoded that line into shares
/// whose merkle root is the root given for it (a row's row root, a column's
/// column root), and has written the decoded shares into its missing places,
/// keeping those present.
pub proof fn law_attempt_checks_root<C: ErasureCodec>(
    codec: C,
    m: Seq<Seq<Option<Seq<u8>>>>,
    ss: nat,
    rr: Seq<Seq<u8>>,
    cr: Seq<Seq<u8>>,
    k: nat,
)
    requires
        opt_square_shape(m, m.len()),
        k < 2 * m.len(),
    ensures
        attempt(codec, m, ss, rr, cr, k) matches Ok((m2, solved, progress)) ==> (progress ==> {
            let v = attempt_axis(m, k);
            let i = (k / 2) as int;
            &&& codec.spec_recover(v) is Ok
            &&& merkle_root(codec.spec_recover(v)->Ok_0) == if k % 2 == 0 {
                rr[i]
            } else {
                cr[i]
            }
            &&& attempt_axis(m2, k) == filled(v, codec.spec_recover(v)->Ok_0)
        }),
{
    let v = attempt_axis(m, k);
    let i = (k / 2) as int;
    if let Ok((m2, solved, progress)) = attempt(codec, m, ss, rr, cr, k) {
        if progress {
            let rec = codec.spec_recover(v)->Ok_0;
            let full = fill_outcome(v, rec, ss)->Ok_0;
            assert(full == filled(v, rec));
            if k % 2 == 1 {
                assert(m2 == with_column(m, i, full));
                assert(v.len() == m.len());
                assert(attempt_axis(m2, k) =~= full) by {
                    assert forall|r: int| 0 <= r < m.len() implies #[trigger] attempt_axis(m2, k)[r] == full[r] by {
                        assert(m[r].len() == m.len());
                    }
                }
            }
        }
    }
}

} // verus!
