//! The crossword repair of a square from the merkle roots of its rows and
//! columns: passes over the rows and columns, each axis with enough shares
//! decoded, checked against its root and filled in, until the square is
//! complete or a pass adds nothing.
use vstd::prelude::*;
use crate::datasquare::{axis_root, opt_column, opt_square_shape, Axis, SquareError, SquareErrorKind};
use crate::erasure::ErasureCodec;
use crate::shares::{
    all_present, copy_opt_share, count_present, lemma_count_present_bound, opt_share_view, opt_shares_view,
    shares_view,
};
use crate::text::{bytes_text, decimal, joined, lemma_joined_step, list_text, push_bytes, push_decimal, push_text, text};
use crate::traits::Tree;
use crate::tree::{merkle_root, new_default_tree};

verus! {

broadcast use vstd::seq_lib::group_seq_properties;

/// The number of missing shares of an axis.
pub open spec fn missing_in(v: Seq<Option<Seq<u8>>>) -> nat {
    (v.len() - count_present(v)) as nat
}

/// The number of missing shares of a square.
pub open spec fn count_missing(m: Seq<Seq<Option<Seq<u8>>>>) -> nat
    decreases m.len(),
{
    if m.len() == 0 {
        0
    } else {
        count_missing(m.drop_last()) + missing_in(m.last())
    }
}

/// Every share present in `m` is still there, unchanged, in `m2`, which has
/// rows of the same lengths.
pub open spec fn keeps_present(m: Seq<Seq<Option<Seq<u8>>>>, m2: Seq<Seq<Option<Seq<u8>>>>) -> bool {
    &&& m2.len() == m.len()
    &&& forall|r: int| 0 <= r < m.len() ==> (#[trigger] m2[r]).len() == m[r].len()
    &&& forall|r: int, c: int|
        0 <= r < m.len() && 0 <= c < m[r].len() && (#[trigger] m[r][c]) is Some ==> m2[r][c] == m[r][c]
}

/// The present shares of an axis, in order.
pub open spec fn present_only(v: Seq<Option<Seq<u8>>>) -> Seq<Option<Seq<u8>>>
    decreases v.len(),
{
    if v.len() == 0 {
        Seq::empty()
    } else if v.last() is Some {
        present_only(v.drop_last()).push(v.last())
    } else {
        present_only(v.drop_last())
    }
}

/// An axis with its missing shares taken from `rec`.
pub open spec fn filled(v: Seq<Option<Seq<u8>>>, rec: Seq<Seq<u8>>) -> Seq<Option<Seq<u8>>> {
    Seq::new(v.len(), |c: int| if v[c] is Some { v[c] } else { Some(rec[c]) })
}

/// Position `c` is the first missing share of `v` whose replacement in `rec`
/// does not have `ss` bytes.
pub open spec fn is_first_bad_fill(v: Seq<Option<Seq<u8>>>, rec: Seq<Seq<u8>>, ss: nat, c: int) -> bool {
    &&& 0 <= c < v.len()
    &&& v[c] is None
    &&& rec[c].len() != ss
    &&& forall|c2: int| 0 <= c2 < c && (#[trigger] v[c2]) is None ==> rec[c2].len() == ss
}

/// Filling the missing shares of `v` from `rec` one after another: the full
/// axis, or the refusal of the first replacement of the wrong size.
pub open spec fn fill_outcome(v: Seq<Option<Seq<u8>>>, rec: Seq<Seq<u8>>, ss: nat) -> Result<
    Seq<Option<Seq<u8>>>,
    SquareErrorKind,
> {
    if exists|c: int| is_first_bad_fill(v, rec, ss, c) {
        let c = choose|c: int| is_first_bad_fill(v, rec, ss, c);
        Err(SquareErrorKind::CellChunkSizeMismatch { chunk_size: rec[c].len() as usize, expected_size: ss as usize })
    } else {
        Ok(filled(v, rec))
    }
}

/// The square with column `j` replaced by `col`.
pub open spec fn with_column(m: Seq<Seq<Option<Seq<u8>>>>, j: int, col: Seq<Option<Seq<u8>>>) -> Seq<
    Seq<Option<Seq<u8>>>,
> {
    Seq::new(m.len(), |r: int| m[r].update(j, col[r]))
}

/// An axis with its missing shares before position `k` taken from `rec`.
pub open spec fn filled_upto(v: Seq<Option<Seq<u8>>>, rec: Seq<Seq<u8>>, k: int) -> Seq<Option<Seq<u8>>> {
    Seq::new(v.len(), |c: int| if c < k && v[c] is None { Some(rec[c]) } else { v[c] })
}

/// Attempt `k` of the check before repair finds a complete axis whose root
/// differs from the one given for it.
pub open spec fn sanity_fails_at(m: Seq<Seq<Option<Seq<u8>>>>, rr: Seq<Seq<u8>>, cr: Seq<Seq<u8>>, k: nat) -> bool {
    let i = (k / 2) as int;
    &&& all_present(attempt_axis(m, k))
    &&& axis_root(attempt_axis(m, k)) != if k % 2 == 0 {
        rr[i]
    } else {
        cr[i]
    }
}

/// Attempt `k` is the first of the check before repair that finds a wrong root.
pub open spec fn is_first_sanity_failure(
    m: Seq<Seq<Option<Seq<u8>>>>,
    rr: Seq<Seq<u8>>,
    cr: Seq<Seq<u8>>,
    k: nat,
) -> bool {
    &&& k < 2 * m.len()
    &&& sanity_fails_at(m, rr, cr, k)
    &&& forall|k2: nat| k2 < k ==> !(#[trigger] sanity_fails_at(m, rr, cr, k2))
}

/// The message of the check before repair when attempt `k` finds a wrong root.
pub open spec fn sanity_message(k: nat) -> Seq<char> {
    if k % 2 == 0 {
        "Pre-repair sanity check failed: row "@ + decimal(k / 2) + " has incorrect root"@
    } else {
        "Pre-repair sanity check failed: column "@ + decimal(k / 2) + " has incorrect root"@
    }
}

/// How the repair of a square can fail.
pub enum CrosswordFailure {
    /// The codec or the square refused, with the kind of the error.
    Refused(SquareErrorKind),
    /// A decoded axis does not match its root: the axis, its index and its
    /// present shares.
    Byzantine(Axis, usize, Seq<Option<Seq<u8>>>),
}

/// The name of an axis, as `{:?}` shows it.
pub open spec fn axis_name(a: Axis) -> Seq<char> {
    match a {
        Axis::Row => "Row"@,
        Axis::Col => "Col"@,
    }
}

/// A share that may be missing, as `{:?}` shows it.
pub open spec fn opt_bytes_text(o: Option<Seq<u8>>) -> Seq<char> {
    match o {
        Some(b) => "Some("@ + bytes_text(b) + ")"@,
        None => "None"@,
    }
}

/// The shares that may be missing, as `{:?}` shows them.
pub open spec fn opt_shares_text(v: Seq<Option<Seq<u8>>>) -> Seq<char> {
    list_text(v.map_values(|o: Option<Seq<u8>>| opt_bytes_text(o)))
}

/// The description of the shares of an axis whose reconstruction does not
/// match its root.
pub open spec fn byzantine_text(axis: Axis, index: nat, shares: Seq<Option<Seq<u8>>>) -> Seq<char> {
    "ByzantineDataError { axis: "@ + axis_name(axis) + ", index: "@ + decimal(index) + ", shares: "@
        + opt_shares_text(shares) + " }"@
}

/// The message of the error for an axis whose reconstruction does not match
/// its root.
pub open spec fn byzantine_message(axis: Axis, index: nat, shares: Seq<Option<Seq<u8>>>) -> Seq<char> {
    (if axis == Axis::Row {
        "Byzantine data in row "@
    } else {
        "Byzantine data in column "@
    }) + decimal(index) + ": "@ + byzantine_text(axis, index, shares)
}

/// The error `e` is the one that reports the failure `f`.
pub open spec fn reports(e: SquareError, f: CrosswordFailure) -> bool {
    match f {
        CrosswordFailure::Refused(k) => e.kind() == k,
        CrosswordFailure::Byzantine(axis, index, shares) => e matches SquareError::ReedSolomonError(msg)
            && msg@ == byzantine_message(axis, index as nat, shares),
    }
}

/// The axis that attempt `k` of a pass works on: row `k / 2` when `k` is
/// even, column `k / 2` when it is odd.
pub open spec fn attempt_axis(m: Seq<Seq<Option<Seq<u8>>>>, k: nat) -> Seq<Option<Seq<u8>>> {
    if k % 2 == 0 {
        m[(k / 2) as int]
    } else {
        opt_column(m, (k / 2) as int)
    }
}

/// Attempt `k` of a pass over `m`, with row roots `rr` and column roots `cr`:
/// a complete axis is solved as it is; one with fewer than half of its shares
/// present is left unsolved; otherwise the axis is decoded, checked against
/// its root and its missing shares filled in. The result is the square after
/// it, whether the axis is solved and whether shares were added.
pub open spec fn attempt<C: ErasureCodec>(
    codec: C,
    m: Seq<Seq<Option<Seq<u8>>>>,
    ss: nat,
    rr: Seq<Seq<u8>>,
    cr: Seq<Seq<u8>>,
    k: nat,
) -> Result<(Seq<Seq<Option<Seq<u8>>>>, bool, bool), CrosswordFailure> {
    let i = (k / 2) as int;
    let on_row = k % 2 == 0;
    let v = attempt_axis(m, k);
    if all_present(v) {
        Ok((m, true, false))
    } else if count_present(v) < v.len() / 2 {
        Ok((m, false, false))
    } else {
        match codec.spec_recover(v) {
            Err(e) => Err(CrosswordFailure::Refused(e)),
            Ok(rec) => if merkle_root(rec) != (if on_row {
                rr[i]
            } else {
                cr[i]
            }) {
                Err(
                    CrosswordFailure::Byzantine(
                        if on_row {
                            Axis::Row
                        } else {
                            Axis::Col
                        },
                        i as usize,
                        present_only(v),
                    ),
                )
            } else {
                match fill_outcome(v, rec, ss) {
                    Err(e) => Err(CrosswordFailure::Refused(e)),
                    Ok(full) => Ok(
                        (
                            if on_row {
                                m.update(i, full)
                            } else {
                                with_column(m, i, full)
                            },
                            true,
                            true,
                        ),
                    ),
                }
            },
        }
    }
}

/// The first `k` attempts of a pass: row 0, column 0, row 1, column 1, ...
/// The result is the square after them, whether every axis attempted is
/// solved and whether any shares were added.
pub open spec fn pass_run<C: ErasureCodec>(
    codec: C,
    m: Seq<Seq<Option<Seq<u8>>>>,
    ss: nat,
    rr: Seq<Seq<u8>>,
    cr: Seq<Seq<u8>>,
    k: nat,
) -> Result<(Seq<Seq<Option<Seq<u8>>>>, bool, bool), CrosswordFailure>
    decreases k,
{
    if k == 0 {
        Ok((m, true, false))
    } else {
        match pass_run(codec, m, ss, rr, cr, (k - 1) as nat) {
            Err(f) => Err(f),
            Ok((m1, s1, p1)) => match attempt(codec, m1, ss, rr, cr, (k - 1) as nat) {
                Err(f) => Err(f),
                Ok((m2, s2, p2)) => Ok((m2, s1 && s2, p1 || p2)),
            },
        }
    }
}

/// The repair of the square `m` with row roots `rr` and column roots `cr`:
/// passes over all rows and columns until one solves them all, or fails, or
/// adds no share.
pub open spec fn crossword<C: ErasureCodec>(
    codec: C,
    m: Seq<Seq<Option<Seq<u8>>>>,
    ss: nat,
    rr: Seq<Seq<u8>>,
    cr: Seq<Seq<u8>>,
) -> Result<Seq<Seq<Option<Seq<u8>>>>, CrosswordFailure>
    decreases count_missing(m),
    when opt_square_shape(m, m.len())
{
    match pass_run(codec, m, ss, rr, cr, 2 * m.len()) {
        Err(f) => Err(f),
        Ok((m1, solved, progress)) => if solved {
            Ok(m1)
        } else if !progress {
            Err(CrosswordFailure::Refused(SquareErrorKind::UnrepairableDataSquare))
        } else {
            proof {
                lemma_pass_run(codec, m, ss, rr, cr, 2 * m.len());
            }
            crossword(codec, m1, ss, rr, cr)
        },
    }
}

/// The square after the first `k` attempts of a pass over `m`, or, when one
/// of them fails, the square as the failing attempt found it: a failing
/// attempt changes nothing.
pub open spec fn pass_stop<C: ErasureCodec>(
    codec: C,
    m: Seq<Seq<Option<Seq<u8>>>>,
    ss: nat,
    rr: Seq<Seq<u8>>,
    cr: Seq<Seq<u8>>,
    k: nat,
) -> Seq<Seq<Option<Seq<u8>>>>
    decreases k,
{
    if k == 0 {
        m
    } else {
        let m1 = pass_stop(codec, m, ss, rr, cr, (k - 1) as nat);
        match pass_run(codec, m, ss, rr, cr, (k - 1) as nat) {
            Err(_) => m1,
            Ok(_) => match attempt(codec, m1, ss, rr, cr, (k - 1) as nat) {
                Err(_) => m1,
                Ok((m2, s2, p2)) => m2,
            },
        }
    }
}

/// The square at which the repair of `m` stops, whether it succeeds or fails.
pub open spec fn crossword_stop<C: ErasureCodec>(
    codec: C,
    m: Seq<Seq<Option<Seq<u8>>>>,
    ss: nat,
    rr: Seq<Seq<u8>>,
    cr: Seq<Seq<u8>>,
) -> Seq<Seq<Option<Seq<u8>>>>
    decreases count_missing(m),
    when opt_square_shape(m, m.len())
{
    match pass_run(codec, m, ss, rr, cr, 2 * m.len()) {
        Err(_) => pass_stop(codec, m, ss, rr, cr, 2 * m.len()),
        Ok((m1, solved, progress)) => if solved || !progress {
            m1
        } else {
            proof {
                lemma_pass_run(codec, m, ss, rr, cr, 2 * m.len());
            }
            crossword_stop(codec, m1, ss, rr, cr)
        },
    }
}

/// While a pass succeeds, the square it stops at is the square it gives.
pub proof fn lemma_pass_stop_ok<C: ErasureCodec>(
    codec: C,
    m: Seq<Seq<Option<Seq<u8>>>>,
    ss: nat,
    rr: Seq<Seq<u8>>,
    cr: Seq<Seq<u8>>,
    k: nat,
)
    ensures
        pass_run(codec, m, ss, rr, cr, k) matches Ok((m1, s, p)) ==> pass_stop(codec, m, ss, rr, cr, k) == m1,
    decreases k,
{
    if k > 0 {
        lemma_pass_stop_ok(codec, m, ss, rr, cr, (k - 1) as nat);
    }
}

/// Once a pass fails, the square it stops at stays the same after more attempts.
pub proof fn lemma_pass_stop_persists<C: ErasureCodec>(
    codec: C,
    m: Seq<Seq<Option<Seq<u8>>>>,
    ss: nat,
    rr: Seq<Seq<u8>>,
    cr: Seq<Seq<u8>>,
    k1: nat,
    k2: nat,
)
    requires
        k1 <= k2,
        pass_run(codec, m, ss, rr, cr, k1) is Err,
    ensures
        pass_stop(codec, m, ss, rr, cr, k2) == pass_stop(codec, m, ss, rr, cr, k1),
    decreases k2,
{
    if k2 > k1 {
        lemma_pass_stop_persists(codec, m, ss, rr, cr, k1, (k2 - 1) as nat);
        lemma_pass_err_persists(codec, m, ss, rr, cr, k1, (k2 - 1) as nat);
    }
}

/// Filling a missing share of a square leaves it missing one share fewer.
pub proof fn lemma_fill_decreases(m: Seq<Seq<Option<Seq<u8>>>>, r: int, c: int, x: Seq<u8>)
    requires
        0 <= r < m.len(),
        0 <= c < m[r].len(),
        m[r][c] is None,
    ensures
        count_missing(m.update(r, m[r].update(c, Some(x)))) < count_missing(m),
{
    let m2 = m.update(r, m[r].update(c, Some(x)));
    lemma_count_present_update(m[r], c, x);
    lemma_count_present_bound(m2[r]);
    assert(missing_in(m2[r]) < missing_in(m[r]));
    lemma_count_missing_le(m, m2);
}

/// Filling a share counts one more present share when it was missing.
pub proof fn lemma_count_present_update(v: Seq<Option<Seq<u8>>>, j: int, x: Seq<u8>)
    requires
        0 <= j < v.len(),
    ensures
        count_present(v.update(j, Some(x))) == count_present(v) + if v[j] is None { 1nat } else { 0nat },
    decreases v.len(),
{
    let u = v.update(j, Some(x));
    if j == v.len() - 1 {
        assert(u.drop_last() =~= v.drop_last());
    } else {
        assert(u.drop_last() =~= v.drop_last().update(j, Some(x)));
        lemma_count_present_update(v.drop_last(), j, x);
    }
}

/// An axis with a missing share has fewer present shares than shares.
pub proof fn lemma_count_present_incomplete(v: Seq<Option<Seq<u8>>>)
    requires
        !all_present(v),
    ensures
        count_present(v) < v.len(),
    decreases v.len(),
{
    lemma_count_present_bound(v.drop_last());
    if v.last() is Some {
        let i = choose|i: int| 0 <= i < v.len() && !(#[trigger] v[i] is Some);
        assert(v.drop_last()[i] == v[i]);
        assert(!all_present(v.drop_last()));
        lemma_count_present_incomplete(v.drop_last());
    }
}

/// A complete axis has no missing share.
pub proof fn lemma_count_present_complete(v: Seq<Option<Seq<u8>>>)
    requires
        all_present(v),
    ensures
        count_present(v) == v.len(),
{
    crate::shares::lemma_count_present_all(v);
}

/// A square whose rows each miss no more shares than those of `m` misses no
/// more shares than `m`, and fewer when one of its rows misses fewer.
pub proof fn lemma_count_missing_le(m: Seq<Seq<Option<Seq<u8>>>>, m2: Seq<Seq<Option<Seq<u8>>>>)
    requires
        m2.len() == m.len(),
        forall|r: int| 0 <= r < m.len() ==> missing_in(#[trigger] m2[r]) <= missing_in(m[r]),
    ensures
        count_missing(m2) <= count_missing(m),
        (exists|r: int| 0 <= r < m.len() && missing_in(#[trigger] m2[r]) < missing_in(m[r])) ==> count_missing(m2)
            < count_missing(m),
    decreases m.len(),
{
    if m.len() > 0 {
        let n = m.len() - 1;
        assert forall|r: int| 0 <= r < n implies missing_in(#[trigger] m2.drop_last()[r]) <= missing_in(
            m.drop_last()[r],
        ) by {
            assert(m2.drop_last()[r] == m2[r]);
        }
        lemma_count_missing_le(m.drop_last(), m2.drop_last());
        assert(missing_in(m2[n]) <= missing_in(m[n]));
        if exists|r: int| 0 <= r < m.len() && missing_in(#[trigger] m2[r]) < missing_in(m[r]) {
            let r = choose|r: int| 0 <= r < m.len() && missing_in(#[trigger] m2[r]) < missing_in(m[r]);
            if r < n {
                assert(m2.drop_last()[r] == m2[r]);
                assert(missing_in(m2.drop_last()[r]) < missing_in(m.drop_last()[r]));
            }
        }
    }
}

/// Filling a share of an axis leaves it missing no more shares, and one fewer
/// when the share was missing.
proof fn lemma_missing_update(v: Seq<Option<Seq<u8>>>, j: int, x: Seq<u8>)
    requires
        0 <= j < v.len(),
    ensures
        missing_in(v.update(j, Some(x))) <= missing_in(v),
        v[j] is None ==> missing_in(v.update(j, Some(x))) < missing_in(v),
{
    lemma_count_present_update(v, j, x);
    lemma_count_present_bound(v.update(j, Some(x)));
}

/// What one attempt does to a square: it keeps its shape and its present
/// shares, misses no more shares, misses fewer when it adds some, and leaves
/// the attempted axis complete when it is solved.
pub proof fn lemma_attempt<C: ErasureCodec>(
    codec: C,
    m: Seq<Seq<Option<Seq<u8>>>>,
    ss: nat,
    rr: Seq<Seq<u8>>,
    cr: Seq<Seq<u8>>,
    k: nat,
)
    requires
        opt_square_shape(m, m.len()),
        k < 2 * m.len(),
    ensures
        attempt(codec, m, ss, rr, cr, k) matches Ok((m2, s, p)) ==> {
            &&& opt_square_shape(m2, m.len())
            &&& keeps_present(m, m2)
            &&& count_missing(m2) <= count_missing(m)
            &&& p ==> count_missing(m2) < count_missing(m)
            &&& s ==> all_present(attempt_axis(m2, k))
        },
{
    let i = (k / 2) as int;
    let v = attempt_axis(m, k);
    assert(0 <= i < m.len());
    if let Ok((m2, s, p)) = attempt(codec, m, ss, rr, cr, k) {
        if !all_present(v) && count_present(v) >= v.len() / 2 {
            let rec = codec.spec_recover(v)->Ok_0;
            let full = filled(v, rec);
            assert(full == fill_outcome(v, rec, ss)->Ok_0);
            assert(all_present(full));
            lemma_count_present_incomplete(v);
            lemma_count_present_complete(full);
            if k % 2 == 0 {
                assert(m2 == m.update(i, full));
                assert forall|r: int| 0 <= r < m.len() implies missing_in(#[trigger] m2[r]) <= missing_in(m[r]) by {}
                assert(missing_in(m2[i]) < missing_in(m[i]));
                lemma_count_missing_le(m, m2);
                assert(attempt_axis(m2, k) == full);
            } else {
                assert(m2 == with_column(m, i, full));
                assert forall|r: int| 0 <= r < m.len() implies missing_in(#[trigger] m2[r]) <= missing_in(m[r])
                    && (m[r][i] is None ==> missing_in(m2[r]) < missing_in(m[r])) by {
                    if m[r][i] is Some {
                        assert(m2[r] =~= m[r]);
                    } else {
                        lemma_missing_update(m[r], i, rec[r]);
                    }
                }
                let r0 = choose|r0: int| 0 <= r0 < v.len() && !(#[trigger] v[r0] is Some);
                assert(missing_in(m2[r0]) < missing_in(m[r0]));
                lemma_count_missing_le(m, m2);
                assert(attempt_axis(m2, k) =~= full);
            }
        } else {
            lemma_count_missing_le(m, m2);
        }
    }
}

/// What the first `k` attempts of a pass do to a square: they keep its shape
/// and its present shares, miss no more shares, miss fewer when they add
/// some, and leave each axis attempted complete when all are solved.
pub proof fn lemma_pass_run<C: ErasureCodec>(
    codec: C,
    m: Seq<Seq<Option<Seq<u8>>>>,
    ss: nat,
    rr: Seq<Seq<u8>>,
    cr: Seq<Seq<u8>>,
    k: nat,
)
    requires
        opt_square_shape(m, m.len()),
        k <= 2 * m.len(),
    ensures
        pass_run(codec, m, ss, rr, cr, k) matches Ok((m1, s, p)) ==> {
            &&& opt_square_shape(m1, m.len())
            &&& keeps_present(m, m1)
            &&& count_missing(m1) <= count_missing(m)
            &&& p ==> count_missing(m1) < count_missing(m)
            &&& s ==> forall|k2: nat| k2 < k ==> all_present(#[trigger] attempt_axis(m1, k2))
        },
    decreases k,
{
    if k > 0 {
        lemma_pass_run(codec, m, ss, rr, cr, (k - 1) as nat);
        if let Ok((m1, s1, p1)) = pass_run(codec, m, ss, rr, cr, (k - 1) as nat) {
            lemma_attempt(codec, m1, ss, rr, cr, (k - 1) as nat);
            if let Ok((m2, s2, p2)) = attempt(codec, m1, ss, rr, cr, (k - 1) as nat) {
                if s1 && s2 {
                    assert forall|k2: nat| k2 < k implies all_present(#[trigger] attempt_axis(m2, k2)) by {
                        if k2 < k - 1 {
                            let i2 = (k2 / 2) as int;
                            assert(all_present(attempt_axis(m1, k2)));
                            assert forall|c: int| 0 <= c < attempt_axis(m2, k2).len() implies (#[trigger] attempt_axis(
                                m2,
                                k2,
                            )[c]) is Some by {
                                if k2 % 2 == 0 {
                                    assert(m1[i2][c] is Some);
                                } else {
                                    assert(opt_column(m1, i2)[c] is Some);
                                    assert(m1[c][i2] is Some);
                                }
                            }
                        }
                    }
                }
            }
        }
    }
}

/// Once a pass fails, it fails with the same failure after more attempts.
pub proof fn lemma_pass_err_persists<C: ErasureCodec>(
    codec: C,
    m: Seq<Seq<Option<Seq<u8>>>>,
    ss: nat,
    rr: Seq<Seq<u8>>,
    cr: Seq<Seq<u8>>,
    k1: nat,
    k2: nat,
)
    requires
        k1 <= k2,
        pass_run(codec, m, ss, rr, cr, k1) is Err,
    ensures
        pass_run(codec, m, ss, rr, cr, k2) == pass_run(codec, m, ss, rr, cr, k1),
    decreases k2,
{
    if k2 > k1 {
        lemma_pass_err_persists(codec, m, ss, rr, cr, k1, (k2 - 1) as nat);
    }
}

/// Keeping the present shares is transitive.
pub proof fn lemma_keeps_present_trans(
    a: Seq<Seq<Option<Seq<u8>>>>,
    b: Seq<Seq<Option<Seq<u8>>>>,
    c: Seq<Seq<Option<Seq<u8>>>>,
)
    requires
        keeps_present(a, b),
        keeps_present(b, c),
    ensures
        keeps_present(a, c),
{
    assert forall|r: int, j: int|
        0 <= r < a.len() && 0 <= j < a[r].len() && (#[trigger] a[r][j]) is Some implies c[r][j] == a[r][j] by {
        assert(b[r][j] == a[r][j]);
    }
}

/// The shares of an axis whose reconstruction does not match its root.
#[derive(Debug)]
pub struct ByzantineDataError {
    pub axis: Axis,
    pub index: usize,
    pub shares: Vec<Option<Vec<u8>>>,
}

/// Appends a share that may be missing, as `{:?}` shows it.
fn push_opt_bytes(s: &mut String, o: &Option<Vec<u8>>)
    ensures
        final(s)@ == old(s)@ + opt_bytes_text(opt_share_view(*o)),
{
    match o {
        Some(b) => {
            push_text(s, "Some(");
            push_bytes(s, b.as_slice());
            push_text(s, ")");
        },
        None => push_text(s, "None"),
    }
}

/// Appends shares that may be missing, as `{:?}` shows them.
fn push_opt_shares(s: &mut String, v: &Vec<Option<Vec<u8>>>)
    ensures
        final(s)@ == old(s)@ + opt_shares_text(opt_shares_view(v@)),
{
    let ghost items = opt_shares_view(v@).map_values(|o: Option<Seq<u8>>| opt_bytes_text(o));
    push_text(s, "[");
    let mut i: usize = 0;
    while i < v.len()
        invariant
            i <= v.len(),
            items == opt_shares_view(v@).map_values(|o: Option<Seq<u8>>| opt_bytes_text(o)),
            s@ == old(s)@ + "["@ + joined(items.take(i as int)),
        decreases v.len() - i,
    {
        proof {
            lemma_joined_step(items, i as int);
        }
        if i > 0 {
            push_text(s, ", ");
        }
        push_opt_bytes(s, &v[i]);
        i += 1;
    }
    assert(items.take(v.len() as int) =~= items);
    push_text(s, "]");
}

impl ByzantineDataError {
    /// The description of the error, as `{:?}` shows it.
    pub fn describe(&self) -> (s: String)
        ensures
            s@ == byzantine_text(self.axis, self.index as nat, opt_shares_view(self.shares@)),
    {
        let mut s = text("ByzantineDataError { axis: ");
        match self.axis {
            Axis::Row => push_text(&mut s, "Row"),
            Axis::Col => push_text(&mut s, "Col"),
        }
        push_text(&mut s, ", index: ");
        push_decimal(&mut s, self.index);
        push_text(&mut s, ", shares: ");
        push_opt_shares(&mut s, &self.shares);
        push_text(&mut s, " }");
        s
    }
}

/// The present shares of an axis, copied in order.
pub fn present_shares(v: &Vec<Option<Vec<u8>>>) -> (r: Vec<Option<Vec<u8>>>)
    ensures
        opt_shares_view(r@) == present_only(opt_shares_view(v@)),
{
    let ghost view = opt_shares_view(v@);
    let mut r: Vec<Option<Vec<u8>>> = Vec::new();
    let mut i: usize = 0;
    while i < v.len()
        invariant
            i <= v.len(),
            view == opt_shares_view(v@),
            opt_shares_view(r@) == present_only(view.take(i as int)),
        decreases v.len() - i,
    {
        assert(view.take(i + 1).drop_last() =~= view.take(i as int));
        if v[i].is_some() {
            let ghost before = opt_shares_view(r@);
            r.push(copy_opt_share(&v[i]));
            assert(opt_shares_view(r@) =~= before.push(view[i as int]));
        }
        i += 1;
    }
    assert(view.take(v.len() as int) =~= view);
    r
}

/// The error reporting that the reconstruction of an axis does not match its
/// root.
pub fn byzantine_error(axis: Axis, index: usize, v: &Vec<Option<Vec<u8>>>) -> (e: SquareError)
    ensures
        reports(e, CrosswordFailure::Byzantine(axis, index, present_only(opt_shares_view(v@)))),
{
    let err = ByzantineDataError { axis, index, shares: present_shares(v) };
    let mut m = match axis {
        Axis::Row => text("Byzantine data in row "),
        Axis::Col => text("Byzantine data in column "),
    };
    push_decimal(&mut m, index);
    push_text(&mut m, ": ");
    let described = err.describe();
    push_text(&mut m, described.as_str());
    SquareError::ReedSolomonError(m)
}

/// The merkle root of a sequence of shares, by the default tree.
pub fn root_of_shares(shares: &Vec<Vec<u8>>) -> (r: Vec<u8>)
    ensures
        r@ == merkle_root(shares_view(shares@)),
{
    let mut tree = new_default_tree();
    let ghost v = shares_view(shares@);
    let mut k: usize = 0;
    while k < shares.len()
        invariant
            k <= shares.len(),
            v == shares_view(shares@),
            tree.leaves() == v.take(k as int),
        decreases shares.len() - k,
    {
        tree.push(shares[k].as_slice());
        assert(v.take(k + 1) =~= v.take(k as int).push(shares@[k as int]@));
        k += 1;
    }
    assert(v.take(shares.len() as int) =~= v);
    tree.root()
}

} // verus!
