//! Completing a square line by line: the rows and columns that can be
//! rebuilt one after another, each from at least half of its shares, and
//! what a square that takes such lines from a complete square ends up with.
use vstd::prelude::*;
use crate::crossword::{attempt_axis, keeps_present, with_column};
use crate::datasquare::{opt_column, opt_square_shape};
use crate::extendeddatasquare::all_cells_present;
use crate::shares::{all_present, count_present};

verus! {

/// `v` holds, wherever it has a share, the share of `a`.
pub open spec fn part_of(v: Seq<Option<Seq<u8>>>, a: Seq<Option<Seq<u8>>>) -> bool {
    &&& v.len() == a.len()
    &&& forall|c: int| 0 <= c < v.len() && (#[trigger] v[c]) is Some ==> v[c] == a[c]
}

/// The square `m` with line `k` (row `k / 2` when `k` is even, column `k / 2`
/// when it is odd) replaced by that line of `s`.
pub open spec fn complete_line(m: Seq<Seq<Option<Seq<u8>>>>, s: Seq<Seq<Option<Seq<u8>>>>, k: nat) -> Seq<
    Seq<Option<Seq<u8>>>,
> {
    let i = (k / 2) as int;
    if k % 2 == 0 {
        m.update(i, s[i])
    } else {
        with_column(m, i, opt_column(s, i))
    }
}

/// Completing the lines `ks` of `m` from `s`, one after another, each holding
/// at least half of its shares when its turn comes, fills the square.
pub open spec fn completion_fills(m: Seq<Seq<Option<Seq<u8>>>>, s: Seq<Seq<Option<Seq<u8>>>>, ks: Seq<nat>) -> bool
    decreases ks.len(),
{
    if ks.len() == 0 {
        all_cells_present(m)
    } else {
        &&& ks[0] < 2 * m.len()
        &&& count_present(attempt_axis(m, ks[0])) >= m.len() / 2
        &&& completion_fills(complete_line(m, s, ks[0]), s, ks.drop_first())
    }
}

/// Wherever a part of a line of both `f` and `s` holds at least half of the
/// line's shares, `f` holds that whole line of `s`.
pub open spec fn takes_lines_from(f: Seq<Seq<Option<Seq<u8>>>>, s: Seq<Seq<Option<Seq<u8>>>>) -> bool {
    forall|k: nat, v: Seq<Option<Seq<u8>>>|
        #![trigger part_of(v, attempt_axis(f, k)), part_of(v, attempt_axis(s, k))]
        k < 2 * f.len() && part_of(v, attempt_axis(f, k)) && part_of(v, attempt_axis(s, k)) && count_present(v)
            >= f.len() / 2 ==> part_of(attempt_axis(s, k), attempt_axis(f, k))
}

/// Every line of the square is complete or holds fewer than half of its
/// shares: none can be rebuilt.
pub open spec fn settled(f: Seq<Seq<Option<Seq<u8>>>>) -> bool {
    forall|k: nat|
        k < 2 * f.len() ==> all_present(#[trigger] attempt_axis(f, k)) || count_present(attempt_axis(f, k)) < f.len()
            / 2
}

/// A sequence that keeps every share of `v` has at least as many present.
pub proof fn lemma_count_present_grows(v: Seq<Option<Seq<u8>>>, v2: Seq<Option<Seq<u8>>>)
    requires
        v2.len() == v.len(),
        forall|c: int| 0 <= c < v.len() && (#[trigger] v[c]) is Some ==> v2[c] is Some,
    ensures
        count_present(v2) >= count_present(v),
    decreases v.len(),
{
    if v.len() > 0 {
        assert forall|c: int| 0 <= c < v.drop_last().len() && (#[trigger] v.drop_last()[c]) is Some implies v2.drop_last()[c] is Some by {
            assert(v[c] is Some);
        }
        lemma_count_present_grows(v.drop_last(), v2.drop_last());
    }
}

/// Line `k` of a square of width `w` has `w` shares, and a part of a square
/// gives parts of its lines.
pub proof fn lemma_line_part(m: Seq<Seq<Option<Seq<u8>>>>, f: Seq<Seq<Option<Seq<u8>>>>, k: nat)
    requires
        opt_square_shape(m, m.len()),
        opt_square_shape(f, m.len()),
        keeps_present(m, f),
        k < 2 * m.len(),
    ensures
        attempt_axis(m, k).len() == m.len(),
        attempt_axis(f, k).len() == m.len(),
        part_of(attempt_axis(m, k), attempt_axis(f, k)),
{
    let i = (k / 2) as int;
    if k % 2 == 1 {
        assert forall|c: int| 0 <= c < m.len() && (#[trigger] attempt_axis(m, k)[c]) is Some implies attempt_axis(
            m,
            k,
        )[c] == attempt_axis(f, k)[c] by {
            assert(m[c][i] is Some);
        }
    }
}

/// A settled square whose present shares are those of the complete square
/// `s` takes every line of `s` of which it holds at least half.
pub proof fn lemma_settled_takes_lines(f: Seq<Seq<Option<Seq<u8>>>>, s: Seq<Seq<Option<Seq<u8>>>>)
    requires
        opt_square_shape(s, s.len()),
        all_cells_present(s),
        opt_square_shape(f, s.len()),
        keeps_present(f, s),
        settled(f),
    ensures
        takes_lines_from(f, s),
{
    assert forall|k: nat, v: Seq<Option<Seq<u8>>>|
        #![trigger part_of(v, attempt_axis(f, k)), part_of(v, attempt_axis(s, k))]
        k < 2 * f.len() && part_of(v, attempt_axis(f, k)) && part_of(v, attempt_axis(s, k)) && count_present(v)
            >= f.len() / 2 implies part_of(attempt_axis(s, k), attempt_axis(f, k)) by {
        let i = (k / 2) as int;
        let fl = attempt_axis(f, k);
        let sl = attempt_axis(s, k);
        lemma_line_part(f, s, k);
        lemma_count_present_grows(v, fl);
        assert(all_present(fl));
        assert forall|c: int| 0 <= c < sl.len() && (#[trigger] sl[c]) is Some implies sl[c] == fl[c] by {
            assert(fl[c] is Some);
        }
    }
}

/// Completing the lines `ks` of `start` from the complete square `s` ends in
/// `s` within any square `f` that holds the shares of `start` and takes the
/// lines of `s` of which it holds half: every share of `s` is in `f`.
pub proof fn lemma_completion_covers(
    start: Seq<Seq<Option<Seq<u8>>>>,
    s: Seq<Seq<Option<Seq<u8>>>>,
    f: Seq<Seq<Option<Seq<u8>>>>,
    ks: Seq<nat>,
)
    requires
        opt_square_shape(s, s.len()),
        all_cells_present(s),
        opt_square_shape(f, s.len()),
        opt_square_shape(start, s.len()),
        keeps_present(start, s),
        keeps_present(start, f),
        completion_fills(start, s, ks),
        takes_lines_from(f, s),
    ensures
        keeps_present(s, f),
    decreases ks.len(),
{
    let w = s.len();
    if ks.len() == 0 {
        assert forall|r: int, c: int| 0 <= r < w && 0 <= c < s[r].len() && (#[trigger] s[r][c]) is Some implies f[r][c]
            == s[r][c] by {
            assert(start[r][c] is Some);
        }
    } else {
        let k = ks[0];
        let i = (k / 2) as int;
        let g = complete_line(start, s, k);
        let v = attempt_axis(start, k);
        lemma_line_part(start, f, k);
        lemma_line_part(start, s, k);
        assert(part_of(attempt_axis(s, k), attempt_axis(f, k)));
        if k % 2 == 0 {
            assert forall|r: int, c: int|
                0 <= r < w && 0 <= c < g[r].len() && (#[trigger] g[r][c]) is Some implies s[r][c] == g[r][c] && f[r][c]
                    == g[r][c] by {
                if r == i {
                    assert(attempt_axis(s, k)[c] is Some);
                }
            }
        } else {
            assert forall|r: int, c: int|
                0 <= r < w && 0 <= c < g[r].len() && (#[trigger] g[r][c]) is Some implies s[r][c] == g[r][c] && f[r][c]
                    == g[r][c] by {
                if c == i {
                    assert(attempt_axis(s, k)[r] == s[r][i]);
                    assert(attempt_axis(s, k)[r] is Some);
                } else {
                    assert(g[r][c] == start[r][c]);
                }
            }
        }
        lemma_completion_covers(g, s, f, ks.drop_first());
    }
}

} // verus!
