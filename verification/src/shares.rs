//! Abstract views of shares and byte-vector helpers shared by the modules.
use vstd::prelude::*;

verus! {

/// The bytes of every share of a sequence of shares.
pub open spec fn shares_view(v: Seq<Vec<u8>>) -> Seq<Seq<u8>> {
    v.map_values(|x: Vec<u8>| x@)
}

/// The bytes of a share that may be missing.
pub open spec fn opt_share_view(o: Option<Vec<u8>>) -> Option<Seq<u8>> {
    match o {
        Some(x) => Some(x@),
        None => None,
    }
}

/// The bytes of every share of a sequence of shares that may be missing.
pub open spec fn opt_shares_view(v: Seq<Option<Vec<u8>>>) -> Seq<Option<Seq<u8>>> {
    v.map_values(|o: Option<Vec<u8>>| opt_share_view(o))
}

/// Every share of the sequence is present.
pub open spec fn all_present(v: Seq<Option<Seq<u8>>>) -> bool {
    forall|i: int| 0 <= i < v.len() ==> (#[trigger] v[i]) is Some
}

/// The shares of a sequence whose shares are all present.
pub open spec fn unwrap_all(v: Seq<Option<Seq<u8>>>) -> Seq<Seq<u8>> {
    v.map_values(|o: Option<Seq<u8>>| o->0)
}

/// The number of shares of the sequence that are present.
pub open spec fn count_present(v: Seq<Option<Seq<u8>>>) -> nat
    decreases v.len(),
{
    if v.len() == 0 {
        0
    } else {
        count_present(v.drop_last()) + if v.last() is Some { 1nat } else { 0nat }
    }
}

/// A byte-for-byte copy of a share.
pub fn copy_share(s: &Vec<u8>) -> (r: Vec<u8>)
    ensures
        r@ == s@,
{
    let mut r: Vec<u8> = Vec::with_capacity(s.len());
    let mut i: usize = 0;
    while i < s.len()
        invariant
            i <= s.len(),
            r@ == s@.subrange(0, i as int),
        decreases s.len() - i,
    {
        r.push(s[i]);
        i += 1;
    }
    assert(r@ =~= s@);
    r
}

/// A copy of a share that may be missing.
pub fn copy_opt_share(o: &Option<Vec<u8>>) -> (r: Option<Vec<u8>>)
    ensures
        opt_share_view(r) == opt_share_view(*o),
{
    match o {
        Some(s) => Some(copy_share(s)),
        None => None,
    }
}

/// A copy of a sequence of shares.
pub fn copy_shares(v: &Vec<Vec<u8>>) -> (r: Vec<Vec<u8>>)
    ensures
        shares_view(r@) == shares_view(v@),
{
    let mut r: Vec<Vec<u8>> = Vec::with_capacity(v.len());
    let mut i: usize = 0;
    while i < v.len()
        invariant
            i <= v.len(),
            r.len() == i,
            forall|j: int| 0 <= j < i ==> (#[trigger] r@[j])@ == v@[j]@,
        decreases v.len() - i,
    {
        r.push(copy_share(&v[i]));
        i += 1;
    }
    assert(shares_view(r@) =~= shares_view(v@));
    r
}

/// A copy of a sequence of shares that may be missing.
pub fn copy_opt_shares(v: &Vec<Option<Vec<u8>>>) -> (r: Vec<Option<Vec<u8>>>)
    ensures
        opt_shares_view(r@) == opt_shares_view(v@),
{
    let mut r: Vec<Option<Vec<u8>>> = Vec::with_capacity(v.len());
    let mut i: usize = 0;
    while i < v.len()
        invariant
            i <= v.len(),
            r.len() == i,
            forall|j: int| 0 <= j < i ==> opt_share_view(#[trigger] r@[j]) == opt_share_view(v@[j]),
        decreases v.len() - i,
    {
        r.push(copy_opt_share(&v[i]));
        i += 1;
    }
    assert(opt_shares_view(r@) =~= opt_shares_view(v@));
    r
}

/// Whether two shares hold the same bytes.
pub fn share_eq(a: &Vec<u8>, b: &Vec<u8>) -> (r: bool)
    ensures
        r == (a@ == b@),
{
    if a.len() != b.len() {
        return false;
    }
    let mut i: usize = 0;
    while i < a.len()
        invariant
            i <= a.len(),
            a.len() == b.len(),
            a@.subrange(0, i as int) == b@.subrange(0, i as int),
        decreases a.len() - i,
    {
        if a[i] != b[i] {
            assert(a@[i as int] != b@[i as int]);
            return false;
        }
        assert(a@.subrange(0, i + 1) =~= a@.subrange(0, i as int).push(a@[i as int]));
        assert(b@.subrange(0, i + 1) =~= b@.subrange(0, i as int).push(b@[i as int]));
        i += 1;
    }
    assert(a@ =~= a@.subrange(0, a.len() as int));
    assert(b@ =~= b@.subrange(0, b.len() as int));
    true
}

/// Whether every share of the slice is present.
pub fn is_complete(shares: &[Option<Vec<u8>>]) -> (r: bool)
    ensures
        r == all_present(opt_shares_view(shares@)),
{
    let mut i: usize = 0;
    while i < shares.len()
        invariant
            i <= shares.len(),
            forall|j: int| 0 <= j < i ==> (#[trigger] shares@[j]) is Some,
        decreases shares.len() - i,
    {
        if shares[i].is_none() {
            assert(opt_shares_view(shares@)[i as int] is None);
            return false;
        }
        i += 1;
    }
    true
}

} // verus!

verus! {

/// Counting the present shards of a prefix one share further.
pub proof fn lemma_count_present_step(v: Seq<Option<Seq<u8>>>, i: int)
    requires
        0 <= i < v.len(),
    ensures
        count_present(v.take(i + 1)) == count_present(v.take(i)) + if v[i] is Some { 1nat } else { 0nat },
{
    assert(v.take(i + 1).drop_last() =~= v.take(i));
}

/// The number of present shards of a sequence is at most its length.
pub proof fn lemma_count_present_bound(v: Seq<Option<Seq<u8>>>)
    ensures
        count_present(v) <= v.len(),
    decreases v.len(),
{
    if v.len() > 0 {
        lemma_count_present_bound(v.drop_last());
    }
}

/// The present shards of a sequence in which every share is present.
pub proof fn lemma_count_present_all(v: Seq<Option<Seq<u8>>>)
    requires
        all_present(v),
    ensures
        count_present(v) == v.len(),
    decreases v.len(),
{
    if v.len() > 0 {
        assert(all_present(v.drop_last()));
        lemma_count_present_all(v.drop_last());
    }
}

/// The number of present shards of a slice.
pub fn count_present_exec(shares: &[Option<Vec<u8>>]) -> (n: usize)
    ensures
        n as nat == count_present(opt_shares_view(shares@)),
{
    let ghost v = opt_shares_view(shares@);
    let mut n: usize = 0;
    let mut i: usize = 0;
    while i < shares.len()
        invariant
            i <= shares.len(),
            v == opt_shares_view(shares@),
            n as nat == count_present(v.take(i as int)),
            n <= i,
        decreases shares.len() - i,
    {
        proof {
            lemma_count_present_step(v, i as int);
        }
        if shares[i].is_some() {
            n += 1;
        }
        i += 1;
    }
    assert(v.take(shares.len() as int) =~= v);
    n
}

/// A share of `n` zero bytes.
pub fn zeros(n: usize) -> (r: Vec<u8>)
    ensures
        r@ == Seq::new(n as nat, |i: int| 0u8),
{
    let mut r: Vec<u8> = Vec::with_capacity(n);
    let mut i: usize = 0;
    while i < n
        invariant
            i <= n,
            r@ == Seq::new(i as nat, |j: int| 0u8),
        decreases n - i,
    {
        r.push(0u8);
        i += 1;
        assert(r@ =~= Seq::new(i as nat, |j: int| 0u8));
    }
    r
}

} // verus!

verus! {

/// The square of a number.
pub open spec fn sq(w: nat) -> nat {
    w * w
}

/// `n` is the square of some number.
pub open spec fn is_perfect_square(n: nat) -> bool {
    exists|w: nat| #[trigger] sq(w) == n
}

/// The square root of a perfect square.
pub open spec fn square_root(n: nat) -> nat {
    choose|w: nat| #[trigger] sq(w) == n
}

/// `w` is the integer square root of `n`, rounded down.
pub open spec fn is_floor_sqrt(w: nat, n: nat) -> bool {
    w * w <= n < (w + 1) * (w + 1)
}

/// Squares grow with their roots.
proof fn lemma_square_monotone(a: nat, b: nat)
    by (nonlinear_arith)
    requires
        a <= b,
    ensures
        a * a <= b * b,
{
}

/// Among naturals, only the floor square root of a perfect square squares to it.
pub proof fn lemma_floor_sqrt_exact(w: nat, n: nat, x: nat)
    requires
        is_floor_sqrt(w, n),
        x * x == n,
    ensures
        x == w,
{
    if x < w {
        lemma_square_monotone(x + 1, w);
        assert((x + 1) * (x + 1) > x * x) by (nonlinear_arith);
    } else if x > w {
        lemma_square_monotone(w + 1, x);
    }
}

/// The integer square root of `n`, rounded down.
pub fn floor_sqrt(n: usize) -> (w: usize)
    ensures
        is_floor_sqrt(w as nat, n as nat),
{
    let mut w: u64 = 0;
    loop
        invariant
            w as nat * w as nat <= n as nat,
            w <= 0x1_0000_0000,
            w as nat <= n as nat,
        ensures
            is_floor_sqrt(w as nat, n as nat),
        decreases n as nat - w as nat,
    {
        let wp: u128 = (w as u128) + 1;
        proof {
            lemma_square_monotone(wp as nat, 0x1_0000_0001);
        }
        if wp * wp > n as u128 {
            break;
        }
        proof {
            if w >= 0x1_0000_0000 {
                lemma_square_monotone(0x1_0000_0000, wp as nat);
                assert(usize::MAX < 0x1_0000_0000 * 0x1_0000_0000);
            }
            assert(wp as nat <= wp as nat * wp as nat) by (nonlinear_arith);
        }
        w = w + 1;
    }
    w as usize
}

/// The square root of `n`, when `n` is a perfect square.
pub fn exact_sqrt(n: usize) -> (r: Option<usize>)
    ensures
        r is Some <==> is_perfect_square(n as nat),
        r matches Some(w) ==> w as nat == square_root(n as nat) && w * w == n,
{
    let w = floor_sqrt(n);
    if w * w != n {
        proof {
            if is_perfect_square(n as nat) {
                let x = choose|x: nat| #[trigger] sq(x) == n as nat;
                lemma_floor_sqrt_exact(w as nat, n as nat, x);
            }
        }
        return None;
    }
    proof {
        assert(sq(w as nat) == n as nat);
        lemma_floor_sqrt_exact(w as nat, n as nat, square_root(n as nat));
    }
    Some(w)
}

/// A cell of the original quadrant lies within the data.
pub proof fn lemma_cell_index(r: nat, c: nat, ow: nat)
    requires
        r < ow,
        c < ow,
    ensures
        r * ow + c < ow * ow,
{
    assert(r * ow + c < ow * ow) by (nonlinear_arith)
        requires
            r < ow,
            c < ow,
    ;
}

/// The square root of a square is the number squared.
pub proof fn lemma_root_of_square(w: nat)
    ensures
        is_perfect_square(w * w),
        square_root(w * w) == w,
{
    assert(sq(w) == w * w);
    assert((w + 1) * (w + 1) > w * w) by (nonlinear_arith);
    lemma_floor_sqrt_exact(w, w * w, square_root(w * w));
}

/// Twice a root fits wherever its square does.
pub proof fn lemma_double_root(w: nat, n: nat)
    requires
        w * w <= n,
    ensures
        w <= 1 || 2 * w <= n,
        w <= n,
{
    if w >= 2 {
        assert(2 * w <= w * w) by (nonlinear_arith)
            requires
                w >= 2,
        ;
    } else if w == 1 {
        assert(w * w == 1);
    }
}

} // verus!
