//! The default merkle tree: SHA-256 leaves, pairwise parents, the last
//! node of an odd level paired with itself.
use vstd::prelude::*;
use sha2::{Digest, Sha256};
use crate::shares::{copy_share, shares_view};
use crate::traits::Tree;

verus! {

/// The SHA-256 digest of a byte string, as `sha2` computes it.
pub uninterp spec fn sha256(data: Seq<u8>) -> Seq<u8>;

/// `sha2::Sha256::digest`: the digest of `data` is the value named `sha256`,
/// 32 bytes long.
#[verifier::external_body]
fn sha256_digest(data: &[u8]) -> (out: Vec<u8>)
    ensures
        out@ == sha256(data@),
        out@.len() == 32,
{
    Sha256::digest(data).to_vec()
}

/// The parent of two nodes: the digest of their concatenation.
pub open spec fn hash_pair(left: Seq<u8>, right: Seq<u8>) -> Seq<u8> {
    sha256(left + right)
}

/// The level above a level of nodes: neighbours are paired, and the last node
/// of an odd level is paired with itself.
pub open spec fn next_level(level: Seq<Seq<u8>>) -> Seq<Seq<u8>> {
    Seq::new(
        ((level.len() + 1) / 2) as nat,
        |i: int|
            if 2 * i + 1 < level.len() {
                hash_pair(level[2 * i], level[2 * i + 1])
            } else {
                hash_pair(level[2 * i], level[2 * i])
            },
    )
}

/// The single node that remains when levels are built up from `level`.
pub open spec fn fold_levels(level: Seq<Seq<u8>>) -> Seq<u8>
    decreases level.len(),
{
    if level.len() <= 1 {
        level[0]
    } else {
        fold_levels(next_level(level))
    }
}

/// The merkle root of a sequence of leaves.
pub open spec fn merkle_root(leaves: Seq<Seq<u8>>) -> Seq<u8> {
    if leaves.len() == 0 {
        sha256(Seq::empty())
    } else if leaves.len() == 1 {
        sha256(leaves[0])
    } else {
        fold_levels(leaves.map_values(|leaf: Seq<u8>| sha256(leaf)))
    }
}

/// Default merkle tree implementation for computing roots.
pub struct DefaultTree {
    leaves: Vec<Vec<u8>>,
}

impl View for DefaultTree {
    type V = Seq<Seq<u8>>;

    closed spec fn view(&self) -> Seq<Seq<u8>> {
        shares_view(self.leaves@)
    }
}

/// The concatenation of two byte strings.
fn concat_bytes(a: &[u8], b: &[u8]) -> (r: Vec<u8>)
    ensures
        r@ == a@ + b@,
{
    let mut r: Vec<u8> = Vec::new();
    let mut i: usize = 0;
    while i < a.len()
        invariant
            i <= a.len(),
            r@ == a@.subrange(0, i as int),
        decreases a.len() - i,
    {
        r.push(a[i]);
        i += 1;
    }
    let mut j: usize = 0;
    while j < b.len()
        invariant
            i == a.len(),
            j <= b.len(),
            r@ == a@ + b@.subrange(0, j as int),
        decreases b.len() - j,
    {
        r.push(b[j]);
        j += 1;
    }
    assert(a@.subrange(0, a.len() as int) =~= a@);
    assert(b@.subrange(0, b.len() as int) =~= b@);
    r
}

impl DefaultTree {
    /// Create a new default merkle tree.
    pub fn new() -> (t: Self)
        ensures
            t@ == Seq::<Seq<u8>>::empty(),
    {
        let t = Self { leaves: Vec::new() };
        assert(t@ =~= Seq::<Seq<u8>>::empty());
        t
    }

    /// Compute hash of two child nodes.
    fn hash_nodes(left: &[u8], right: &[u8]) -> (r: Vec<u8>)
        ensures
            r@ == hash_pair(left@, right@),
            r@.len() == 32,
    {
        let joined = concat_bytes(left, right);
        sha256_digest(joined.as_slice())
    }

    /// Hash a single piece of data.
    pub fn hash_data(data: &[u8]) -> (r: Vec<u8>)
        ensures
            r@ == sha256(data@),
            r@.len() == 32,
    {
        sha256_digest(data)
    }

    /// The level of parents above `level`.
    fn build_next_level(level: &Vec<Vec<u8>>) -> (r: Vec<Vec<u8>>)
        requires
            level.len() >= 1,
        ensures
            shares_view(r@) == next_level(shares_view(level@)),
            r.len() == (level.len() + 1) / 2,
            forall|i: int|
                0 <= i && 2 * i + 1 < level.len() ==> (#[trigger] r@[i])@ == hash_pair(
                    level@[2 * i]@,
                    level@[2 * i + 1]@,
                ),
            level.len() % 2 == 1 ==> r@[r.len() - 1]@ == hash_pair(
                level@[level.len() - 1]@,
                level@[level.len() - 1]@,
            ),
            forall|m: int| 0 <= m < r.len() ==> (#[trigger] r@[m])@.len() == 32,
    {
        let ghost lv = shares_view(level@);
        let n = level.len();
        let half = n / 2 + n % 2;
        let mut next: Vec<Vec<u8>> = Vec::with_capacity(half);
        let mut k: usize = 0;
        while k < half
            invariant
                n == level.len(),
                lv == shares_view(level@),
                half == (n + 1) / 2,
                k <= half,
                next.len() == k,
                forall|m: int| 0 <= m < k ==> (#[trigger] next@[m])@ == next_level(lv)[m],
                forall|m: int| 0 <= m < k ==> (#[trigger] next@[m])@.len() == 32,
            decreases half - k,
        {
            let i = 2 * k;
            let node = if i + 1 < n {
                Self::hash_nodes(level[i].as_slice(), level[i + 1].as_slice())
            } else {
                Self::hash_nodes(level[i].as_slice(), level[i].as_slice())
            };
            next.push(node);
            k += 1;
        }
        assert(shares_view(next@) =~= next_level(lv));
        assert forall|i: int| 0 <= i && 2 * i + 1 < level.len() implies (#[trigger] next@[i])@ == hash_pair(
            level@[2 * i]@,
            level@[2 * i + 1]@,
        ) by {
            assert(next@[i]@ == next_level(lv)[i]);
        }
        if n % 2 == 1 {
            assert(next@[half - 1]@ == next_level(lv)[half - 1]);
        }
        next
    }

    /// Compute merkle root from current leaves.
    fn compute_root(&self) -> (r: Vec<u8>)
        ensures
            r@ == merkle_root(self@),
            r@.len() == 32,
    {
        if self.leaves.len() == 0 {
            let empty: Vec<u8> = Vec::new();
            assert(empty@ =~= Seq::<u8>::empty());
            return Self::hash_data(empty.as_slice());
        }
        if self.leaves.len() == 1 {
            return Self::hash_data(self.leaves[0].as_slice());
        }
        let ghost hashed = self@.map_values(|leaf: Seq<u8>| sha256(leaf));
        let mut level: Vec<Vec<u8>> = Vec::with_capacity(self.leaves.len());
        let mut i: usize = 0;
        while i < self.leaves.len()
            invariant
                i <= self.leaves.len(),
                hashed == self@.map_values(|leaf: Seq<u8>| sha256(leaf)),
                level.len() == i,
                forall|m: int| 0 <= m < i ==> (#[trigger] level@[m])@ == hashed[m],
                forall|m: int| 0 <= m < i ==> (#[trigger] level@[m])@.len() == 32,
            decreases self.leaves.len() - i,
        {
            level.push(Self::hash_data(self.leaves[i].as_slice()));
            i += 1;
        }
        assert(shares_view(level@) =~= hashed);
        while level.len() > 1
            invariant
                level.len() >= 1,
                fold_levels(shares_view(level@)) == fold_levels(hashed),
                forall|m: int| 0 <= m < level.len() ==> (#[trigger] level@[m])@.len() == 32,
            decreases level.len(),
        {
            let next = Self::build_next_level(&level);
            assert(shares_view(level@).len() == level.len());
            level = next;
        }
        assert(shares_view(level@)[0] == level@[0]@);
        copy_share(&level[0])
    }
}

impl Default for DefaultTree {
    fn default() -> (t: Self)
        ensures
            t@ == Seq::<Seq<u8>>::empty(),
    {
        Self::new()
    }
}

impl Tree for DefaultTree {
    open spec fn leaves(&self) -> Seq<Seq<u8>> {
        self@
    }

    open spec fn root_of(leaves: Seq<Seq<u8>>) -> Seq<u8> {
        merkle_root(leaves)
    }

    fn push(&mut self, data: &[u8]) {
        let mut copy: Vec<u8> = Vec::with_capacity(data.len());
        let mut i: usize = 0;
        while i < data.len()
            invariant
                i <= data.len(),
                copy@ == data@.subrange(0, i as int),
            decreases data.len() - i,
        {
            copy.push(data[i]);
            i += 1;
        }
        assert(copy@ =~= data@);
        self.leaves.push(copy);
        assert(self@ =~= old(self)@.push(data@));
    }

    fn root(&self) -> (r: Vec<u8>)
        ensures
            r@.len() == 32,
    {
        self.compute_root()
    }

    fn reset(&mut self) {
        self.leaves.clear();
        assert(self@ =~= Seq::<Seq<u8>>::empty());
    }

    fn len(&self) -> (n: usize) {
        self.leaves.len()
    }
}

/// Factory function to create new default merkle tree.
pub fn new_default_tree() -> (t: DefaultTree)
    ensures
        t@ == Seq::<Seq<u8>>::empty(),
{
    DefaultTree::new()
}

/// `2` to the power `k`.
pub open spec fn two_pow(k: nat) -> nat
    decreases k,
{
    if k == 0 {
        1
    } else {
        2 * two_pow((k - 1) as nat)
    }
}

/// Neighbours are paired at every level: node `i` of the level above is the
/// parent of nodes `2 * i` and `2 * i + 1`, and only the last node of an odd
/// level is paired with itself.
pub proof fn law_next_level_pairs(level: Seq<Seq<u8>>, i: int)
    requires
        0 <= i < (level.len() + 1) / 2,
    ensures
        next_level(level).len() == (level.len() + 1) / 2,
        2 * i + 1 < level.len() ==> next_level(level)[i] == hash_pair(level[2 * i], level[2 * i + 1]),
        2 * i + 1 == level.len() ==> next_level(level)[i] == hash_pair(level[2 * i], level[2 * i]),
{
}

/// A power of two at least 2 is even, and half of it is a power of two.
proof fn lemma_two_pow_pos(k: nat)
    ensures
        two_pow(k) >= 1,
    decreases k,
{
    if k > 0 {
        lemma_two_pow_pos((k - 1) as nat);
    }
}

/// Building levels up from two halves of `2^k` nodes each gives the parent
/// of what each half builds up to.
proof fn lemma_fold_halves(a: Seq<Seq<u8>>, b: Seq<Seq<u8>>, k: nat)
    requires
        a.len() == two_pow(k),
        b.len() == two_pow(k),
    ensures
        fold_levels(a + b) == hash_pair(fold_levels(a), fold_levels(b)),
    decreases k,
{
    let ab = a + b;
    if k == 0 {
        assert(next_level(ab).len() == 1);
        assert(next_level(ab)[0] == hash_pair(a[0], b[0]));
        assert(fold_levels(next_level(ab)) == next_level(ab)[0]);
    } else {
        lemma_two_pow_pos((k - 1) as nat);
        let h = two_pow((k - 1) as nat);
        assert(a.len() == 2 * h);
        assert(next_level(a).len() == h);
        assert(next_level(b).len() == h);
        assert(next_level(ab) =~= next_level(a) + next_level(b)) by {
            assert forall|i: int| 0 <= i < 2 * h implies #[trigger] next_level(ab)[i] == (next_level(a) + next_level(b))[i] by {
                if i < h {
                    assert(ab[2 * i] == a[2 * i]);
                    assert(ab[2 * i + 1] == a[2 * i + 1]);
                } else {
                    assert(ab[2 * i] == b[2 * (i - h)]);
                    assert(ab[2 * i + 1] == b[2 * (i - h) + 1]);
                }
            }
        }
        lemma_fold_halves(next_level(a), next_level(b), (k - 1) as nat);
    }
}

/// The merkle root of `2^(k+1)` leaves is the parent of the roots of its two
/// halves, so it depends on every leaf.
pub proof fn law_merkle_root_halves(leaves: Seq<Seq<u8>>, k: nat)
    requires
        leaves.len() == 2 * two_pow(k),
    ensures
        merkle_root(leaves) == hash_pair(
            merkle_root(leaves.take(two_pow(k) as int)),
            merkle_root(leaves.skip(two_pow(k) as int)),
        ),
{
    lemma_two_pow_pos(k);
    let h = two_pow(k) as int;
    let hashed = leaves.map_values(|leaf: Seq<u8>| sha256(leaf));
    let a = leaves.take(h).map_values(|leaf: Seq<u8>| sha256(leaf));
    let b = leaves.skip(h).map_values(|leaf: Seq<u8>| sha256(leaf));
    assert(hashed =~= a + b);
    lemma_fold_halves(a, b, k);
    if h == 1 {
        assert(fold_levels(a) == a[0]);
        assert(fold_levels(b) == b[0]);
    }
}

} // verus!
