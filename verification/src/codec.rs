//! Reed-Solomon codec over GF(2^8), backed by `reed_solomon_erasure`.
use vstd::prelude::*;
use reed_solomon_erasure::galois_8::ReedSolomon;
use crate::error::{CodecError, CodecFailure};
use crate::shares::{
    all_present, copy_share, count_present, count_present_exec, opt_share_view, opt_shares_view,
    shares_view, unwrap_all, zeros,
};
use crate::text::{decimal, push_decimal, push_text, text};
use crate::traits::Codec;
use crate::datasquare::{SquareError, SquareErrorKind};
use crate::erasure::ErasureCodec;

verus! {

/// A Reed-Solomon coder over GF(2^8), made for fixed numbers of data and
/// parity shards. Its contents are reached only through the functions below.
#[verifier::external_body]
pub struct RsCoder {
    rs: ReedSolomon,
}

#[verifier::external_type_specification]
#[verifier::external_body]
pub struct ExRsError(reed_solomon_erasure::Error);

/// The numbers of data and parity shards a coder was made with.
pub uninterp spec fn rs_shard_counts(rs: RsCoder) -> (nat, nat);

/// The parity shards that the coding of `data_shards` data shards into
/// `parity_shards` parity shards gives for `data`.
pub uninterp spec fn rs_parity(data_shards: nat, parity_shards: nat, data: Seq<Seq<u8>>) -> Seq<Seq<u8>>;

/// The complete shards that reconstruction gives back from `shards`.
pub uninterp spec fn rs_reconstructed(
    data_shards: nat,
    parity_shards: nat,
    shards: Seq<Option<Seq<u8>>>,
) -> Seq<Seq<u8>>;

/// All shards have the length of the first one.
pub open spec fn uniform_len(v: Seq<Seq<u8>>) -> bool {
    forall|i: int| 0 <= i < v.len() ==> (#[trigger] v[i]).len() == v[0].len()
}

/// The data shards followed by their parity shards.
pub open spec fn codeword(data_shards: nat, parity_shards: nat, data: Seq<Seq<u8>>) -> Seq<Seq<u8>> {
    data + rs_parity(data_shards, parity_shards, data)
}

/// Every present shard is nonempty, and all present shards have one length.
pub open spec fn present_well_sized(v: Seq<Option<Seq<u8>>>) -> bool {
    &&& forall|i: int| 0 <= i < v.len() && (#[trigger] v[i]) is Some ==> v[i]->0.len() > 0
    &&& forall|i: int, j: int|
        0 <= i < v.len() && 0 <= j < v.len() && (#[trigger] v[i]) is Some && (#[trigger] v[j]) is Some
            ==> v[i]->0.len() == v[j]->0.len()
}

/// `w` holds the shard of `v` wherever `v` has one.
pub open spec fn agrees_on_present(v: Seq<Option<Seq<u8>>>, w: Seq<Seq<u8>>) -> bool {
    &&& v.len() == w.len()
    &&& forall|i: int| 0 <= i < v.len() && (#[trigger] v[i]) is Some ==> v[i]->0 == w[i]
}

/// Reconstruction of `v` by a coder of `d` data and `p` parity shards succeeds.
pub open spec fn reconstructible(d: nat, p: nat, v: Seq<Option<Seq<u8>>>) -> bool {
    &&& v.len() == d + p
    &&& present_well_sized(v)
    &&& count_present(v) >= d
}

/// A `d` by `d` square of shares that all share one nonzero length.
pub open spec fn uniform_square(x: Seq<Seq<Seq<u8>>>, d: nat) -> bool {
    &&& x.len() == d
    &&& d > 0
    &&& x[0][0].len() > 0
    &&& forall|r: int| 0 <= r < d ==> (#[trigger] x[r]).len() == d
    &&& forall|r: int, c: int| 0 <= r < d && 0 <= c < d ==> (#[trigger] x[r][c]).len() == x[0][0].len()
}

/// The parity, along the column, of parity share `j` of every row of `x`.
pub open spec fn column_parity_of_row_parity(d: nat, p: nat, x: Seq<Seq<Seq<u8>>>, j: int) -> Seq<Seq<u8>> {
    rs_parity(d, p, Seq::new(d, |r: int| rs_parity(d, p, x[r])[j]))
}

/// The parity, along the row, of parity share `q` of every column of `x`.
pub open spec fn row_parity_of_column_parity(d: nat, p: nat, x: Seq<Seq<Seq<u8>>>, q: int) -> Seq<Seq<u8>> {
    rs_parity(d, p, Seq::new(d, |c: int| rs_parity(d, p, Seq::new(d, |r: int| x[r][c]))[q]))
}

/// The coding of `d` data shards into `p` parity shards is a Reed-Solomon
/// code: the parity of `d` data shards that share one nonzero length is `p`
/// shards of that length; any `d` or more shards of a coding, the others
/// missing, give the whole coding back; and, the code being linear, coding
/// the rows of a square and then the columns of their parity gives what
/// coding the columns and then the rows of their parity gives.
pub open spec fn is_rs_code(d: nat, p: nat) -> bool {
    &&& forall|x: Seq<Seq<u8>>|
        #![trigger rs_parity(d, p, x)]
        x.len() == d && uniform_len(x) && x[0].len() > 0 ==> rs_parity(d, p, x).len() == p && forall|i: int|
            0 <= i < p ==> (#[trigger] rs_parity(d, p, x)[i]).len() == x[0].len()
    &&& forall|v: Seq<Option<Seq<u8>>>, x: Seq<Seq<u8>>|
        #![trigger rs_reconstructed(d, p, v), codeword(d, p, x)]
        v.len() == d + p && x.len() == d && uniform_len(x) && x[0].len() > 0 && count_present(v) >= d
            && agrees_on_present(v, codeword(d, p, x)) ==> rs_reconstructed(d, p, v) == codeword(d, p, x)
    &&& forall|x: Seq<Seq<Seq<u8>>>, j: int, q: int|
        #![trigger column_parity_of_row_parity(d, p, x, j), row_parity_of_column_parity(d, p, x, q)]
        uniform_square(x, d) && 0 <= j < p && 0 <= q < p ==> column_parity_of_row_parity(d, p, x, j)[q]
            == row_parity_of_column_parity(d, p, x, q)[j]
}

/// `ReedSolomon::new` of the galois_8 field: it fails exactly when there are no
/// data shards, no parity shards, or more than 256 shards in all. The coder
/// made is a Reed-Solomon code of those counts: `encode` overwrites the
/// parity shards in place, so they keep the data shards' length, and
/// computes them from the data shards by one fixed matrix over GF(2^8),
/// byte by byte, so the code is linear; `reconstruct` rebuilds the missing
/// shards of a coding from any data-count of its shards.
#[verifier::external_body]
fn rs_new(data_shards: usize, parity_shards: usize) -> (r: Result<RsCoder, reed_solomon_erasure::Error>)
    ensures
        r is Ok <==> (data_shards > 0 && parity_shards > 0 && data_shards + parity_shards <= 256),
        r matches Ok(rs) ==> rs_shard_counts(rs) == (data_shards as nat, parity_shards as nat),
        r matches Ok(rs) ==> is_rs_code(rs_shard_counts(rs).0, rs_shard_counts(rs).1),
{
    ReedSolomon::new(data_shards, parity_shards).map(|rs| RsCoder { rs })
}

/// `ReedSolomon::encode`: it fails, touching nothing, when the number of shards
/// is not that of the coder, the first shard is empty, or the shards differ in
/// length; otherwise the parity shards are overwritten with the parity of the
/// data shards.
#[verifier::external_body]
fn rs_encode(rs: &RsCoder, shards: &mut Vec<Vec<u8>>) -> (r: Result<(), reed_solomon_erasure::Error>)
    ensures
        r is Err <==> ({
            let before = shares_view(old(shards)@);
            ||| before.len() != rs_shard_counts(*rs).0 + rs_shard_counts(*rs).1
            ||| before[0].len() == 0
            ||| !uniform_len(before)
        }),
        r is Err ==> shares_view(final(shards)@) == shares_view(old(shards)@),
        r is Ok ==> shares_view(final(shards)@) == shares_view(old(shards)@).take(rs_shard_counts(*rs).0 as int)
            + rs_parity(
            rs_shard_counts(*rs).0,
            rs_shard_counts(*rs).1,
            shares_view(old(shards)@).take(rs_shard_counts(*rs).0 as int),
        ),
        r is Ok ==> final(shards)@.len() == old(shards)@.len() && forall|i: int|
            0 <= i < final(shards)@.len() ==> (#[trigger] final(shards)@[i])@.len() == old(shards)@[i]@.len(),
{
    rs.rs.encode(shards)
}

/// `ReedSolomon::reconstruct`: it fails, touching nothing, when the number of
/// shards is not that of the coder, a present shard is empty, present shards
/// differ in length, or fewer shards than data shards are present. Otherwise
/// every shard is present afterwards, present shards are kept, all have the
/// common length, and whenever the present shards agree with the coding of some
/// data, the result is that coding.
#[verifier::external_body]
fn rs_reconstruct(rs: &RsCoder, shards: &mut Vec<Option<Vec<u8>>>) -> (r: Result<(), reed_solomon_erasure::Error>)
    ensures
        r is Ok <==> reconstructible(
            rs_shard_counts(*rs).0,
            rs_shard_counts(*rs).1,
            opt_shares_view(old(shards)@),
        ),
        r is Err ==> opt_shares_view(final(shards)@) == opt_shares_view(old(shards)@),
        r is Ok ==> all_present(opt_shares_view(final(shards)@)),
        r is Ok ==> unwrap_all(opt_shares_view(final(shards)@)) == rs_reconstructed(
            rs_shard_counts(*rs).0,
            rs_shard_counts(*rs).1,
            opt_shares_view(old(shards)@),
        ),
        r is Ok ==> agrees_on_present(
            opt_shares_view(old(shards)@),
            unwrap_all(opt_shares_view(final(shards)@)),
        ),
        r is Ok ==> forall|i: int, j: int|
            0 <= i < final(shards)@.len() && 0 <= j < old(shards)@.len() && (#[trigger] old(shards)@[j]) is Some
                ==> (#[trigger] final(shards)@[i])->0@.len() == old(shards)@[j]->0@.len(),
        r is Ok ==> forall|x: Seq<Seq<u8>>|
            x.len() == rs_shard_counts(*rs).0 && uniform_len(x) && x[0].len() > 0 && #[trigger] agrees_on_present(
                opt_shares_view(old(shards)@),
                codeword(rs_shard_counts(*rs).0, rs_shard_counts(*rs).1, x),
            ) ==> unwrap_all(opt_shares_view(final(shards)@)) == codeword(
                rs_shard_counts(*rs).0,
                rs_shard_counts(*rs).1,
                x,
            ),
{
    rs.rs.reconstruct(shards.as_mut_slice())
}

/// Shard `i` is the first whose length differs from that of shard 0.
pub open spec fn is_first_uneven(v: Seq<Seq<u8>>, i: int) -> bool {
    &&& 0 <= i < v.len()
    &&& v[i].len() != v[0].len()
    &&& forall|j: int| 0 <= j < i ==> (#[trigger] v[j]).len() == v[0].len()
}

/// What the codec's encoding gives for `data`.
pub open spec fn leo_encode(d: nat, p: nat, data: Seq<Seq<u8>>) -> Result<Seq<Seq<u8>>, CodecFailure> {
    if data.len() != d {
        Err(CodecFailure::InvalidChunkSize { expected: d as usize, actual: data.len() as usize })
    } else if !uniform_len(data) || data[0].len() == 0 {
        Err(CodecFailure::EncodingFailed)
    } else {
        Ok(codeword(d, p, data))
    }
}

/// What the codec's decoding gives for `data`.
pub open spec fn leo_decode(d: nat, p: nat, data: Seq<Option<Seq<u8>>>) -> Result<Seq<Seq<u8>>, CodecFailure> {
    if data.len() != d + p {
        Err(CodecFailure::InvalidChunkSize { expected: (d + p) as usize, actual: data.len() as usize })
    } else if count_present(data) < d {
        Err(CodecFailure::InsufficientData)
    } else if !present_well_sized(data) {
        Err(CodecFailure::DecodingFailed)
    } else {
        Ok(rs_reconstructed(d, p, data).take(d as int))
    }
}

/// The message of an encoding error for a chunk of the wrong size.
pub open spec fn uneven_chunk_message(i: nat, size: nat, expected: nat) -> Seq<char> {
    "Chunk "@ + decimal(i) + " has size "@ + decimal(size) + " but expected "@ + decimal(expected)
}

/// Leo Reed-Solomon codec implementation.
pub struct LeoRSCodec {
    rs: RsCoder,
    data_shards: usize,
    parity_shards: usize,
}

impl LeoRSCodec {
    #[verifier::type_invariant]
    spec fn well_formed(self) -> bool {
        &&& rs_shard_counts(self.rs) == (self.data_shards as nat, self.parity_shards as nat)
        &&& self.data_shards > 0
        &&& self.parity_shards > 0
        &&& self.data_shards + self.parity_shards <= 256
        &&& is_rs_code(self.data_shards as nat, self.parity_shards as nat)
    }

    /// The number of data shards.
    pub closed spec fn data_shard_count(self) -> nat {
        self.data_shards as nat
    }

    /// The number of parity shards.
    pub closed spec fn parity_shard_count(self) -> nat {
        self.parity_shards as nat
    }

    /// Create a new Leo Reed-Solomon codec with the specified parameters.
    pub fn new(data_shards: usize, parity_shards: usize) -> (r: Result<Self, CodecError>)
        ensures
            r is Ok <==> (data_shards > 0 && parity_shards > 0 && data_shards + parity_shards <= 256),
            r matches Ok(c) ==> c.data_shard_count() == data_shards && c.parity_shard_count() == parity_shards,
            r matches Ok(c) ==> is_rs_code(c.data_shard_count(), c.parity_shard_count()),
            r matches Err(e) ==> e matches CodecError::EncodingFailed(m)
                && "Failed to create Reed-Solomon codec: "@.is_prefix_of(m@),
    {
        match rs_new(data_shards, parity_shards) {
            Ok(rs) => Ok(Self { rs, data_shards, parity_shards }),
            Err(e) => {
                let mut m = text("Failed to create Reed-Solomon codec: ");
                let shown = e.to_string();
                push_text(&mut m, shown.as_str());
                assert(("Failed to create Reed-Solomon codec: "@ + shown@).subrange(0, "Failed to create Reed-Solomon codec: "@.len() as int) =~= "Failed to create Reed-Solomon codec: "@);
                Err(CodecError::EncodingFailed(m))
            }
        }
    }
}

impl Codec for LeoRSCodec {
    open spec fn spec_encode(&self, data: Seq<Seq<u8>>) -> Result<Seq<Seq<u8>>, CodecFailure> {
        leo_encode(self.data_shard_count(), self.parity_shard_count(), data)
    }

    open spec fn spec_decode(&self, data: Seq<Option<Seq<u8>>>) -> Result<Seq<Seq<u8>>, CodecFailure> {
        leo_decode(self.data_shard_count(), self.parity_shard_count(), data)
    }

    open spec fn spec_max_chunks(&self) -> nat {
        self.data_shard_count()
    }

    open spec fn spec_parity_chunks(&self) -> nat {
        self.parity_shard_count()
    }

    fn encode(&self, data: Vec<Vec<u8>>) -> (r: Result<Vec<Vec<u8>>, CodecError>)
    {
        proof {
            use_type_invariant(self);
        }
        let ghost v = shares_view(data@);
        let d = self.data_shards;
        if data.len() != d {
            return Err(CodecError::InvalidChunkSize { expected: d, actual: data.len() });
        }
        let chunk_size = data[0].len();
        let mut i: usize = 0;
        while i < data.len()
            invariant
                i <= data.len(),
                v == shares_view(data@),
                chunk_size == v[0].len(),
                data.len() == d,
                d == self.data_shards,
                d > 0,
                forall|j: int| 0 <= j < i ==> (#[trigger] v[j]).len() == chunk_size,
            decreases data.len() - i,
        {
            if data[i].len() != chunk_size {
                let mut m = text("Chunk ");
                push_decimal(&mut m, i);
                push_text(&mut m, " has size ");
                push_decimal(&mut m, data[i].len());
                push_text(&mut m, " but expected ");
                push_decimal(&mut m, chunk_size);
                assert(is_first_uneven(v, i as int));
                assert(v[i as int].len() != v[0].len());
                assert(!uniform_len(v));

                assert(m@ =~= uneven_chunk_message(i as nat, v[i as int].len(), v[0].len()));
                return Err(CodecError::EncodingFailed(m));
            }
            i += 1;
        }
        assert(uniform_len(v));
        let mut shards = data;
        let mut k: usize = 0;
        while k < self.parity_shards
            invariant
                k <= self.parity_shards,
                shards.len() == d + k,
                shares_view(shards@).take(d as int) == v,
                forall|j: int| 0 <= j < shards.len() ==> (#[trigger] shares_view(shards@)[j]).len() == chunk_size,
                v.len() == d,
                d > 0,
                chunk_size == v[0].len(),
            decreases self.parity_shards - k,
        {
            let ghost before = shards@;
            shards.push(zeros(chunk_size));
            assert(shares_view(shards@).take(d as int) =~= shares_view(before).take(d as int));
            assert forall|j: int| 0 <= j < shards.len() implies (#[trigger] shares_view(shards@)[j]).len() == chunk_size by {
                if j < before.len() {
                    assert(shares_view(shards@)[j] == shares_view(before)[j]);
                }
            }
            k += 1;
        }
        let ghost filled = shares_view(shards@);
        assert(uniform_len(filled));
        assert(filled[0] == v[0]);
        match rs_encode(&self.rs, &mut shards) {
            Ok(()) => {
                assert(shares_view(shards@) =~= codeword(d as nat, self.parity_shards as nat, v));
                Ok(shards)
            },
            Err(e) => {
                let mut m = text("Reed-Solomon encoding failed: ");
                let shown = e.to_string();
                push_text(&mut m, shown.as_str());
                Err(CodecError::EncodingFailed(m))
            },
        }
    }

    fn decode(&self, data: Vec<Option<Vec<u8>>>) -> (r: Result<Vec<Vec<u8>>, CodecError>) {
        proof {
            use_type_invariant(self);
        }
        let ghost v = opt_shares_view(data@);
        let d = self.data_shards;
        let total = self.data_shards + self.parity_shards;
        if data.len() != total {
            return Err(CodecError::InvalidChunkSize { expected: total, actual: data.len() });
        }
        let available_shards = count_present_exec(data.as_slice());
        if available_shards < d {
            return Err(CodecError::InsufficientData);
        }
        let mut chunk_size: usize = 0;
        let mut j: usize = 0;
        while j < data.len()
            invariant
                j <= data.len(),
            decreases data.len() - j,
        {
            if let Some(chunk) = &data[j] {
                chunk_size = chunk.len();
                break;
            }
            j += 1;
        }
        let mut shards = data;
        match rs_reconstruct(&self.rs, &mut shards) {
            Ok(()) => {
                let ghost full = unwrap_all(opt_shares_view(shards@));
                let mut out: Vec<Vec<u8>> = Vec::with_capacity(d);
                let mut i: usize = 0;
                while i < d
                    invariant
                        i <= d,
                        d <= shards.len(),
                        full == unwrap_all(opt_shares_view(shards@)),
                        all_present(opt_shares_view(shards@)),
                        out.len() == i,
                        forall|m: int| 0 <= m < i ==> (#[trigger] out@[m])@ == full[m],
                    decreases d - i,
                {
                    assert(opt_shares_view(shards@)[i as int] is Some);
                    let share = match &shards[i] {
                        Some(s) => copy_share(s),
                        None => zeros(chunk_size),
                    };
                    out.push(share);
                    i += 1;
                }
                assert(shares_view(out@) =~= full.take(d as int));
                assert forall|x: Seq<Seq<u8>>|
                    #[trigger] self.spec_encode(x) matches Ok(encoded) && agrees_on_present(v, encoded) implies shares_view(
                        out@,
                    ) == x by {
                    assert(agrees_on_present(v, codeword(d as nat, self.parity_shards as nat, x)));
                    assert(codeword(d as nat, self.parity_shards as nat, x).take(d as int) =~= x);
                }
                Ok(out)
            },
            Err(e) => {
                let mut m = text("Reed-Solomon reconstruction failed: ");
                let shown = e.to_string();
                push_text(&mut m, shown.as_str());
                Err(CodecError::DecodingFailed(m))
            },
        }
    }

    fn max_chunks(&self) -> (n: usize) {
        self.data_shards
    }

    fn parity_chunks(&self) -> (n: usize) {
        self.parity_shards
    }
}

/// Factory function to create new Leo Reed-Solomon codec with default parameters:
/// 16 data shards and 16 parity shards.
pub fn new_leo_rs_codec() -> (c: LeoRSCodec)
    ensures
        c.data_shard_count() == 16,
        c.parity_shard_count() == 16,
        is_rs_code(c.data_shard_count(), c.parity_shard_count()),
{
    LeoRSCodec::new(16, 16).expect("Failed to create default Leo RS codec")
}

/// Factory function to create a smaller Leo Reed-Solomon codec for testing:
/// 2 data shards and 2 parity shards.
pub fn new_test_leo_rs_codec() -> (c: LeoRSCodec)
    ensures
        c.data_shard_count() == 2,
        c.parity_shard_count() == 2,
        is_rs_code(c.data_shard_count(), c.parity_shard_count()),
{
    LeoRSCodec::new(2, 2).expect("Failed to create test Leo RS codec")
}

/// Factory function to create a small Leo Reed-Solomon codec for small data:
/// 4 data shards and 4 parity shards.
pub fn new_small_leo_rs_codec() -> (c: LeoRSCodec)
    ensures
        c.data_shard_count() == 4,
        c.parity_shard_count() == 4,
        is_rs_code(c.data_shard_count(), c.parity_shard_count()),
{
    LeoRSCodec::new(4, 4).expect("Failed to create small Leo RS codec")
}

/// Factory function to create a medium Leo Reed-Solomon codec:
/// 8 data shards and 8 parity shards.
pub fn new_medium_leo_rs_codec() -> (c: LeoRSCodec)
    ensures
        c.data_shard_count() == 8,
        c.parity_shard_count() == 8,
        is_rs_code(c.data_shard_count(), c.parity_shard_count()),
{
    LeoRSCodec::new(8, 8).expect("Failed to create medium Leo RS codec")
}

/// The parity shares that the codec's erasure encoding gives for `data`.
pub open spec fn leo_parity(d: nat, p: nat, data: Seq<Seq<u8>>) -> Result<Seq<Seq<u8>>, SquareErrorKind> {
    if data.len() == d && uniform_len(data) && data[0].len() > 0 {
        Ok(rs_parity(d, p, data))
    } else {
        Err(SquareErrorKind::ReedSolomonError)
    }
}

/// The complete axis that the codec's erasure decoding gives for `data`.
pub open spec fn leo_recover(d: nat, p: nat, data: Seq<Option<Seq<u8>>>) -> Result<Seq<Seq<u8>>, SquareErrorKind> {
    if reconstructible(d, p, data) {
        Ok(rs_reconstructed(d, p, data))
    } else {
        Err(SquareErrorKind::ReedSolomonError)
    }
}

impl ErasureCodec for LeoRSCodec {
    open spec fn spec_parity(&self, data: Seq<Seq<u8>>) -> Result<Seq<Seq<u8>>, SquareErrorKind> {
        leo_parity(self.data_shard_count(), self.parity_shard_count(), data)
    }

    open spec fn spec_recover(&self, data: Seq<Option<Seq<u8>>>) -> Result<Seq<Seq<u8>>, SquareErrorKind> {
        leo_recover(self.data_shard_count(), self.parity_shard_count(), data)
    }

    open spec fn spec_max_shares(&self) -> nat {
        self.data_shard_count() * self.data_shard_count()
    }

    open spec fn spec_name(&self) -> Seq<char> {
        "LeoRSCodec"@
    }

    open spec fn spec_validate_chunk_size(&self, chunk_size: nat) -> Result<(), SquareErrorKind> {
        if chunk_size % 64 == 0 {
            Ok(())
        } else {
            Err(SquareErrorKind::InvalidChunkSize)
        }
    }

    fn encode(&self, data: &[Vec<u8>]) -> (r: Result<Vec<Vec<u8>>, SquareError>) {
        proof {
            use_type_invariant(self);
        }
        let ghost v = shares_view(data@);
        let d = self.data_shards;
        if data.len() != d {
            let mut m = text("Reed-Solomon encoding failed: expected ");
            push_decimal(&mut m, d);
            push_text(&mut m, " data shares, got ");
            push_decimal(&mut m, data.len());
            return Err(SquareError::ReedSolomonError(m));
        }
        let chunk_size = data[0].len();
        let mut shards: Vec<Vec<u8>> = Vec::with_capacity(d + self.parity_shards);
        let mut i: usize = 0;
        while i < d
            invariant
                i <= d,
                data.len() == d,
                v == shares_view(data@),
                shards.len() == i,
                forall|j: int| 0 <= j < i ==> (#[trigger] shards@[j])@ == v[j],
            decreases d - i,
        {
            shards.push(copy_share(&data[i]));
            i += 1;
        }
        let mut k: usize = 0;
        while k < self.parity_shards
            invariant
                k <= self.parity_shards,
                d == self.data_shards,
                data.len() == d,
                d > 0,
                v == shares_view(data@),
                chunk_size == v[0].len(),
                shards.len() == d + k,
                forall|j: int| 0 <= j < d ==> (#[trigger] shards@[j])@ == v[j],
                forall|j: int| d <= j < d + k ==> (#[trigger] shards@[j])@.len() == chunk_size,
            decreases self.parity_shards - k,
        {
            shards.push(zeros(chunk_size));
            k += 1;
        }
        let ghost filled = shares_view(shards@);
        assert(filled.take(d as int) =~= v);
        assert(filled[0] == v[0]);
        assert(uniform_len(filled) <==> uniform_len(v)) by {
            if uniform_len(v) {
                assert forall|j: int| 0 <= j < filled.len() implies (#[trigger] filled[j]).len() == filled[0].len() by {
                    if j < d {
                        assert(filled[j] == v[j]);
                    }
                }
            }
            if uniform_len(filled) {
                assert forall|j: int| 0 <= j < v.len() implies (#[trigger] v[j]).len() == v[0].len() by {
                    assert(filled[j] == v[j]);
                }
            }
        }
        match rs_encode(&self.rs, &mut shards) {
            Ok(()) => {
                let ghost coded = shares_view(shards@);
                let mut parity: Vec<Vec<u8>> = Vec::with_capacity(self.parity_shards);
                let mut j: usize = d;
                while j < shards.len()
                    invariant
                        d <= j <= shards.len(),
                        coded == shares_view(shards@),
                        parity.len() == j - d,
                        forall|m: int| 0 <= m < parity.len() ==> (#[trigger] parity@[m])@ == coded[d + m],
                    decreases shards.len() - j,
                {
                    parity.push(copy_share(&shards[j]));
                    j += 1;
                }
                assert(shares_view(parity@) =~= coded.subrange(d as int, coded.len() as int));
                assert(coded.subrange(d as int, coded.len() as int) =~= rs_parity(
                    d as nat,
                    self.parity_shards as nat,
                    v,
                ));
                Ok(parity)
            },
            Err(e) => {
                let mut m = text("Reed-Solomon encoding failed: ");
                let shown = e.to_string();
                push_text(&mut m, shown.as_str());
                Err(SquareError::ReedSolomonError(m))
            },
        }
    }

    fn decode(&self, data: &[Option<Vec<u8>>]) -> (r: Result<Vec<Vec<u8>>, SquareError>) {
        proof {
            use_type_invariant(self);
        }
        let ghost v = opt_shares_view(data@);
        let mut shards: Vec<Option<Vec<u8>>> = Vec::with_capacity(data.len());
        let mut i: usize = 0;
        while i < data.len()
            invariant
                i <= data.len(),
                v == opt_shares_view(data@),
                shards.len() == i,
                forall|j: int| 0 <= j < i ==> opt_share_view(#[trigger] shards@[j]) == v[j],
            decreases data.len() - i,
        {
            shards.push(crate::shares::copy_opt_share(&data[i]));
            i += 1;
        }
        assert(opt_shares_view(shards@) =~= v);
        match rs_reconstruct(&self.rs, &mut shards) {
            Ok(()) => {
                let ghost full = unwrap_all(opt_shares_view(shards@));
                let mut out: Vec<Vec<u8>> = Vec::with_capacity(shards.len());
                let mut j: usize = 0;
                while j < shards.len()
                    invariant
                        j <= shards.len(),
                        full == unwrap_all(opt_shares_view(shards@)),
                        all_present(opt_shares_view(shards@)),
                        out.len() == j,
                        forall|m: int| 0 <= m < j ==> (#[trigger] out@[m])@ == full[m],
                    decreases shards.len() - j,
                {
                    assert(opt_shares_view(shards@)[j as int] is Some);
                    let share = match &shards[j] {
                        Some(s) => copy_share(s),
                        None => Vec::new(),
                    };
                    out.push(share);
                    j += 1;
                }
                assert(shares_view(out@) =~= full);
                assert forall|x: Seq<Seq<u8>>|
                    #[trigger] self.spec_parity(x) is Ok && agrees_on_present(v, x + self.spec_parity(x)->Ok_0) implies shares_view(
                        out@,
                    ) == x + self.spec_parity(x)->Ok_0 by {
                    assert(x + rs_parity(self.data_shards as nat, self.parity_shards as nat, x) == codeword(
                        self.data_shards as nat,
                        self.parity_shards as nat,
                        x,
                    ));
                }
                Ok(out)
            },
            Err(e) => {
                let mut m = text("Reed-Solomon reconstruction failed: ");
                let shown = e.to_string();
                push_text(&mut m, shown.as_str());
                Err(SquareError::ReedSolomonError(m))
            },
        }
    }

    fn max_chunks(&self) -> (n: usize) {
        proof {
            use_type_invariant(self);
            assert(self.data_shards * self.data_shards <= 256 * 256) by (nonlinear_arith)
                requires
                    self.data_shards <= 256,
            ;
        }
        self.data_shards * self.data_shards
    }

    fn name(&self) -> (s: String) {
        text("LeoRSCodec")
    }

    fn validate_chunk_size(&self, chunk_size: usize) -> (r: Result<(), SquareError>) {
        if chunk_size % 64 != 0 {
            let mut m = text("chunk size ");
            push_decimal(&mut m, chunk_size);
            push_text(&mut m, " must be a multiple of 64 bytes");
            return Err(SquareError::InvalidChunkSize(m));
        }
        Ok(())
    }
}

} // verus!
