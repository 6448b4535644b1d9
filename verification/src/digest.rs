//! Content digest of raw image bytes, used as the key of the single-slot
//! preprocessing cache.
//!
//! The digest folds every input byte into a sixteen-byte state and then
//! mixes in the input length, so that two byte strings with the same digest
//! are overwhelmingly likely to be identical.  The whole computation is
//! exact integer arithmetic and is verified against `digest_spec`.

use vstd::prelude::*;

verus! {

/// Number of bytes in a digest.
pub const DIGEST_LEN: usize = 16;

/// A sixteen-byte content digest.
pub struct Digest {
    bytes: Vec<u8>,
}

impl Digest {
    pub closed spec fn view(self) -> Seq<u8> {
        self.bytes@
    }

    /// A digest always holds exactly `DIGEST_LEN` bytes.
    pub closed spec fn wf(self) -> bool {
        self.bytes@.len() == DIGEST_LEN
    }

    /// Byte-for-byte equality of two digests.
    pub fn equals(&self, other: &Digest) -> (r: bool)
        requires
            self.wf(),
            other.wf(),
        ensures
            r == (self@ == other@),
    {
        let mut i: usize = 0;
        while i < DIGEST_LEN
            invariant
                self.wf(),
                other.wf(),
                i <= DIGEST_LEN,
                forall|j: int| 0 <= j < i ==> self@[j] == other@[j],
            decreases DIGEST_LEN - i,
        {
            if self.bytes[i] != other.bytes[i] {
                assert(self@[i as int] != other@[i as int]);
                return false;
            }
            i += 1;
        }
        assert(self@ =~= other@);
        true
    }

    /// The digest as an owned byte vector.
    pub fn to_bytes(&self) -> (r: Vec<u8>)
        ensures
            r@ == self@,
    {
        let mut out: Vec<u8> = Vec::new();
        let mut i: usize = 0;
        while i < self.bytes.len()
            invariant
                i <= self.bytes@.len(),
                out@ == self.bytes@.take(i as int),
            decreases self.bytes@.len() - i,
        {
            out.push(self.bytes[i]);
            assert(out@ =~= self.bytes@.take(i + 1));
            i += 1;
        }
        assert(out@ =~= self.bytes@);
        out
    }
}

impl Clone for Digest {
    fn clone(&self) -> (r: Self)
        ensures
            r@ == self@,
            r.wf() == self.wf(),
    {
        Digest { bytes: self.to_bytes() }
    }
}

/// One byte added into the mixing state: `(b + k) % 256` where `k` is the
/// byte's position reduced modulo 256.
pub open spec fn mixed_byte(b: u8, pos: int) -> u8 {
    (((b as int) + (pos % 256)) % 256) as u8
}

/// The state after folding the first `n` input bytes: byte `n - 1` is
/// XOR-ed into slot `(n - 1) % 16` of the previous state.
pub open spec fn fold_state(data: Seq<u8>, n: int) -> Seq<u8>
    decreases n,
{
    if n <= 0 {
        Seq::new(DIGEST_LEN as nat, |i: int| 0u8)
    } else {
        let prev = fold_state(data, n - 1);
        let slot = (n - 1) % (DIGEST_LEN as int);
        prev.update(slot, prev[slot] ^ mixed_byte(data[n - 1], n - 1))
    }
}

/// Base-256 digit `j` of the input length.
pub open spec fn len_digit(len: int, j: int) -> int
    decreases j,
{
    if j <= 0 {
        len % 256
    } else {
        len_digit(len / 256, j - 1)
    }
}

/// The final digest: the folded state with the first eight slots shifted by
/// the base-256 digits of the input length.
pub open spec fn digest_spec(data: Seq<u8>) -> Seq<u8> {
    let folded = fold_state(data, data.len() as int);
    Seq::new(
        DIGEST_LEN as nat,
        |i: int|
            if i < 8 {
                (((folded[i] as int) + len_digit(data.len() as int, i)) % 256) as u8
            } else {
                folded[i]
            },
    )
}

/// Content digest of `data`, as specified by `digest_spec`.
pub fn compute(data: &[u8]) -> (r: Digest)
    ensures
        r.wf(),
        r@ == digest_spec(data@),
{
    let mut hash: Vec<u8> = Vec::new();
    let mut k: usize = 0;
    while k < DIGEST_LEN
        invariant
            k <= DIGEST_LEN,
            hash@.len() == k,
            forall|j: int| 0 <= j < k ==> hash@[j] == 0u8,
        decreases DIGEST_LEN - k,
    {
        hash.push(0u8);
        k += 1;
    }
    assert(hash@ =~= fold_state(data@, 0));

    let mut i: usize = 0;
    while i < data.len()
        invariant
            i <= data@.len(),
            hash@.len() == DIGEST_LEN,
            hash@ == fold_state(data@, i as int),
        decreases data@.len() - i,
    {
        let b = data[i];
        let mixed = (((b as usize) + (i % 256)) % 256) as u8;
        assert(mixed == mixed_byte(data@[i as int], i as int));
        let slot = i % DIGEST_LEN;
        let x = hash[slot] ^ mixed;
        hash[slot] = x;
        assert(hash@ =~= fold_state(data@, i + 1));
        i += 1;
    }

    let ghost folded = fold_state(data@, data@.len() as int);
    let mut l: usize = data.len();
    let mut j: usize = 0;
    while j < 8
        invariant
            j <= 8,
            hash@.len() == DIGEST_LEN,
            l == spec_len_shift(data@.len() as int, j as int),
            forall|m: int|
                0 <= m < j ==> hash@[m] == (((folded[m] as int) + len_digit(
                    data@.len() as int,
                    m,
                )) % 256) as u8,
            forall|m: int| j <= m < DIGEST_LEN ==> hash@[m] == folded[m],
        decreases 8 - j,
    {
        let digit = (l % 256) as u8;
        proof {
            lemma_len_digit_shift(data@.len() as int, j as int);
        }
        let x = (((hash[j] as usize) + (digit as usize)) % 256) as u8;
        hash[j] = x;
        l = l / 256;
        j += 1;
    }

    let r = Digest { bytes: hash };
    assert(r@ =~= digest_spec(data@));
    r
}

/// The input length with its first `j` base-256 digits shifted away.
pub open spec fn spec_len_shift(len: int, j: int) -> int
    decreases j,
{
    if j <= 0 {
        len
    } else {
        spec_len_shift(len, j - 1) / 256
    }
}

/// Digit `j` of `len` is the low digit of the `j`-times-shifted length.
proof fn lemma_len_digit_shift(len: int, j: int)
    requires
        0 <= j,
    ensures
        len_digit(len, j) == spec_len_shift(len, j) % 256,
    decreases j,
{
    if j > 0 {
        lemma_len_digit_shift(len / 256, j - 1);
        lemma_shift_commute(len, j - 1);
    }
}

/// Shifting then dividing equals dividing then shifting.
proof fn lemma_shift_commute(len: int, j: int)
    requires
        0 <= j,
    ensures
        spec_len_shift(len / 256, j) == spec_len_shift(len, j + 1),
    decreases j,
{
    assert(spec_len_shift(len, j + 1) == spec_len_shift(len, j) / 256);
    if j > 0 {
        lemma_shift_commute(len, j - 1);
        assert(spec_len_shift(len / 256, j) == spec_len_shift(len / 256, j - 1) / 256);
    }
}

} // verus!
