//! The hash by which a file is known again.
//!
//! Files up to a limit are hashed whole. Of larger ones the two ends are, with
//! the size.

use crate::types::Blake3Hash;
use vstd::prelude::*;

verus! {

/// Files above this size are hashed by their ends.
pub const LARGE_MEDIA_THRESHOLD: u64 = 536_870_912;

/// How much of each end is hashed.
pub const EDGE_CHUNK: u64 = 1_048_576;

/// The BLAKE3 digest of bytes.
pub uninterp spec fn blake3_digest(bytes: Seq<u8>) -> Seq<u8>;

/// Hashes by `blake3::hash`, the default hash function of BLAKE3: 32 bytes that
/// depend on the input alone.
#[verifier::external_body]
fn digest(bytes: &[u8]) -> (hash: [u8; 32])
    ensures
        hash@ == blake3_digest(bytes@),
{
    *blake3::hash(bytes).as_bytes()
}

/// What is read of a file to hash it.
#[derive(Clone, Copy, Debug, PartialEq, Eq, Structural)]
pub enum HashPlan {
    /// All of it.
    Whole,
    /// At most `chunk` bytes from the beginning and at most `chunk` bytes from
    /// `tail_start` on.
    Edges { chunk: u64, tail_start: u64 },
}

/// What is read of a file of a size to hash it.
pub fn plan_hash(size: u64) -> (plan: HashPlan)
    ensures
        size <= LARGE_MEDIA_THRESHOLD ==> plan == HashPlan::Whole,
        size > LARGE_MEDIA_THRESHOLD ==> plan == (HashPlan::Edges {
            chunk: EDGE_CHUNK,
            tail_start: (size - EDGE_CHUNK) as u64,
        }),
        plan == HashPlan::Whole <==> size <= 512 * 1024 * 1024,
        plan matches HashPlan::Edges { chunk, tail_start } ==> chunk == 1024 * 1024 && tail_start
            + chunk == size && chunk <= tail_start,
{
    if size <= LARGE_MEDIA_THRESHOLD {
        HashPlan::Whole
    } else {
        HashPlan::Edges { chunk: EDGE_CHUNK, tail_start: size - EDGE_CHUNK }
    }
}

/// The bytes of a number, the least significant first.
pub open spec fn le_bytes(n: u64) -> Seq<u8> {
    Seq::new(8, |k: int| (n as int / vstd::arithmetic::power::pow(256, k as nat) % 256) as u8)
}

fn push_le_bytes(bytes: &mut Vec<u8>, n: u64)
    ensures
        final(bytes)@ == old(bytes)@ + le_bytes(n),
{
    let ghost before = bytes@;
    let mut rest: u64 = n;
    let mut k: usize = 0;
    proof {
        vstd::arithmetic::power::lemma_pow0(256);
    }
    while k < 8
        invariant
            k <= 8,
            rest == n as int / vstd::arithmetic::power::pow(256, k as nat),
            vstd::arithmetic::power::pow(256, k as nat) > 0,
            bytes@ == before + le_bytes(n).take(k as int),
        decreases 8 - k,
    {
        bytes.push((rest % 256) as u8);
        proof {
            let p = vstd::arithmetic::power::pow(256, k as nat);
            reveal(vstd::arithmetic::power::pow);
            vstd::arithmetic::power::lemma_pow_adds(256, k as nat, 1);
            vstd::arithmetic::power::lemma_pow1(256);
            vstd::arithmetic::div_mod::lemma_div_denominator(n as int, p, 256);
            assert(bytes@ =~= before + le_bytes(n).take(k + 1));
        }
        rest = rest / 256;
        k += 1;
    }
    assert(le_bytes(n).take(8) =~= le_bytes(n));
}

/// The hash of a file that is hashed whole.
pub fn hash_whole(contents: &[u8]) -> (hash: Blake3Hash)
    ensures
        hash.0@ == blake3_digest(contents@),
{
    Blake3Hash(digest(contents))
}

/// The hash of a file that is hashed by its ends.
pub fn hash_edges(first: &[u8], last: &[u8], size: u64) -> (hash: Blake3Hash)
    ensures
        hash.0@ == blake3_digest(first@ + last@ + le_bytes(size)),
{
    let mut bytes: Vec<u8> = Vec::new();
    bytes.extend_from_slice(first);
    bytes.extend_from_slice(last);
    push_le_bytes(&mut bytes, size);
    assert(bytes@ =~= first@ + last@ + le_bytes(size));
    Blake3Hash(digest(bytes.as_slice()))
}

/// The size that goes into the hash can be read back: its eight bytes, the least
/// significant first, make it up. So files of different sizes with the same ends are
/// hashed from different bytes.
pub proof fn lemma_size_is_hashed(n: u64)
    ensures
        le_bytes(n).len() == 8,
        n == le_bytes(n)[0] + 0x100 * le_bytes(n)[1] + 0x1_0000 * le_bytes(n)[2] + 0x100_0000
            * le_bytes(n)[3] + 0x1_0000_0000 * le_bytes(n)[4] + 0x100_0000_0000 * le_bytes(n)[5]
            + 0x1_0000_0000_0000 * le_bytes(n)[6] + 0x100_0000_0000_0000 * le_bytes(n)[7],
{
    lemma_places();
    assert(n == n % 0x100 + 0x100 * (n / 0x100 % 0x100) + 0x1_0000 * (n / 0x1_0000 % 0x100)
        + 0x100_0000 * (n / 0x100_0000 % 0x100) + 0x1_0000_0000 * (n / 0x1_0000_0000 % 0x100)
        + 0x100_0000_0000 * (n / 0x100_0000_0000 % 0x100) + 0x1_0000_0000_0000 * (n
        / 0x1_0000_0000_0000 % 0x100) + 0x100_0000_0000_0000 * (n / 0x100_0000_0000_0000 % 0x100))
        by (bit_vector);
}

proof fn lemma_places()
    ensures
        vstd::arithmetic::power::pow(256, 0) == 1,
        vstd::arithmetic::power::pow(256, 1) == 0x100,
        vstd::arithmetic::power::pow(256, 2) == 0x1_0000,
        vstd::arithmetic::power::pow(256, 3) == 0x100_0000,
        vstd::arithmetic::power::pow(256, 4) == 0x1_0000_0000,
        vstd::arithmetic::power::pow(256, 5) == 0x100_0000_0000,
        vstd::arithmetic::power::pow(256, 6) == 0x1_0000_0000_0000,
        vstd::arithmetic::power::pow(256, 7) == 0x100_0000_0000_0000,
{
    vstd::arithmetic::power::lemma_pow0(256);
    vstd::arithmetic::power::lemma_pow1(256);
    vstd::arithmetic::power::lemma_pow_adds(256, 1, 1);
    vstd::arithmetic::power::lemma_pow_adds(256, 2, 1);
    vstd::arithmetic::power::lemma_pow_adds(256, 3, 1);
    vstd::arithmetic::power::lemma_pow_adds(256, 4, 1);
    vstd::arithmetic::power::lemma_pow_adds(256, 5, 1);
    vstd::arithmetic::power::lemma_pow_adds(256, 6, 1);
}

}
