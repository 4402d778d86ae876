use vstd::prelude::*;

verus! {

/// Starting value of the 64-bit FNV-1a digest.
pub const FNV_OFFSET: u64 = 0xcbf2_9ce4_8422_2325;

/// Multiplier of the 64-bit FNV-1a digest.
pub const FNV_PRIME: u64 = 0x0000_0100_0000_01b3;

/// One FNV-1a round: fold one word into the running state.
pub open spec fn mix(h: u64, w: u64) -> u64 {
    (h ^ w).wrapping_mul(FNV_PRIME)
}

/// Digest of a byte sequence (FNV-1a over its bytes).
pub open spec fn digest_of(s: Seq<u8>) -> u64
    decreases s.len(),
{
    if s.len() == 0 {
        FNV_OFFSET
    } else {
        mix(digest_of(s.drop_last()), s.last() as u64)
    }
}

/// Whole-file digest, derived from the sequence of chunk digests.
pub open spec fn combined_of(hs: Seq<u64>) -> u64
    decreases hs.len(),
{
    if hs.len() == 0 {
        FNV_OFFSET
    } else {
        mix(combined_of(hs.drop_last()), hs.last())
    }
}

/// Digest of a chunk of bytes.
pub fn digest(data: &[u8]) -> (r: u64)
    ensures
        r == digest_of(data@),
{
    let mut h: u64 = FNV_OFFSET;
    let mut i: usize = 0;
    while i < data.len()
        invariant
            i <= data@.len(),
            h == digest_of(data@.subrange(0, i as int)),
        decreases data@.len() - i,
    {
        assert(data@.subrange(0, i + 1).drop_last() =~= data@.subrange(0, i as int));
        h = (h ^ (data[i] as u64)).wrapping_mul(FNV_PRIME);
        i = i + 1;
    }
    assert(data@.subrange(0, i as int) =~= data@);
    h
}

/// Whole-file digest computed from the chunk digests in order.
pub fn combine(hashes: &[u64]) -> (r: u64)
    ensures
        r == combined_of(hashes@),
{
    let mut h: u64 = FNV_OFFSET;
    let mut i: usize = 0;
    while i < hashes.len()
        invariant
            i <= hashes@.len(),
            h == combined_of(hashes@.subrange(0, i as int)),
        decreases hashes@.len() - i,
    {
        assert(hashes@.subrange(0, i + 1).drop_last() =~= hashes@.subrange(0, i as int));
        h = (h ^ hashes[i]).wrapping_mul(FNV_PRIME);
        i = i + 1;
    }
    assert(hashes@.subrange(0, i as int) =~= hashes@);
    h
}

} // verus!
