//! 64-bit FNV-1a identities for archives and for the files they contain.

use vstd::prelude::*;
use vstd::string::StringSliceAdditionalSpecFns;

verus! {

/// The value every FNV-1a 64-bit hash starts from.
pub const FNV_OFFSET_BASIS: u64 = 0xcbf29ce484222325;

/// The multiplier applied after every byte.
pub const FNV_PRIME: u64 = 0x100000001b3;

/// FNV-1a over a byte sequence: starting from the offset basis, each byte is
/// xor-ed into the hash, which is then multiplied by the prime modulo 2^64.
pub open spec fn fnv1a64(bytes: Seq<u8>) -> u64
    decreases bytes.len(),
{
    if bytes.len() == 0 {
        FNV_OFFSET_BASIS
    } else {
        (fnv1a64(bytes.drop_last()) ^ (bytes.last() as u64)).wrapping_mul(FNV_PRIME)
    }
}

/// Hashes a byte slice with FNV-1a.
pub fn hash_bytes(bytes: &[u8]) -> (hash: u64)
    ensures
        hash == fnv1a64(bytes@),
{
    let mut hash: u64 = FNV_OFFSET_BASIS;
    let mut i: usize = 0;
    while i < bytes.len()
        invariant
            i <= bytes.len(),
            hash == fnv1a64(bytes@.subrange(0, i as int)),
        decreases bytes.len() - i,
    {
        proof {
            let next = bytes@.subrange(0, i + 1);
            assert(next.drop_last() == bytes@.subrange(0, i as int));
            assert(next.last() == bytes@[i as int]);
        }
        hash = (hash ^ (bytes[i] as u64)).wrapping_mul(FNV_PRIME);
        i += 1;
    }
    proof {
        assert(bytes@.subrange(0, i as int) == bytes@);
    }
    hash
}

/// The identity of a file inside an archive: FNV-1a over the UTF-8 bytes of
/// its name.
pub fn hash_name(name: &str) -> (hash: u64)
    ensures
        hash == fnv1a64(name.spec_bytes()),
{
    hash_bytes(name.as_bytes())
}

/// The identity of an archive: FNV-1a over the UTF-8 bytes of the string form
/// of its path.
pub fn hash_path(path: &str) -> (hash: u64)
    ensures
        hash == fnv1a64(path.spec_bytes()),
{
    hash_bytes(path.as_bytes())
}

} // verus!
