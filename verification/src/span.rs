//! Byte-exact source locations and their FNV-1a key.

use vstd::prelude::*;

verus! {

/// 64-bit FNV-1a offset basis.
pub const FNV_OFFSET: u64 = 0xcbf29ce484222325;

/// 64-bit FNV-1a prime.
pub const FNV_PRIME: u64 = 0x100000001b3;

/// Byte-exact source location. This is the feedback loop's unique key:
/// stable across recompiles as long as the source at this location is
/// unchanged. The key is FNV-1a over `file_hash ^ line ^ col`.
#[derive(Debug, Clone, Copy, PartialEq, Eq, Hash)]
pub struct SourceSpan {
    pub file_hash: u64,
    pub line: u32,
    pub col: u32,
    pub byte_offset: u32,
    pub length: u32,
}

/// One FNV-1a round: xor the byte in, then multiply by the prime modulo 2^64.
pub open spec fn fnv1a_step(h: u64, b: u8) -> u64 {
    (h ^ (b as u64)).wrapping_mul(FNV_PRIME)
}

/// FNV-1a of a byte sequence, starting from the offset basis.
pub open spec fn fnv1a(bytes: Seq<u8>) -> u64
    decreases bytes.len(),
{
    if bytes.len() == 0 {
        FNV_OFFSET
    } else {
        fnv1a_step(fnv1a(bytes.drop_last()), bytes.last())
    }
}

/// The eight bytes of `x`, least significant first.
pub open spec fn le_bytes(x: u64) -> Seq<u8> {
    seq![
        ((x >> 0u64) & 0xff) as u8,
        ((x >> 8u64) & 0xff) as u8,
        ((x >> 16u64) & 0xff) as u8,
        ((x >> 24u64) & 0xff) as u8,
        ((x >> 32u64) & 0xff) as u8,
        ((x >> 40u64) & 0xff) as u8,
        ((x >> 48u64) & 0xff) as u8,
        ((x >> 56u64) & 0xff) as u8,
    ]
}

/// The pattern-memory key of a location: FNV-1a of the little-endian bytes of
/// `file_hash ^ line ^ col`.
pub open spec fn span_key(file_hash: u64, line: u32, col: u32) -> u64 {
    fnv1a(le_bytes(file_hash ^ (line as u64) ^ (col as u64)))
}

fn fnv1a_round(h: u64, b: u8) -> (r: u64)
    ensures
        r == fnv1a_step(h, b),
{
    (h ^ (b as u64)).wrapping_mul(FNV_PRIME)
}

impl SourceSpan {
    /// FNV-1a hash used as the pattern_memory.db key.
    pub fn hash(&self) -> (h: u64)
        ensures
            h == span_key(self.file_hash, self.line, self.col),
            h == fnv1a(le_bytes(self.file_hash ^ (self.line as u64) ^ (self.col as u64))),
    {
        let mixed = self.file_hash ^ (self.line as u64) ^ (self.col as u64);
        let ghost bytes = le_bytes(mixed);
        let mut h = FNV_OFFSET;
        let mut shift: u64 = 0;
        while shift < 64
            invariant
                shift % 8 == 0,
                shift <= 64,
                bytes == le_bytes(mixed),
                h == fnv1a(bytes.take((shift / 8) as int)),
            decreases 64 - shift,
        {
            let b = #[verifier::truncate] (((mixed >> shift) & 0xff) as u8);
            proof {
                let i = (shift / 8) as int;
                if shift == 0 {
                } else if shift == 8 {
                } else if shift == 16 {
                } else if shift == 24 {
                } else if shift == 32 {
                } else if shift == 40 {
                } else if shift == 48 {
                } else {
                    assert(shift == 56);
                }
                assert(b == bytes[i]);
                assert(bytes.take(i + 1).drop_last() =~= bytes.take(i));
            }
            h = fnv1a_round(h, b);
            shift = shift + 8;
        }
        proof {
            assert(bytes.take(8) =~= bytes);
        }
        h
    }
}

/// The key of a location depends on its file, line and column alone: two
/// spans that agree on those three fields get the same hash, whatever their
/// byte offsets and lengths.
pub proof fn lemma_span_key_ignores_extent(a: SourceSpan, b: SourceSpan)
    requires
        a.file_hash == b.file_hash,
        a.line == b.line,
        a.col == b.col,
    ensures
        span_key(a.file_hash, a.line, a.col) == span_key(b.file_hash, b.line, b.col),
{
}

/// The key is FNV-1a over the eight little-endian bytes of the file hash
/// xor-ed with the whole line and the whole column: it equals the key of the
/// location whose file hash is that mix and whose line and column are 0.
pub proof fn lemma_span_key_mixes_whole_fields(file_hash: u64, line: u32, col: u32)
    ensures
        span_key(file_hash, line, col) == fnv1a(
            le_bytes(file_hash ^ (line as u64) ^ (col as u64)),
        ),
        span_key(file_hash, line, col) == span_key(file_hash ^ (line as u64) ^ (col as u64), 0, 0),
{
    let x = file_hash ^ (line as u64) ^ (col as u64);
    assert(x ^ (0u32 as u64) ^ (0u32 as u64) == x) by (bit_vector);
}

/// Little-endian bytes lose nothing: distinct values give distinct bytes.
pub proof fn lemma_le_bytes_injective(x: u64, y: u64)
    ensures
        le_bytes(x) == le_bytes(y) ==> x == y,
{
    if le_bytes(x) == le_bytes(y) {
        assert(le_bytes(x)[0] == le_bytes(y)[0]);
        assert(le_bytes(x)[1] == le_bytes(y)[1]);
        assert(le_bytes(x)[2] == le_bytes(y)[2]);
        assert(le_bytes(x)[3] == le_bytes(y)[3]);
        assert(le_bytes(x)[4] == le_bytes(y)[4]);
        assert(le_bytes(x)[5] == le_bytes(y)[5]);
        assert(le_bytes(x)[6] == le_bytes(y)[6]);
        assert(le_bytes(x)[7] == le_bytes(y)[7]);
        assert(x == y) by (bit_vector)
            requires
                ((x >> 0u64) & 0xff) as u8 == ((y >> 0u64) & 0xff) as u8,
                ((x >> 8u64) & 0xff) as u8 == ((y >> 8u64) & 0xff) as u8,
                ((x >> 16u64) & 0xff) as u8 == ((y >> 16u64) & 0xff) as u8,
                ((x >> 24u64) & 0xff) as u8 == ((y >> 24u64) & 0xff) as u8,
                ((x >> 32u64) & 0xff) as u8 == ((y >> 32u64) & 0xff) as u8,
                ((x >> 40u64) & 0xff) as u8 == ((y >> 40u64) & 0xff) as u8,
                ((x >> 48u64) & 0xff) as u8 == ((y >> 48u64) & 0xff) as u8,
                ((x >> 56u64) & 0xff) as u8 == ((y >> 56u64) & 0xff) as u8,
        ;
    }
}

/// Two locations in one file that differ in their line alone, or in their
/// column alone, have their keys computed over different bytes.
pub proof fn lemma_span_key_inputs_differ(file_hash: u64, l1: u32, c1: u32, l2: u32, c2: u32)
    requires
        (l1 != l2 && c1 == c2) || (l1 == l2 && c1 != c2),
    ensures
        le_bytes(file_hash ^ (l1 as u64) ^ (c1 as u64)) != le_bytes(
            file_hash ^ (l2 as u64) ^ (c2 as u64),
        ),
{
    lemma_le_bytes_injective(
        file_hash ^ (l1 as u64) ^ (c1 as u64),
        file_hash ^ (l2 as u64) ^ (c2 as u64),
    );
    assert((file_hash ^ (l1 as u64) ^ (c1 as u64)) != (file_hash ^ (l2 as u64) ^ (c2 as u64)))
        by (bit_vector)
        requires
            (l1 != l2 && c1 == c2) || (l1 == l2 && c1 != c2),
    ;
}

} // verus!
