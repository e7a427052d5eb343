use c0m::SourceSpan;

fn fnv1a(bytes: &[u8]) -> u64 {
    let mut h: u64 = 0xcbf29ce484222325;
    for b in bytes {
        h ^= *b as u64;
        h = h.wrapping_mul(0x100000001b3);
    }
    h
}

#[test]
fn hash_is_fnv1a_of_file_line_col() {
    let sp = SourceSpan { file_hash: 0x1234_5678_9abc_def0, line: 7, col: 3, byte_offset: 40, length: 2 };
    let mixed: u64 = 0x1234_5678_9abc_def0 ^ 7 ^ 3;
    assert_eq!(sp.hash(), fnv1a(&mixed.to_le_bytes()));
}

#[test]
fn hash_of_zero_key() {
    // FNV-1a of eight zero bytes.
    let sp = SourceSpan { file_hash: 0, line: 0, col: 0, byte_offset: 0, length: 0 };
    assert_eq!(sp.hash(), 0xa8c7f832281a39c5);
}

#[test]
fn hash_ignores_offset_and_length() {
    let a = SourceSpan { file_hash: 99, line: 3, col: 14, byte_offset: 10, length: 1 };
    let b = SourceSpan { file_hash: 99, line: 3, col: 14, byte_offset: 500, length: 77 };
    assert_eq!(a.hash(), b.hash());
    let c = SourceSpan { file_hash: 99, line: 3, col: 15, byte_offset: 10, length: 1 };
    assert_ne!(a.hash(), c.hash());
}
