//! Turning bytes into `String`s: the UTF-8 check that the lexer relies on,
//! and the ASCII and Latin-1 facts that make its text building total.

use vstd::prelude::*;
use vstd::utf8::*;
use vstd::slice::slice_subrange;
use vstd::slice::slice_to_vec;

verus! {

/// The chars of a byte sequence read one byte per char (ASCII / Latin-1).
pub open spec fn byte_chars(bytes: Seq<u8>) -> Seq<char> {
    bytes.map_values(|b: u8| b as char)
}

/// Every byte is below 0x80.
pub open spec fn all_ascii(bytes: Seq<u8>) -> bool {
    forall|i: int| 0 <= i < bytes.len() ==> #[trigger] bytes[i] < 0x80
}

/// `String::from_utf8`: the bytes become a `String` exactly when they are
/// valid UTF-8 (std documents the `Err` case as "not UTF-8"), and the
/// `String` then holds those bytes, so its chars are their UTF-8 decoding.
#[verifier::external_body]
pub(crate) fn string_from_utf8(bytes: Vec<u8>) -> (r: Option<String>)
    ensures
        r is Some <==> valid_utf8(bytes@),
        r matches Some(s) ==> s@ == decode_utf8(bytes@),
{
    String::from_utf8(bytes).ok()
}

/// ASCII bytes are valid UTF-8 and decode one char per byte.
pub proof fn lemma_ascii_utf8(bytes: Seq<u8>)
    requires
        all_ascii(bytes),
    ensures
        valid_utf8(bytes),
        decode_utf8(bytes) == byte_chars(bytes),
    decreases bytes.len(),
{
    if bytes.len() > 0 {
        let b = bytes[0];
        assert(b < 0x80);
        assert((b & 0x7f) as u32 == b as u32) by (bit_vector)
            requires
                b < 0x80,
        ;
        assert(valid_first_scalar(bytes));
        let rest = pop_first_scalar(bytes);
        assert(rest =~= bytes.subrange(1, bytes.len() as int));
        assert(all_ascii(rest)) by {
            assert forall|i: int| 0 <= i < rest.len() implies #[trigger] rest[i] < 0x80 by {
                assert(rest[i] == bytes[i + 1]);
            }
        }
        lemma_ascii_utf8(rest);
        assert(decode_utf8(bytes) =~= byte_chars(bytes));
    } else {
        assert(decode_utf8(bytes) =~= byte_chars(bytes));
    }
}

/// A `String` holding the ASCII bytes `src[start..end]`.
pub(crate) fn ascii_string(src: &[u8], start: usize, end: usize) -> (s: String)
    requires
        start <= end <= src@.len(),
        all_ascii(src@.subrange(start as int, end as int)),
    ensures
        s@ == byte_chars(src@.subrange(start as int, end as int)),
{
    let bytes = slice_to_vec(slice_subrange(src, start, end));
    proof {
        lemma_ascii_utf8(bytes@);
    }
    match string_from_utf8(bytes) {
        Some(s) => s,
        None => {
            proof {
                assert(false);
            }
            String::new()
        },
    }
}

/// A one-char `String` holding the char whose code is the byte `b`
/// (what `b as char` gives).
pub(crate) fn byte_char_string(b: u8) -> (s: String)
    ensures
        s@ == seq![b as char],
{
    let mut bytes: Vec<u8> = Vec::new();
    if b < 0x80 {
        bytes.push(b);
        proof {
            assert(all_ascii(bytes@));
            lemma_ascii_utf8(bytes@);
            assert(byte_chars(bytes@) =~= seq![b as char]);
        }
    } else {
        let lead: u8 = 0xc0 | (b >> 6u8);
        let cont: u8 = 0x80 | (b & 0x3f);
        bytes.push(lead);
        bytes.push(cont);
        proof {
            assert(0xc0 <= lead <= 0xdf && 0x80 <= cont <= 0xbf && ((((lead & 0x1f) as u32)
                << 6u32) | ((cont & 0x3f) as u32)) == b as u32) by (bit_vector)
                requires
                    b >= 0x80,
                    lead == 0xc0 | (b >> 6u8),
                    cont == 0x80 | (b & 0x3f),
            ;
            let bs = bytes@;
            assert(bs[0] == lead && bs[1] == cont);
            assert(decode_first_codepoint(bs) == b as u32);
            assert(valid_first_scalar(bs));
            assert(pop_first_scalar(bs) =~= Seq::<u8>::empty());
            assert(valid_utf8(pop_first_scalar(bs)));
            assert(valid_utf8(bs));
            assert(decode_utf8(pop_first_scalar(bs)) =~= Seq::<char>::empty());
            assert(decode_utf8(bs) =~= seq![b as char]);
        }
    }
    match string_from_utf8(bytes) {
        Some(s) => s,
        None => {
            proof {
                assert(false);
            }
            String::new()
        },
    }
}

} // verus!
