//! Unicode bidirectional control characters (Trojan Source): which they
//! are, how their UTF-8 encodings are recognised in a byte sequence, and how
//! a byte position of such an encoding corresponds to a character of the
//! text.

use vstd::prelude::*;
use vstd::utf8::*;

verus! {

/// The Unicode bidirectional control characters that Trojan Source attacks
/// use: U+202A, U+202B, U+202D, U+202E, U+2066-U+2069 and U+200F.
pub open spec fn bidi_controls() -> Seq<char> {
    seq![
        '\u{202A}',
        '\u{202B}',
        '\u{202D}',
        '\u{202E}',
        '\u{2066}',
        '\u{2067}',
        '\u{2068}',
        '\u{2069}',
        '\u{200F}',
    ]
}

/// The bytes `src[i..i + 3]` are the UTF-8 encoding of a bidi control
/// character.
pub open spec fn bidi_at(src: Seq<u8>, i: int) -> bool {
    &&& 0 <= i
    &&& i + 3 <= src.len()
    &&& exists|k: int|
        0 <= k < bidi_controls().len() && src.subrange(i, i + 3) == encode_scalar(
            #[trigger] bidi_controls()[k] as u32,
        )
}

/// `c` is one of the bidi control characters.
pub open spec fn is_bidi_control(c: char) -> bool {
    bidi_controls().contains(c)
}

/// The byte offset at which char `j` of `s` starts in its UTF-8 encoding.
pub open spec fn char_offset(s: Seq<char>, j: int) -> int {
    encode_utf8(s.take(j)).len() as int
}

proof fn lemma_encode_head(s: Seq<char>)
    requires
        s.len() > 0,
    ensures
        encode_utf8(s) == encode_scalar(s[0] as u32) + encode_utf8(s.drop_first()),
        1 <= encode_scalar(s[0] as u32).len() <= 4,
{
}

proof fn lemma_char_offset_step(s: Seq<char>, j: int)
    requires
        0 <= j < s.len(),
    ensures
        char_offset(s, j + 1) == encode_scalar(s[0] as u32).len() + char_offset(
            s.drop_first(),
            j,
        ),
        char_offset(s, 0) == 0,
{
    assert(s.take(j + 1).drop_first() =~= s.drop_first().take(j));
    assert(s.take(j + 1)[0] == s[0]);
    assert(s.take(0) =~= Seq::<char>::empty());
}

/// Char offsets grow strictly with the char index.
pub proof fn lemma_char_offset_increasing(s: Seq<char>, j: int, k: int)
    requires
        0 <= j < k <= s.len(),
    ensures
        char_offset(s, j) < char_offset(s, k),
    decreases s.len(),
{
    lemma_encode_head(s);
    lemma_char_offset_step(s, k - 1);
    if j > 0 {
        lemma_char_offset_step(s, j - 1);
        lemma_char_offset_increasing(s.drop_first(), j - 1, k - 1);
    } else {
        assert(s.take(0) =~= Seq::<char>::empty());
    }
}

/// A bidi control encoding starts at byte 0 of an encoded char sequence
/// exactly when its first char is a bidi control.
pub proof fn lemma_bidi_at_head(s: Seq<char>)
    requires
        s.len() > 0,
    ensures
        bidi_at(encode_utf8(s), 0) <==> is_bidi_control(s[0]),
{
    let bytes = encode_utf8(s);
    let cs = bidi_controls();
    lemma_encode_head(s);
    encode_utf8_first_scalar(s);
    lemma_bidi_encodings();
    lemma_bidi_codes();
    if is_bidi_control(s[0]) {
        let k = choose|k: int| 0 <= k < cs.len() && cs[k] == s[0];
        assert(encode_scalar(s[0] as u32).len() == 3);
        assert(bytes.subrange(0, 3) =~= encode_scalar(cs[k] as u32));
    }
    if bidi_at(bytes, 0) {
        let k = choose|k: int|
            0 <= k < cs.len() && bytes.subrange(0, 3) == encode_scalar(#[trigger] cs[k] as u32);
        let c = cs[k];
        let e = encode_scalar(c as u32);
        assert(e.len() == 3 && e[0] == 0xe2u8);
        assert(bytes[0] == e[0] && bytes[1] == e[1] && bytes[2] == e[2]);
        // Both decode as three-byte sequences with the same bytes.
        let one = seq![c];
        lemma_encode_head(one);
        assert(one.drop_first() =~= Seq::<char>::empty());
        assert(encode_utf8(one) =~= e);
        encode_utf8_first_scalar(one);
        assert(decode_first_scalar(bytes) == decode_first_scalar(e));
        char_u32_cast(s[0], s[0] as u32);
        char_u32_cast(c, c as u32);
        assert(s[0] == c);
        assert(cs.contains(s[0]));
    }
}

/// No bidi control encoding starts inside the encoding of the first char.
proof fn lemma_no_bidi_inside_head(s: Seq<char>, i: int)
    requires
        s.len() > 0,
        0 < i < encode_scalar(s[0] as u32).len(),
    ensures
        !bidi_at(encode_utf8(s), i),
{
    let bytes = encode_utf8(s);
    let cs = bidi_controls();
    lemma_encode_head(s);
    encode_utf8_first_scalar(s);
    lemma_bidi_encodings();
    assert(is_continuation_byte(bytes[i]));
    if bidi_at(bytes, i) {
        let k = choose|k: int|
            0 <= k < cs.len() && bytes.subrange(i, i + 3) == encode_scalar(#[trigger] cs[k] as u32);
        lemma_bidi_codes();
        assert(encode_scalar(cs[k] as u32)[0] == 0xe2u8);
        assert(bytes.subrange(i, i + 3)[0] == bytes[i]);
    }
}

/// Past the first char, bidi encodings are those of the remaining chars.
proof fn lemma_bidi_at_tail(s: Seq<char>, i: int)
    requires
        s.len() > 0,
        encode_scalar(s[0] as u32).len() <= i,
    ensures
        bidi_at(encode_utf8(s), i) <==> bidi_at(
            encode_utf8(s.drop_first()),
            i - encode_scalar(s[0] as u32).len(),
        ),
{
    let w = encode_scalar(s[0] as u32).len() as int;
    let bytes = encode_utf8(s);
    let rest = encode_utf8(s.drop_first());
    lemma_encode_head(s);
    if i + 3 <= bytes.len() {
        assert(bytes.subrange(i, i + 3) =~= rest.subrange(i - w, i - w + 3));
    }
}

/// Over the UTF-8 bytes of a char sequence, a bidi control encoding starts
/// at byte `i` exactly when `i` is the offset of a char that is a bidi
/// control.
pub proof fn lemma_bidi_at_char(s: Seq<char>, i: int)
    ensures
        bidi_at(encode_utf8(s), i) <==> exists|j: int|
            0 <= j < s.len() && #[trigger] is_bidi_control(s[j]) && i == char_offset(s, j),
    decreases s.len(),
{
    if s.len() == 0 {
        assert(encode_utf8(s).len() == 0);
    } else {
        let w = encode_scalar(s[0] as u32).len() as int;
        let t = s.drop_first();
        lemma_encode_head(s);
        lemma_char_offset_step(s, 0);
        assert forall|j: int| 1 <= j <= s.len() implies #[trigger] char_offset(s, j) >= w by {
            lemma_char_offset_step(s, j - 1);
        }
        if i < 0 {
        } else if i == 0 {
            lemma_bidi_at_head(s);
            if is_bidi_control(s[0]) {
                assert(0 == char_offset(s, 0));
            }
        } else if i < w {
            lemma_no_bidi_inside_head(s, i);
        } else {
            lemma_bidi_at_tail(s, i);
            lemma_bidi_at_char(t, i - w);
            if bidi_at(encode_utf8(s), i) {
                let j2 = choose|j: int|
                    0 <= j < t.len() && #[trigger] is_bidi_control(t[j]) && i - w == char_offset(
                        t,
                        j,
                    );
                lemma_char_offset_step(s, j2);
                assert(s[j2 + 1] == t[j2]);
                assert(is_bidi_control(s[j2 + 1]));
            }
            if exists|j: int|
                0 <= j < s.len() && #[trigger] is_bidi_control(s[j]) && i == char_offset(s, j) {
                let j = choose|j: int|
                    0 <= j < s.len() && #[trigger] is_bidi_control(s[j]) && i == char_offset(s, j);
                assert(j >= 1);
                lemma_char_offset_step(s, j - 1);
                assert(t[j - 1] == s[j]);
                assert(is_bidi_control(t[j - 1]));
            }
        }
    }
}

/// The code points of the bidi control characters, in list order.
pub proof fn lemma_bidi_codes()
    ensures
        bidi_controls().len() == 9,
        bidi_controls()[0] as u32 == 0x202Au32,
        bidi_controls()[1] as u32 == 0x202Bu32,
        bidi_controls()[2] as u32 == 0x202Du32,
        bidi_controls()[3] as u32 == 0x202Eu32,
        bidi_controls()[4] as u32 == 0x2066u32,
        bidi_controls()[5] as u32 == 0x2067u32,
        bidi_controls()[6] as u32 == 0x2068u32,
        bidi_controls()[7] as u32 == 0x2069u32,
        bidi_controls()[8] as u32 == 0x200Fu32,
{
}

/// The UTF-8 encodings of the bidi control characters.
pub proof fn lemma_bidi_encodings()
    ensures
        encode_scalar(0x202Au32) == seq![0xe2u8, 0x80u8, 0xaau8],
        encode_scalar(0x202Bu32) == seq![0xe2u8, 0x80u8, 0xabu8],
        encode_scalar(0x202Du32) == seq![0xe2u8, 0x80u8, 0xadu8],
        encode_scalar(0x202Eu32) == seq![0xe2u8, 0x80u8, 0xaeu8],
        encode_scalar(0x2066u32) == seq![0xe2u8, 0x81u8, 0xa6u8],
        encode_scalar(0x2067u32) == seq![0xe2u8, 0x81u8, 0xa7u8],
        encode_scalar(0x2068u32) == seq![0xe2u8, 0x81u8, 0xa8u8],
        encode_scalar(0x2069u32) == seq![0xe2u8, 0x81u8, 0xa9u8],
        encode_scalar(0x200Fu32) == seq![0xe2u8, 0x80u8, 0x8fu8],
{
    assert(
        leading_byte_width_3(0x202Au32) == 0xe2u8
        && second_last_continuation_byte(0x202Au32) == 0x80u8
        && last_continuation_byte(0x202Au32) == 0xaau8
        && leading_byte_width_3(0x202Bu32) == 0xe2u8
        && second_last_continuation_byte(0x202Bu32) == 0x80u8
        && last_continuation_byte(0x202Bu32) == 0xabu8
        && leading_byte_width_3(0x202Du32) == 0xe2u8
        && second_last_continuation_byte(0x202Du32) == 0x80u8
        && last_continuation_byte(0x202Du32) == 0xadu8
        && leading_byte_width_3(0x202Eu32) == 0xe2u8
        && second_last_continuation_byte(0x202Eu32) == 0x80u8
        && last_continuation_byte(0x202Eu32) == 0xaeu8
        && leading_byte_width_3(0x2066u32) == 0xe2u8
        && second_last_continuation_byte(0x2066u32) == 0x81u8
        && last_continuation_byte(0x2066u32) == 0xa6u8
        && leading_byte_width_3(0x2067u32) == 0xe2u8
        && second_last_continuation_byte(0x2067u32) == 0x81u8
        && last_continuation_byte(0x2067u32) == 0xa7u8
        && leading_byte_width_3(0x2068u32) == 0xe2u8
        && second_last_continuation_byte(0x2068u32) == 0x81u8
        && last_continuation_byte(0x2068u32) == 0xa8u8
        && leading_byte_width_3(0x2069u32) == 0xe2u8
        && second_last_continuation_byte(0x2069u32) == 0x81u8
        && last_continuation_byte(0x2069u32) == 0xa9u8
        && leading_byte_width_3(0x200Fu32) == 0xe2u8
        && second_last_continuation_byte(0x200Fu32) == 0x80u8
        && last_continuation_byte(0x200Fu32) == 0x8fu8
    ) by (bit_vector);
    assert(encode_scalar(0x202Au32) =~= seq![0xe2u8, 0x80u8, 0xaau8]);
    assert(encode_scalar(0x202Bu32) =~= seq![0xe2u8, 0x80u8, 0xabu8]);
    assert(encode_scalar(0x202Du32) =~= seq![0xe2u8, 0x80u8, 0xadu8]);
    assert(encode_scalar(0x202Eu32) =~= seq![0xe2u8, 0x80u8, 0xaeu8]);
    assert(encode_scalar(0x2066u32) =~= seq![0xe2u8, 0x81u8, 0xa6u8]);
    assert(encode_scalar(0x2067u32) =~= seq![0xe2u8, 0x81u8, 0xa7u8]);
    assert(encode_scalar(0x2068u32) =~= seq![0xe2u8, 0x81u8, 0xa8u8]);
    assert(encode_scalar(0x2069u32) =~= seq![0xe2u8, 0x81u8, 0xa9u8]);
    assert(encode_scalar(0x200Fu32) =~= seq![0xe2u8, 0x80u8, 0x8fu8]);
}

/// Whether a bidi control character is encoded at `src[i..i + 3]`.
pub(crate) fn bidi_bytes_at(src: &[u8], i: usize) -> (r: bool)
    requires
        i + 3 <= src@.len(),
    ensures
        r == bidi_at(src@, i as int),
{
    let b0 = src[i];
    let b1 = src[i + 1];
    let b2 = src[i + 2];
    let r = b0 == 0xe2 && ((b1 == 0x80 && (b2 == 0xaa || b2 == 0xab || b2 == 0xad || b2 == 0xae
        || b2 == 0x8f)) || (b1 == 0x81 && 0xa6 <= b2 && b2 <= 0xa9));
    proof {
        lemma_bidi_encodings();
        let t = src@.subrange(i as int, i + 3);
        let cs = bidi_controls();
        lemma_bidi_codes();
        if r {
            let k: int = if b1 == 0x80 {
                if b2 == 0xaa {
                    0
                } else if b2 == 0xab {
                    1
                } else if b2 == 0xad {
                    2
                } else if b2 == 0xae {
                    3
                } else {
                    8
                }
            } else {
                (b2 - 0xa6) + 4
            };
            assert(t =~= encode_scalar(cs[k] as u32));
        } else {
            assert forall|k: int| 0 <= k < cs.len() implies t != encode_scalar(
                #[trigger] cs[k] as u32,
            ) by {
                if t == encode_scalar(cs[k] as u32) {
                    assert(t[0] == b0 && t[1] == b1 && t[2] == b2);
                }
            }
        }
    }
    r
}


/// A bidi control encoding starts with the lead byte 0xE2 and holds no
/// newline.
pub proof fn lemma_bidi_at_bytes(src: Seq<u8>, i: int)
    requires
        bidi_at(src, i),
    ensures
        src[i] == 0xe2u8,
        src[i + 1] != 0x0au8,
        src[i + 2] != 0x0au8,
{
    let cs = bidi_controls();
    lemma_bidi_encodings();
    lemma_bidi_codes();
    let k = choose|k: int|
        0 <= k < cs.len() && src.subrange(i, i + 3) == encode_scalar(#[trigger] cs[k] as u32);
    assert(src[i] == src.subrange(i, i + 3)[0]);
    assert(src[i + 1] == src.subrange(i, i + 3)[1]);
    assert(src[i + 2] == src.subrange(i, i + 3)[2]);
}

} // verus!
