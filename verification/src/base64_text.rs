//! Base64 with the standard alphabet: what the texts are, and that no two byte
//! strings share one.
use base64::Engine;
use vstd::prelude::*;

verus! {

/// The character for the six bits `v`.
pub open spec fn sextet_char(v: int) -> char {
    if v < 26 {
        (65 + v) as char
    } else if v < 52 {
        (71 + v) as char
    } else if v < 62 {
        (v - 4) as char
    } else if v == 62 {
        '+'
    } else {
        '/'
    }
}

/// The unpadded base64 text of `bytes`: four characters for three bytes, then
/// two or three for what is left.
pub open spec fn base64_unpadded(bytes: Seq<u8>) -> Seq<char>
    decreases bytes.len(),
{
    if bytes.len() == 0 {
        seq![]
    } else if bytes.len() == 1 {
        seq![sextet_char(bytes[0] as int / 4), sextet_char(bytes[0] as int % 4 * 16)]
    } else if bytes.len() == 2 {
        seq![
            sextet_char(bytes[0] as int / 4),
            sextet_char(bytes[0] as int % 4 * 16 + bytes[1] as int / 16),
            sextet_char(bytes[1] as int % 16 * 4),
        ]
    } else {
        seq![
            sextet_char(bytes[0] as int / 4),
            sextet_char(bytes[0] as int % 4 * 16 + bytes[1] as int / 16),
            sextet_char(bytes[1] as int % 16 * 4 + bytes[2] as int / 64),
            sextet_char(bytes[2] as int % 64),
        ] + base64_unpadded(bytes.skip(3))
    }
}

/// The base64 text of `bytes`, filled up with `=` to a multiple of four.
pub open spec fn base64_padded(bytes: Seq<u8>) -> Seq<char> {
    base64_unpadded(bytes) + Seq::new(((3 - bytes.len() % 3) % 3) as nat, |i: int| '=')
}

/// The character tells the six bits.
proof fn lemma_sextet_char_is_injective(v: int, w: int)
    requires
        0 <= v < 64,
        0 <= w < 64,
        sextet_char(v) == sextet_char(w),
    ensures
        v == w,
{
}

/// How long an unpadded text is.
pub proof fn base64_unpadded_length(bytes: Seq<u8>)
    ensures
        base64_unpadded(bytes).len() == (4 * bytes.len() + 2) / 3,
    decreases bytes.len(),
{
    if bytes.len() >= 3 {
        base64_unpadded_length(bytes.skip(3));
    }
}

/// The first characters of an unpadded text, and what follows them.
proof fn lemma_unpadded_front(bytes: Seq<u8>)
    requires
        bytes.len() > 0,
    ensures
        base64_unpadded(bytes)[0] == sextet_char(bytes[0] as int / 4),
        bytes.len() == 1 ==> base64_unpadded(bytes)[1] == sextet_char(bytes[0] as int % 4 * 16),
        bytes.len() >= 2 ==> base64_unpadded(bytes)[1] == sextet_char(
            bytes[0] as int % 4 * 16 + bytes[1] as int / 16,
        ),
        bytes.len() == 2 ==> base64_unpadded(bytes)[2] == sextet_char(bytes[1] as int % 16 * 4),
        bytes.len() >= 3 ==> base64_unpadded(bytes)[2] == sextet_char(
            bytes[1] as int % 16 * 4 + bytes[2] as int / 64,
        ),
        bytes.len() >= 3 ==> base64_unpadded(bytes)[3] == sextet_char(bytes[2] as int % 64),
        bytes.len() >= 3 ==> base64_unpadded(bytes).skip(4) == base64_unpadded(bytes.skip(3)),
{
    if bytes.len() >= 3 {
        assert(base64_unpadded(bytes).skip(4) =~= base64_unpadded(bytes.skip(3)));
    }
}

/// No two byte strings have the same unpadded base64 text.
pub proof fn base64_unpadded_is_injective(a: Seq<u8>, b: Seq<u8>)
    requires
        base64_unpadded(a) == base64_unpadded(b),
    ensures
        a == b,
    decreases a.len(),
{
    base64_unpadded_length(a);
    base64_unpadded_length(b);
    assert(a.len() == b.len());
    if a.len() == 0 {
        assert(a =~= b);
    } else {
        lemma_unpadded_front(a);
        lemma_unpadded_front(b);
        let (a0, b0) = (a[0] as int, b[0] as int);
        lemma_sextet_char_is_injective(a0 / 4, b0 / 4);
        if a.len() == 1 {
            lemma_sextet_char_is_injective(a0 % 4 * 16, b0 % 4 * 16);
            assert(a =~= b);
        } else {
            let (a1, b1) = (a[1] as int, b[1] as int);
            lemma_sextet_char_is_injective(a0 % 4 * 16 + a1 / 16, b0 % 4 * 16 + b1 / 16);
            if a.len() == 2 {
                lemma_sextet_char_is_injective(a1 % 16 * 4, b1 % 16 * 4);
                assert(a =~= b);
            } else {
                let (a2, b2) = (a[2] as int, b[2] as int);
                lemma_sextet_char_is_injective(a1 % 16 * 4 + a2 / 64, b1 % 16 * 4 + b2 / 64);
                lemma_sextet_char_is_injective(a2 % 64, b2 % 64);
                base64_unpadded_is_injective(a.skip(3), b.skip(3));
                assert forall|i: int| 0 <= i < a.len() implies a[i] == b[i] by {
                    if i >= 3 {
                        assert(a.skip(3)[i - 3] == b.skip(3)[i - 3]);
                    }
                }
                assert(a =~= b);
            }
        }
    }
}

/// `base64`'s `general_purpose::STANDARD.encode`: the padded base64 text of the
/// bytes.
#[verifier::external_body]
pub(crate) fn encode_padded(bytes: &[u8]) -> (r: String)
    ensures
        r@ == base64_padded(bytes@),
{
    base64::engine::general_purpose::STANDARD.encode(bytes)
}

} // verus!
