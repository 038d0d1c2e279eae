//! The keys that the decoders know, byte by byte.

use vstd::prelude::*;
use vstd::string::StringSliceAdditionalSpecFns;
use vstd::utf8::{encode_utf8, is_ascii_chars, is_ascii_chars_encode_utf8};

verus! {

/// The bytes of `announce`.
pub proof fn lemma_announce_key()
    ensures
        "announce".spec_bytes() == seq![0x61u8, 0x6e, 0x6e, 0x6f, 0x75, 0x6e, 0x63, 0x65],
{
    reveal_strlit("announce");
    let c = "announce"@;
    assert(c.len() == 8);
    assert(c[0] == 'a' && c[1] == 'n' && c[2] == 'n' && c[3] == 'o');
    assert(c[4] == 'u' && c[5] == 'n' && c[6] == 'c' && c[7] == 'e');
    assert(is_ascii_chars(c));
    is_ascii_chars_encode_utf8(c);
    let b = encode_utf8(c);
    assert(b[0] == c[0] as u8 && b[1] == c[1] as u8 && b[2] == c[2] as u8 && b[3] == c[3] as u8);
    assert(b[4] == c[4] as u8 && b[5] == c[5] as u8 && b[6] == c[6] as u8 && b[7] == c[7] as u8);
    assert(b =~= seq![0x61u8, 0x6e, 0x6e, 0x6f, 0x75, 0x6e, 0x63, 0x65]);
}

/// The bytes of `info`.
pub proof fn lemma_info_key()
    ensures
        "info".spec_bytes() == seq![0x69u8, 0x6e, 0x66, 0x6f],
{
    reveal_strlit("info");
    let c = "info"@;
    assert(c.len() == 4);
    assert(c[0] == 'i' && c[1] == 'n' && c[2] == 'f' && c[3] == 'o');
    assert(is_ascii_chars(c));
    is_ascii_chars_encode_utf8(c);
    let b = encode_utf8(c);
    assert(b[0] == c[0] as u8 && b[1] == c[1] as u8 && b[2] == c[2] as u8 && b[3] == c[3] as u8);
    assert(b =~= seq![0x69u8, 0x6e, 0x66, 0x6f]);
}

/// The bytes of `length`.
pub proof fn lemma_length_key()
    ensures
        "length".spec_bytes() == seq![0x6cu8, 0x65, 0x6e, 0x67, 0x74, 0x68],
{
    reveal_strlit("length");
    let c = "length"@;
    assert(c.len() == 6);
    assert(c[0] == 'l' && c[1] == 'e' && c[2] == 'n' && c[3] == 'g' && c[4] == 't' && c[5] == 'h');
    assert(is_ascii_chars(c));
    is_ascii_chars_encode_utf8(c);
    let b = encode_utf8(c);
    assert(b[0] == c[0] as u8 && b[1] == c[1] as u8 && b[2] == c[2] as u8);
    assert(b[3] == c[3] as u8 && b[4] == c[4] as u8 && b[5] == c[5] as u8);
    assert(b =~= seq![0x6cu8, 0x65, 0x6e, 0x67, 0x74, 0x68]);
}

/// The bytes of `name`.
pub proof fn lemma_name_key()
    ensures
        "name".spec_bytes() == seq![0x6eu8, 0x61, 0x6d, 0x65],
{
    reveal_strlit("name");
    let c = "name"@;
    assert(c.len() == 4);
    assert(c[0] == 'n' && c[1] == 'a' && c[2] == 'm' && c[3] == 'e');
    assert(is_ascii_chars(c));
    is_ascii_chars_encode_utf8(c);
    let b = encode_utf8(c);
    assert(b[0] == c[0] as u8 && b[1] == c[1] as u8 && b[2] == c[2] as u8 && b[3] == c[3] as u8);
    assert(b =~= seq![0x6eu8, 0x61, 0x6d, 0x65]);
}

/// The bytes of `piece length`.
pub proof fn lemma_piece_length_key()
    ensures
        "piece length".spec_bytes() == seq![
            0x70u8,
            0x69,
            0x65,
            0x63,
            0x65,
            0x20,
            0x6c,
            0x65,
            0x6e,
            0x67,
            0x74,
            0x68,
        ],
{
    reveal_strlit("piece length");
    let c = "piece length"@;
    assert(c.len() == 12);
    assert(c[0] == 'p' && c[1] == 'i' && c[2] == 'e' && c[3] == 'c' && c[4] == 'e' && c[5] == ' ');
    assert(c[6] == 'l' && c[7] == 'e' && c[8] == 'n' && c[9] == 'g' && c[10] == 't' && c[11]
        == 'h');
    assert(is_ascii_chars(c));
    is_ascii_chars_encode_utf8(c);
    let b = encode_utf8(c);
    assert(b[0] == c[0] as u8 && b[1] == c[1] as u8 && b[2] == c[2] as u8);
    assert(b[3] == c[3] as u8 && b[4] == c[4] as u8 && b[5] == c[5] as u8);
    assert(b[6] == c[6] as u8 && b[7] == c[7] as u8 && b[8] == c[8] as u8);
    assert(b[9] == c[9] as u8 && b[10] == c[10] as u8 && b[11] == c[11] as u8);
    assert(b =~= seq![
        0x70u8,
        0x69,
        0x65,
        0x63,
        0x65,
        0x20,
        0x6c,
        0x65,
        0x6e,
        0x67,
        0x74,
        0x68,
    ]);
}

/// The bytes of `pieces`.
pub proof fn lemma_pieces_key()
    ensures
        "pieces".spec_bytes() == seq![0x70u8, 0x69, 0x65, 0x63, 0x65, 0x73],
{
    reveal_strlit("pieces");
    let c = "pieces"@;
    assert(c.len() == 6);
    assert(c[0] == 'p' && c[1] == 'i' && c[2] == 'e' && c[3] == 'c' && c[4] == 'e' && c[5] == 's');
    assert(is_ascii_chars(c));
    is_ascii_chars_encode_utf8(c);
    let b = encode_utf8(c);
    assert(b[0] == c[0] as u8 && b[1] == c[1] as u8 && b[2] == c[2] as u8);
    assert(b[3] == c[3] as u8 && b[4] == c[4] as u8 && b[5] == c[5] as u8);
    assert(b =~= seq![0x70u8, 0x69, 0x65, 0x63, 0x65, 0x73]);
}

} // verus!
