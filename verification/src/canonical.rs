//! Documents as an encoder writes them, and the theorems that decoding
//! reads them back.

use vstd::prelude::*;
use vstd::string::StringSliceAdditionalSpecFns;
use vstd::utf8::{decode_utf8, encode_utf8_valid_utf8, valid_utf8};
use crate::ascii::{DICT, END};
use crate::bencode::front;
use crate::bytes::narrowed;
use crate::digest::sha1_digest;
use crate::error::Error;
use crate::grammar::{text_step, value_step, Step};
use crate::keys::{
    lemma_announce_key, lemma_info_key, lemma_length_key, lemma_name_key,
    lemma_piece_length_key, lemma_pieces_key,
};
use crate::metainfo::{
    info_document, info_entries, info_entry, lemma_info_entries_step,
    lemma_outline_entries_step, metainfo_document, outline, outline_entries, records,
    InfoFields, InfoView, MetaInfoView, Outline,
};
use crate::value::{
    encode_bytes, encode_entries, encode_int, lemma_encode_opening, theorem_bytes_round_trip,
    theorem_int_round_trip, theorem_text_round_trip, theorem_value_passed, Value,
};

verus! {

/// An entry of a dictionary as it is written: the key as a byte string,
/// then the value.
pub open spec fn entry(key: Seq<u8>, value: Seq<u8>) -> Seq<u8> {
    encode_bytes(key) + value
}

/// A key as text is written: it is UTF-8, of a length that a `usize`
/// holds.
pub open spec fn is_key(key: Seq<u8>) -> bool {
    valid_utf8(key) && key.len() <= usize::MAX
}

/// The key is none of those that an info dictionary gives a meaning to.
pub open spec fn unknown_to_info(key: Seq<u8>) -> bool {
    &&& key != "pieces".spec_bytes()
    &&& key != "length".spec_bytes()
    &&& key != "piece length".spec_bytes()
    &&& key != "name".spec_bytes()
}

/// The key is none of those that the outer dictionary gives a meaning to.
pub open spec fn unknown_to_outline(key: Seq<u8>) -> bool {
    &&& key != "announce".spec_bytes()
    &&& key != "info".spec_bytes()
}

/// The known keys are keys, and no two of them are the same.
pub proof fn lemma_known_keys()
    ensures
        is_key("announce".spec_bytes()),
        is_key("info".spec_bytes()),
        is_key("length".spec_bytes()),
        is_key("name".spec_bytes()),
        is_key("piece length".spec_bytes()),
        is_key("pieces".spec_bytes()),
        "announce".spec_bytes() != "info".spec_bytes(),
        "length".spec_bytes() != "pieces".spec_bytes(),
        "piece length".spec_bytes() != "pieces".spec_bytes(),
        "piece length".spec_bytes() != "length".spec_bytes(),
        "name".spec_bytes() != "pieces".spec_bytes(),
        "name".spec_bytes() != "length".spec_bytes(),
        "name".spec_bytes() != "piece length".spec_bytes(),
{
    lemma_announce_key();
    lemma_info_key();
    lemma_length_key();
    lemma_name_key();
    lemma_piece_length_key();
    lemma_pieces_key();
    encode_utf8_valid_utf8("announce"@);
    encode_utf8_valid_utf8("info"@);
    encode_utf8_valid_utf8("length"@);
    encode_utf8_valid_utf8("name"@);
    encode_utf8_valid_utf8("piece length"@);
    encode_utf8_valid_utf8("pieces"@);
    assert("length".spec_bytes()[0] != "pieces".spec_bytes()[0]);
}

/// A key as it is written is read as text, does not close a dictionary,
/// and leaves what follows it.
proof fn lemma_key_read(key: Seq<u8>, body: Seq<u8>)
    requires
        is_key(key),
    ensures
        front(encode_bytes(key) + body) != Some(END),
        text_step(encode_bytes(key) + body) == Step::done(encode_bytes(key).len(), key),
        (encode_bytes(key) + body).skip(encode_bytes(key).len() as int) == body,
{
    let s = encode_bytes(key) + body;
    theorem_text_round_trip(key, body);
    lemma_encode_opening(Value::Bytes(key));
    assert(s[0] == encode_bytes(key)[0]);
    assert(s.skip(encode_bytes(key).len() as int) =~= body);
}

/// Reading the entries of an info dictionary that begins with `key` as it
/// is written comes down to reading the value behind the key.
pub proof fn lemma_info_key_read(key: Seq<u8>, body: Seq<u8>, seen: InfoFields)
    requires
        is_key(key),
    ensures
        info_entries(entry(key, body), seen) == (match info_entry(key, body, seen).outcome {
            Err(e) => Err::<InfoFields, Error>(e),
            Ok(next) => info_entries(body.skip(info_entry(key, body, seen).used as int), next),
        }),
{
    lemma_key_read(key, body);
    lemma_info_entries_step(entry(key, body), seen);
}

/// In an info dictionary, `length` with an integer sets the length to that
/// integer modulo 2^32.
pub proof fn theorem_info_length(v: i64, tail: Seq<u8>, seen: InfoFields)
    ensures
        info_entries(entry("length".spec_bytes(), encode_int(v)) + tail, seen) == info_entries(
            tail,
            InfoFields { length: Some(narrowed(v)), ..seen },
        ),
{
    let key = "length".spec_bytes();
    let body = encode_int(v) + tail;
    lemma_known_keys();
    assert(entry(key, encode_int(v)) + tail =~= entry(key, body));
    lemma_info_key_read(key, body, seen);
    theorem_int_round_trip(v, tail);
    assert(body.skip(encode_int(v).len() as int) =~= tail);
}

/// In an info dictionary, `piece length` with an integer sets the piece
/// length to that integer modulo 2^32.
pub proof fn theorem_info_piece_length(v: i64, tail: Seq<u8>, seen: InfoFields)
    ensures
        info_entries(entry("piece length".spec_bytes(), encode_int(v)) + tail, seen)
            == info_entries(tail, InfoFields { piece_length: Some(narrowed(v)), ..seen }),
{
    let key = "piece length".spec_bytes();
    let body = encode_int(v) + tail;
    lemma_known_keys();
    assert(entry(key, encode_int(v)) + tail =~= entry(key, body));
    lemma_info_key_read(key, body, seen);
    theorem_int_round_trip(v, tail);
    assert(body.skip(encode_int(v).len() as int) =~= tail);
}

/// In an info dictionary, `name` with a byte string sets the name to the
/// text that the string holds, and fails where it holds none.
pub proof fn theorem_info_name(content: Seq<u8>, tail: Seq<u8>, seen: InfoFields)
    requires
        content.len() <= usize::MAX,
    ensures
        info_entries(entry("name".spec_bytes(), encode_bytes(content)) + tail, seen) == (
        if valid_utf8(content) {
            info_entries(tail, InfoFields { name: Some(decode_utf8(content)), ..seen })
        } else {
            Err(Error::InvalidUtf8)
        }),
{
    let key = "name".spec_bytes();
    let body = encode_bytes(content) + tail;
    lemma_known_keys();
    assert(entry(key, encode_bytes(content)) + tail =~= entry(key, body));
    lemma_info_key_read(key, body, seen);
    theorem_text_round_trip(content, tail);
    assert(body.skip(encode_bytes(content).len() as int) =~= tail);
}

/// In an info dictionary, `pieces` with a byte string is refused as bad
/// syntax unless the string is made of whole records of twenty bytes, and
/// then sets the pieces to those records: as many as the length holds
/// twenties, each of them the twenty bytes at its place, in the order in
/// which they stand.
pub proof fn theorem_info_pieces(content: Seq<u8>, tail: Seq<u8>, seen: InfoFields)
    requires
        content.len() <= usize::MAX,
    ensures
        info_entries(entry("pieces".spec_bytes(), encode_bytes(content)) + tail, seen) == (
        if content.len() % 20 == 0 {
            info_entries(tail, InfoFields { pieces: Some(records(content)), ..seen })
        } else {
            Err(Error::InvalidSyntax)
        }),
        records(content).len() == content.len() / 20,
        forall|i: int|
            0 <= i < records(content).len() ==> #[trigger] records(content)[i]
                == content.subrange(20 * i, 20 * i + 20),
{
    let key = "pieces".spec_bytes();
    let body = encode_bytes(content) + tail;
    lemma_known_keys();
    assert(entry(key, encode_bytes(content)) + tail =~= entry(key, body));
    lemma_info_key_read(key, body, seen);
    theorem_bytes_round_trip(content, tail);
    assert(body.skip(encode_bytes(content).len() as int) =~= tail);
}

/// In an info dictionary, a key without a meaning changes nothing,
/// whatever well-formed value it comes with.
pub proof fn theorem_info_unknown(key: Seq<u8>, value: Value, tail: Seq<u8>, seen: InfoFields)
    requires
        is_key(key),
        unknown_to_info(key),
        value.well_formed(),
    ensures
        info_entries(entry(key, value.encode()) + tail, seen) == info_entries(tail, seen),
{
    let body = value.encode() + tail;
    assert(entry(key, value.encode()) + tail =~= entry(key, body));
    lemma_info_key_read(key, body, seen);
    theorem_value_passed(value, tail);
    assert(body.skip(value.encode().len() as int) =~= tail);
}

/// An info dictionary as an encoder writes it, its four keys in order.
pub open spec fn encode_info(length: i64, name: Seq<u8>, piece_length: i64, pieces: Seq<u8>)
    -> Seq<u8> {
    seq![DICT] + (entry("length".spec_bytes(), encode_int(length)) + (entry(
        "name".spec_bytes(),
        encode_bytes(name),
    ) + (entry("piece length".spec_bytes(), encode_int(piece_length)) + (entry(
        "pieces".spec_bytes(),
        encode_bytes(pieces),
    ) + seq![END]))))
}

/// An info dictionary that was written is read back: the name as text,
/// the two numbers modulo 2^32, the pieces cut into records. A name that is
/// no text is refused as such, and pieces that are not whole records as bad
/// syntax.
pub proof fn theorem_info_round_trip(
    length: i64,
    name: Seq<u8>,
    piece_length: i64,
    pieces: Seq<u8>,
)
    requires
        name.len() <= usize::MAX,
        pieces.len() <= usize::MAX,
    ensures
        info_document(encode_info(length, name, piece_length, pieces)) == (if !valid_utf8(name) {
            Err::<InfoView, Error>(Error::InvalidUtf8)
        } else if pieces.len() % 20 != 0 {
            Err::<InfoView, Error>(Error::InvalidSyntax)
        } else {
            Ok::<InfoView, Error>(
                InfoView {
                    piece_length: narrowed(piece_length),
                    name: decode_utf8(name),
                    pieces: records(pieces),
                    length: narrowed(length),
                },
            )
        }),
{
    let closing = seq![END];
    let fourth = entry("pieces".spec_bytes(), encode_bytes(pieces)) + closing;
    let third = entry("piece length".spec_bytes(), encode_int(piece_length)) + fourth;
    let second = entry("name".spec_bytes(), encode_bytes(name)) + third;
    let first = entry("length".spec_bytes(), encode_int(length)) + second;
    let s = seq![DICT] + first;
    assert(s.skip(1) =~= first);
    assert(s[0] == DICT);
    let seen0 = InfoFields::none();
    let seen1 = InfoFields { length: Some(narrowed(length)), ..seen0 };
    let seen2 = InfoFields { name: Some(decode_utf8(name)), ..seen1 };
    let seen3 = InfoFields { piece_length: Some(narrowed(piece_length)), ..seen2 };
    let seen4 = InfoFields { pieces: Some(records(pieces)), ..seen3 };
    assert(info_entries(first, seen0) == info_entries(second, seen1)) by {
        theorem_info_length(length, second, seen0);
    }
    assert(info_entries(closing, seen4) == Ok::<InfoFields, Error>(seen4)) by {
        lemma_info_entries_step(closing, seen4);
    }
    if !valid_utf8(name) {
        assert(info_entries(second, seen1) == Err::<InfoFields, Error>(Error::InvalidUtf8)) by {
            theorem_info_name(name, third, seen1);
        }
    } else {
        assert(info_entries(second, seen1) == info_entries(third, seen2)) by {
            theorem_info_name(name, third, seen1);
        }
        assert(info_entries(third, seen2) == info_entries(fourth, seen3)) by {
            theorem_info_piece_length(piece_length, fourth, seen2);
        }
        if pieces.len() % 20 != 0 {
            assert(info_entries(fourth, seen3) == Err::<InfoFields, Error>(
                Error::InvalidSyntax,
            )) by {
                theorem_info_pieces(pieces, closing, seen3);
            }
        } else {
            assert(info_entries(fourth, seen3) == info_entries(closing, seen4)) by {
                theorem_info_pieces(pieces, closing, seen3);
            }
        }
    }
}

/// In the outer dictionary, `announce` with a byte string sets the address
/// to the text that the string holds, and fails where it holds none.
pub proof fn theorem_outline_announce(
    content: Seq<u8>,
    tail: Seq<u8>,
    announce: Option<Seq<char>>,
)
    requires
        content.len() <= usize::MAX,
    ensures
        outline_entries(entry("announce".spec_bytes(), encode_bytes(content)) + tail, announce)
            == (if valid_utf8(content) {
            outline_entries(tail, Some(decode_utf8(content)))
        } else {
            Err(Error::InvalidUtf8)
        }),
{
    let key = "announce".spec_bytes();
    let body = encode_bytes(content) + tail;
    lemma_known_keys();
    assert(entry(key, encode_bytes(content)) + tail =~= entry(key, body));
    lemma_key_read(key, body);
    lemma_outline_entries_step(entry(key, body), announce);
    theorem_text_round_trip(content, tail);
    assert(body.skip(encode_bytes(content).len() as int) =~= tail);
}

/// In the outer dictionary, `info` ends the reading: the bytes of its
/// value are kept as they stand, and nothing behind them is looked at.
pub proof fn theorem_outline_info(info: Seq<u8>, rest: Seq<u8>, announce: Option<Seq<char>>)
    requires
        value_step(info + rest) == Step::done(info.len(), ()),
    ensures
        outline_entries(entry("info".spec_bytes(), info) + rest, announce) == Ok::<
            Outline,
            Error,
        >(Outline { announce, info: Some(info) }),
{
    let key = "info".spec_bytes();
    let body = info + rest;
    lemma_known_keys();
    assert(entry(key, info) + rest =~= entry(key, body));
    lemma_key_read(key, body);
    lemma_outline_entries_step(entry(key, body), announce);
    assert(body.take(info.len() as int) =~= info);
}

/// In the outer dictionary, a key without a meaning changes nothing,
/// whatever well-formed value it comes with.
pub proof fn theorem_outline_unknown(
    key: Seq<u8>,
    value: Value,
    tail: Seq<u8>,
    announce: Option<Seq<char>>,
)
    requires
        is_key(key),
        unknown_to_outline(key),
        value.well_formed(),
    ensures
        outline_entries(entry(key, value.encode()) + tail, announce) == outline_entries(
            tail,
            announce,
        ),
{
    let body = value.encode() + tail;
    assert(entry(key, value.encode()) + tail =~= entry(key, body));
    lemma_key_read(key, body);
    lemma_outline_entries_step(entry(key, body), announce);
    theorem_value_passed(value, tail);
    assert(body.skip(value.encode().len() as int) =~= tail);
}

/// Entries that the outer dictionary gives no meaning to: each key is a
/// key and is neither `announce` nor `info`, each value is well formed.
pub open spec fn ignored(entries: Seq<(Seq<u8>, Value)>) -> bool {
    forall|i: int|
        0 <= i < entries.len() ==> {
            &&& is_key((#[trigger] entries[i]).0)
            &&& unknown_to_outline(entries[i].0)
            &&& entries[i].1.well_formed()
        }
}

/// Any number of entries without a meaning change nothing.
pub proof fn theorem_outline_ignored(
    entries: Seq<(Seq<u8>, Value)>,
    tail: Seq<u8>,
    announce: Option<Seq<char>>,
)
    requires
        ignored(entries),
    ensures
        outline_entries(encode_entries(entries) + tail, announce) == outline_entries(
            tail,
            announce,
        ),
    decreases entries.len(),
{
    if entries.len() == 0 {
        assert(encode_entries(entries) + tail =~= tail);
    } else {
        let others = entries.subrange(1, entries.len() as int);
        let behind = encode_entries(others) + tail;
        assert(encode_entries(entries) + tail =~= entry(entries[0].0, entries[0].1.encode())
            + behind);
        theorem_outline_unknown(entries[0].0, entries[0].1, behind, announce);
        assert forall|i: int| 0 <= i < others.len() implies {
            &&& is_key((#[trigger] others[i]).0)
            &&& unknown_to_outline(others[i].0)
            &&& others[i].1.well_formed()
        } by {
            assert(others[i] == entries[i + 1]);
        }
        theorem_outline_ignored(others, tail, announce);
    }
}

/// A metainfo document as an encoder writes it: the address of the
/// tracker before the info dictionary, entries without a meaning before
/// and between them, and anything at all behind the info dictionary.
pub open spec fn encode_metainfo(
    before: Seq<(Seq<u8>, Value)>,
    announce: Seq<u8>,
    between: Seq<(Seq<u8>, Value)>,
    info: Seq<u8>,
    rest: Seq<u8>,
) -> Seq<u8> {
    seq![DICT] + (encode_entries(before) + (entry(
        "announce".spec_bytes(),
        encode_bytes(announce),
    ) + (encode_entries(between) + (entry("info".spec_bytes(), info) + rest))))
}

/// A metainfo document with `announce` before `info` decodes to the
/// address, to what the info dictionary decodes to, and to the digest of
/// the bytes of the info dictionary exactly as they stand. It fails only
/// where the info dictionary does. Neither the entries without a meaning
/// nor what follows the info dictionary change any of it.
pub proof fn theorem_metainfo_document(
    before: Seq<(Seq<u8>, Value)>,
    announce: Seq<u8>,
    between: Seq<(Seq<u8>, Value)>,
    info: Seq<u8>,
    rest: Seq<u8>,
)
    requires
        ignored(before),
        ignored(between),
        is_key(announce),
        value_step(info + rest) == Step::done(info.len(), ()),
    ensures
        metainfo_document(encode_metainfo(before, announce, between, info, rest)) == (
        match info_document(info) {
            Err(e) => Err::<MetaInfoView, Error>(e),
            Ok(view) => Ok::<MetaInfoView, Error>(
                MetaInfoView {
                    announce: decode_utf8(announce),
                    info: view,
                    info_hash: sha1_digest(info),
                },
            ),
        }),
{
    let fourth = entry("info".spec_bytes(), info) + rest;
    let third = encode_entries(between) + fourth;
    let second = entry("announce".spec_bytes(), encode_bytes(announce)) + third;
    let first = encode_entries(before) + second;
    let s = seq![DICT] + first;
    assert(s.skip(1) =~= first);
    assert(s[0] == DICT);
    let address = Some(decode_utf8(announce));
    assert(outline_entries(first, None) == outline_entries(second, None)) by {
        theorem_outline_ignored(before, second, None);
    }
    assert(outline_entries(second, None) == outline_entries(third, address)) by {
        theorem_outline_announce(announce, third, None);
    }
    assert(outline_entries(third, address) == outline_entries(fourth, address)) by {
        theorem_outline_ignored(between, fourth, address);
    }
    assert(outline_entries(fourth, address) == Ok::<Outline, Error>(
        Outline { announce: address, info: Some(info) },
    )) by {
        theorem_outline_info(info, rest, address);
    }
    assert(outline(s) == Ok::<Outline, Error>(Outline { announce: address, info: Some(info) }));
}

/// The four entries of an info dictionary, as values.
pub open spec fn info_entries_as_values(
    length: i64,
    name: Seq<u8>,
    piece_length: i64,
    pieces: Seq<u8>,
) -> Seq<(Seq<u8>, Value)> {
    seq![("length".spec_bytes(), Value::Int(length))] + (seq![
        ("name".spec_bytes(), Value::Bytes(name)),
    ] + (seq![("piece length".spec_bytes(), Value::Int(piece_length))] + seq![
        ("pieces".spec_bytes(), Value::Bytes(pieces)),
    ]))
}

/// An info dictionary, as a value.
pub open spec fn info_as_value(length: i64, name: Seq<u8>, piece_length: i64, pieces: Seq<u8>)
    -> Value {
    Value::Dict(info_entries_as_values(length, name, piece_length, pieces))
}

/// The entries of a dictionary are written one after the other.
proof fn lemma_entries_written(first: (Seq<u8>, Value), others: Seq<(Seq<u8>, Value)>)
    ensures
        encode_entries(seq![first] + others) == entry(first.0, first.1.encode()) + encode_entries(
            others,
        ),
{
    let all = seq![first] + others;
    assert(all[0] == first);
    assert(all.subrange(1, all.len() as int) =~= others);
}

/// An info dictionary as an encoder writes it is a well-formed dictionary
/// of four entries.
proof fn lemma_info_is_value(length: i64, name: Seq<u8>, piece_length: i64, pieces: Seq<u8>)
    requires
        name.len() <= usize::MAX,
        pieces.len() <= usize::MAX,
    ensures
        info_as_value(length, name, piece_length, pieces).well_formed(),
        info_as_value(length, name, piece_length, pieces).encode() == encode_info(
            length,
            name,
            piece_length,
            pieces,
        ),
{
    lemma_known_keys();
    let a = ("length".spec_bytes(), Value::Int(length));
    let b = ("name".spec_bytes(), Value::Bytes(name));
    let c = ("piece length".spec_bytes(), Value::Int(piece_length));
    let d = ("pieces".spec_bytes(), Value::Bytes(pieces));
    let none = Seq::<(Seq<u8>, Value)>::empty();
    assert(seq![d] =~= seq![d] + none);
    lemma_entries_written(d, none);
    lemma_entries_written(c, seq![d]);
    lemma_entries_written(b, seq![c] + seq![d]);
    lemma_entries_written(a, seq![b] + (seq![c] + seq![d]));
    assert(encode_entries(none) =~= Seq::<u8>::empty());
    assert(encode_entries(seq![d]) =~= entry(d.0, encode_bytes(pieces)));
    let entries = info_entries_as_values(length, name, piece_length, pieces);
    assert(encode_entries(entries) + seq![END] =~= entry(a.0, encode_int(length)) + (entry(
        b.0,
        encode_bytes(name),
    ) + (entry(c.0, encode_int(piece_length)) + (entry(d.0, encode_bytes(pieces)) + seq![
        END,
    ]))));
    assert(info_as_value(length, name, piece_length, pieces).encode() =~= encode_info(
        length,
        name,
        piece_length,
        pieces,
    ));
    assert(entries.len() == 4);
    assert(entries[0] == a && entries[1] == b && entries[2] == c && entries[3] == d);
    assert(a.1.well_formed() && b.1.well_formed() && c.1.well_formed() && d.1.well_formed());
    assert forall|i: int| 0 <= i < entries.len() implies {
        &&& (#[trigger] entries[i]).0.len() <= usize::MAX
        &&& entries[i].1.well_formed()
    } by {
        assert(i == 0 || i == 1 || i == 2 || i == 3);
    }
}

/// A metainfo document that was written is read back. Where the name is
/// text and the pieces are whole records, decoding succeeds: it yields the
/// address, the fields of the info dictionary, and the digest of the info
/// dictionary from its opening `d` to the `e` that closes it.
pub proof fn theorem_metainfo_round_trip(
    before: Seq<(Seq<u8>, Value)>,
    announce: Seq<u8>,
    between: Seq<(Seq<u8>, Value)>,
    length: i64,
    name: Seq<u8>,
    piece_length: i64,
    pieces: Seq<u8>,
    rest: Seq<u8>,
)
    requires
        ignored(before),
        ignored(between),
        is_key(announce),
        is_key(name),
        pieces.len() <= usize::MAX,
        pieces.len() % 20 == 0,
    ensures
        metainfo_document(
            encode_metainfo(
                before,
                announce,
                between,
                encode_info(length, name, piece_length, pieces),
                rest,
            ),
        ) == Ok::<MetaInfoView, Error>(
            MetaInfoView {
                announce: decode_utf8(announce),
                info: InfoView {
                    piece_length: narrowed(piece_length),
                    name: decode_utf8(name),
                    pieces: records(pieces),
                    length: narrowed(length),
                },
                info_hash: sha1_digest(encode_info(length, name, piece_length, pieces)),
            },
        ),
{
    let info = encode_info(length, name, piece_length, pieces);
    assert(value_step(info + rest) == Step::done(info.len(), ())) by {
        lemma_info_is_value(length, name, piece_length, pieces);
        theorem_value_passed(info_as_value(length, name, piece_length, pieces), rest);
    }
    theorem_info_round_trip(length, name, piece_length, pieces);
    theorem_metainfo_document(before, announce, between, info, rest);
}

} // verus!
