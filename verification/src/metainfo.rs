//! The description of a single-file torrent, decoded from its metainfo
//! document.
//!
//! Everything a decoded description holds is a view into the buffer it was
//! decoded from, and lives as long as that buffer.

use vstd::prelude::*;
use vstd::string::StringSliceAdditionalSpecFns;
use vstd::utf8::decode_utf8;
use crate::ascii::{DICT, END};
use crate::bencode::{front, BencodeParser};
use crate::bytes::{key_is, narrow, narrowed};
use crate::digest::{sha1, sha1_digest, MESSAGE_LIMIT};
use crate::error::Error;
use crate::grammar::{
    bytes_step, int_step, lemma_token_bounds, lemma_value_bounds, text_step, value_step, Step,
};

verus! {

/// The content of a `pieces` string cut into records of twenty bytes, in
/// the order in which they stand.
pub open spec fn records(content: Seq<u8>) -> Seq<Seq<u8>> {
    Seq::new(content.len() / 20, |i: int| content.subrange(20 * i, 20 * i + 20))
}

/// What an [`Info`] says.
pub ghost struct InfoView {
    /// The number of bytes in a piece.
    pub piece_length: u32,
    /// The name of the file.
    pub name: Seq<char>,
    /// One record of twenty bytes for each piece.
    pub pieces: Seq<Seq<u8>>,
    /// The number of bytes in the file.
    pub length: u32,
}

/// The fields of an info dictionary that have been met so far.
pub ghost struct InfoFields {
    /// The value of `piece length`, narrowed.
    pub piece_length: Option<u32>,
    /// The value of `name`.
    pub name: Option<Seq<char>>,
    /// The value of `pieces`, cut into records.
    pub pieces: Option<Seq<Seq<u8>>>,
    /// The value of `length`, narrowed.
    pub length: Option<u32>,
}

impl InfoFields {
    /// No field has been met.
    pub open spec fn none() -> Self {
        InfoFields { piece_length: None, name: None, pieces: None, length: None }
    }

    /// The fields together, where all four have been met.
    pub open spec fn complete(self) -> Result<InfoView, Error> {
        if self.piece_length is Some && self.name is Some && self.pieces is Some
            && self.length is Some {
            Ok(
                InfoView {
                    piece_length: self.piece_length->0,
                    name: self.name->0,
                    pieces: self.pieces->0,
                    length: self.length->0,
                },
            )
        } else {
            Err(Error::UnknownField)
        }
    }
}

/// Reading the value that stands under `key` in an info dictionary.
///
/// `pieces` is a byte string whose length is a multiple of twenty; `length`
/// and `piece length` are integers, kept modulo 2^32; `name` is text. A key
/// that is met again replaces what it held. The value of any other key is
/// passed over.
pub open spec fn info_entry(key: Seq<u8>, s: Seq<u8>, seen: InfoFields) -> Step<InfoFields> {
    if key == "pieces".spec_bytes() {
        match bytes_step(s).outcome {
            Ok(content) => if content.len() % 20 == 0 {
                Step::done(
                    bytes_step(s).used,
                    InfoFields { pieces: Some(records(content)), ..seen },
                )
            } else {
                Step::failed(bytes_step(s).used, Error::InvalidSyntax)
            },
            Err(e) => Step::failed(bytes_step(s).used, e),
        }
    } else if key == "length".spec_bytes() {
        match int_step(s).outcome {
            Ok(v) => Step::done(int_step(s).used, InfoFields { length: Some(narrowed(v)), ..seen }),
            Err(e) => Step::failed(int_step(s).used, e),
        }
    } else if key == "piece length".spec_bytes() {
        match int_step(s).outcome {
            Ok(v) => Step::done(
                int_step(s).used,
                InfoFields { piece_length: Some(narrowed(v)), ..seen },
            ),
            Err(e) => Step::failed(int_step(s).used, e),
        }
    } else if key == "name".spec_bytes() {
        match text_step(s).outcome {
            Ok(content) => Step::done(
                text_step(s).used,
                InfoFields { name: Some(decode_utf8(content)), ..seen },
            ),
            Err(e) => Step::failed(text_step(s).used, e),
        }
    } else {
        match value_step(s).outcome {
            Ok(_) => Step::done(value_step(s).used, seen),
            Err(e) => Step::failed(value_step(s).used, e),
        }
    }
}

/// Reading the entries of an info dictionary up to its closing `e`: each
/// key is text and is followed by its value. The first failure ends the
/// reading.
#[verifier::opaque]
pub open spec fn info_entries(s: Seq<u8>, seen: InfoFields) -> Result<InfoFields, Error>
    decreases s.len(),
{
    if front(s) == Some(END) {
        Ok(seen)
    } else {
        match text_step(s).outcome {
            Err(e) => Err(e),
            Ok(key) => {
                let value = s.skip(text_step(s).used as int);
                let entry = info_entry(key, value, seen);
                match entry.outcome {
                    Err(e) => Err(e),
                    Ok(next) => {
                        proof {
                            lemma_token_bounds(s);
                            lemma_token_bounds(value);
                            lemma_value_bounds(value);
                        }
                        info_entries(value.skip(entry.used as int), next)
                    },
                }
            },
        }
    }
}

/// One step of [`info_entries`], spelled out: the closing `e` ends the
/// reading, a key or value that cannot be read fails it, and any other
/// entry leaves the rest to be read with what the entry added.
pub proof fn lemma_info_entries_step(s: Seq<u8>, seen: InfoFields)
    ensures
        front(s) == Some(END) ==> info_entries(s, seen) == Ok::<InfoFields, Error>(seen),
        front(s) != Some(END) ==> match text_step(s).outcome {
            Err(e) => info_entries(s, seen) == Err::<InfoFields, Error>(e),
            Ok(key) => {
                let value = s.skip(text_step(s).used as int);
                let entry = info_entry(key, value, seen);
                match entry.outcome {
                    Err(e) => info_entries(s, seen) == Err::<InfoFields, Error>(e),
                    Ok(next) => info_entries(s, seen) == info_entries(
                        value.skip(entry.used as int),
                        next,
                    ),
                }
            },
        },
{
    reveal(info_entries);
}

/// Decoding an info dictionary: `d`, the entries, and all four fields met
/// when the closing `e` is reached.
pub open spec fn info_document(s: Seq<u8>) -> Result<InfoView, Error> {
    if front(s) != Some(DICT) {
        Err(Error::ExpectedDict)
    } else {
        match info_entries(s.skip(1), InfoFields::none()) {
            Err(e) => Err(e),
            Ok(seen) => seen.complete(),
        }
    }
}

/// The description of the file that a torrent shares.
#[derive(Debug, PartialEq)]
pub struct Info<'a> {
    /// The number of bytes in a piece.
    pub piece_length: u32,
    /// The name of the file.
    pub name: &'a str,
    /// One record of twenty bytes for each piece.
    pub pieces: &'a [[u8; 20]],
    /// The number of bytes in the file.
    pub length: u32,
}

impl<'a> View for Info<'a> {
    type V = InfoView;

    open spec fn view(&self) -> InfoView {
        InfoView {
            piece_length: self.piece_length,
            name: self.name@,
            pieces: self.pieces@.map_values(|record: [u8; 20]| record@),
            length: self.length,
        }
    }
}

/// The fields of an info dictionary that the decoder has met so far.
struct Partial<'a> {
    piece_length: Option<u32>,
    name: Option<&'a str>,
    pieces: Option<&'a [[u8; 20]]>,
    length: Option<u32>,
}

impl<'a> View for Partial<'a> {
    type V = InfoFields;

    closed spec fn view(&self) -> InfoFields {
        InfoFields {
            piece_length: self.piece_length,
            name: match self.name {
                Some(text) => Some(text@),
                None => None,
            },
            pieces: match self.pieces {
                Some(list) => Some(list@.map_values(|record: [u8; 20]| record@)),
                None => None,
            },
            length: self.length,
        }
    }
}

/// Cuts the content of a `pieces` string into its records, where it is
/// made of whole records.
fn cut_records<'a>(content: &'a [u8]) -> (r: Option<&'a [[u8; 20]]>)
    ensures
        r is Some <==> content@.len() % 20 == 0,
        r matches Some(list) ==> list@.map_values(|record: [u8; 20]| record@) == records(
            content@,
        ),
{
    let (list, rest) = content.as_chunks::<20>();
    if rest.len() != 0 {
        None
    } else {
        assert(list@.map_values(|record: [u8; 20]| record@) =~= records(content@));
        Some(list)
    }
}

/// Reads the value that stands under `key`.
fn read_field<'a>(p: &mut BencodeParser<'a>, key: &str, seen: Partial<'a>) -> (r: Result<
    Partial<'a>,
    Error,
>)
    ensures
        match r {
            Ok(next) => info_entry(key.spec_bytes(), old(p)@, seen@).outcome == Ok::<
                InfoFields,
                Error,
            >(next@),
            Err(e) => info_entry(key.spec_bytes(), old(p)@, seen@).outcome == Err::<
                InfoFields,
                Error,
            >(e),
        },
        info_entry(key.spec_bytes(), old(p)@, seen@).used <= old(p)@.len(),
        final(p)@ == old(p)@.skip(info_entry(key.spec_bytes(), old(p)@, seen@).used as int),
{
    proof {
        lemma_token_bounds(p@);
        lemma_value_bounds(p@);
    }
    let Partial { piece_length, name, pieces, length } = seen;
    if key_is(key, "pieces") {
        match p.parse_str_bytes() {
            Ok(content) => match cut_records(content) {
                Some(list) => Ok(Partial { piece_length, name, pieces: Some(list), length }),
                None => Err(Error::InvalidSyntax),
            },
            Err(e) => Err(e),
        }
    } else if key_is(key, "length") {
        match p.parse_int() {
            Ok(v) => Ok(Partial { piece_length, name, pieces, length: Some(narrow(v)) }),
            Err(e) => Err(e),
        }
    } else if key_is(key, "piece length") {
        match p.parse_int() {
            Ok(v) => Ok(Partial { piece_length: Some(narrow(v)), name, pieces, length }),
            Err(e) => Err(e),
        }
    } else if key_is(key, "name") {
        match p.parse_str() {
            Ok(text) => Ok(Partial { piece_length, name: Some(text), pieces, length }),
            Err(e) => Err(e),
        }
    } else {
        match p.skip_any() {
            Ok(_) => Ok(Partial { piece_length, name, pieces, length }),
            Err(e) => Err(e),
        }
    }
}

impl<'a> Info<'a> {
    /// Decodes an info dictionary.
    pub fn parse(input: &'a [u8]) -> (r: Result<Info<'a>, Error>)
        ensures
            match r {
                Ok(info) => info_document(input@) == Ok::<InfoView, Error>(info@),
                Err(e) => info_document(input@) == Err::<InfoView, Error>(e),
            },
    {
        let mut p = BencodeParser::new(input);
        let mut seen = Partial { piece_length: None, name: None, pieces: None, length: None };
        match p.expect_dict_start() {
            Ok(_) => {},
            Err(e) => {
                return Err(e);
            },
        }
        loop
            invariant_except_break
                info_entries(input@.skip(1), InfoFields::none()) == info_entries(p@, seen@),
            invariant
                front(input@) == Some(DICT),
            ensures
                info_entries(input@.skip(1), InfoFields::none()) == Ok::<InfoFields, Error>(
                    seen@,
                ),
            decreases p@.len(),
        {
            proof {
                lemma_info_entries_step(p@, seen@);
                lemma_token_bounds(p@);
            }
            if p.match_dict_end() {
                break ;
            }
            let key = match p.parse_str() {
                Ok(key) => key,
                Err(e) => {
                    return Err(e);
                },
            };
            seen = match read_field(&mut p, key, seen) {
                Ok(next) => next,
                Err(e) => {
                    return Err(e);
                },
            };
        }
        match seen {
            Partial {
                piece_length: Some(piece_length),
                name: Some(name),
                pieces: Some(pieces),
                length: Some(length),
            } => Ok(Info { piece_length, name, pieces, length }),
            _ => Err(Error::UnknownField),
        }
    }
}

/// What the outer dictionary of a metainfo document yields.
pub ghost struct Outline {
    /// The value of `announce`, if the key was met.
    pub announce: Option<Seq<char>>,
    /// The bytes of the value of `info`, from its first to its last, if the
    /// key was met.
    pub info: Option<Seq<u8>>,
}

/// Reading the entries of the outer dictionary.
///
/// `announce` is text, and a later one replaces an earlier one. `info` is a
/// value of any kind, whose bytes are kept as they stand; the reading ends
/// with it, and nothing behind it is looked at. The value of any other key
/// is passed over. Without `info` the reading ends at the closing `e`.
#[verifier::opaque]
pub open spec fn outline_entries(s: Seq<u8>, announce: Option<Seq<char>>) -> Result<
    Outline,
    Error,
>
    decreases s.len(),
{
    if front(s) == Some(END) {
        Ok(Outline { announce, info: None })
    } else {
        match text_step(s).outcome {
            Err(e) => Err(e),
            Ok(key) => {
                let value = s.skip(text_step(s).used as int);
                proof {
                    lemma_token_bounds(s);
                    lemma_token_bounds(value);
                    lemma_value_bounds(value);
                }
                if key == "announce".spec_bytes() {
                    match text_step(value).outcome {
                        Err(e) => Err(e),
                        Ok(content) => outline_entries(
                            value.skip(text_step(value).used as int),
                            Some(decode_utf8(content)),
                        ),
                    }
                } else if key == "info".spec_bytes() {
                    match value_step(value).outcome {
                        Err(e) => Err(e),
                        Ok(_) => Ok(
                            Outline {
                                announce,
                                info: Some(value.take(value_step(value).used as int)),
                            },
                        ),
                    }
                } else {
                    match value_step(value).outcome {
                        Err(e) => Err(e),
                        Ok(_) => outline_entries(
                            value.skip(value_step(value).used as int),
                            announce,
                        ),
                    }
                }
            },
        }
    }
}

/// One step of [`outline_entries`], spelled out.
pub proof fn lemma_outline_entries_step(s: Seq<u8>, announce: Option<Seq<char>>)
    ensures
        front(s) == Some(END) ==> outline_entries(s, announce) == Ok::<Outline, Error>(
            Outline { announce, info: None },
        ),
        front(s) != Some(END) ==> match text_step(s).outcome {
            Err(e) => outline_entries(s, announce) == Err::<Outline, Error>(e),
            Ok(key) => {
                let value = s.skip(text_step(s).used as int);
                if key == "announce".spec_bytes() {
                    match text_step(value).outcome {
                        Err(e) => outline_entries(s, announce) == Err::<Outline, Error>(e),
                        Ok(content) => outline_entries(s, announce) == outline_entries(
                            value.skip(text_step(value).used as int),
                            Some(decode_utf8(content)),
                        ),
                    }
                } else if key == "info".spec_bytes() {
                    match value_step(value).outcome {
                        Err(e) => outline_entries(s, announce) == Err::<Outline, Error>(e),
                        Ok(_) => outline_entries(s, announce) == Ok::<Outline, Error>(
                            Outline {
                                announce,
                                info: Some(value.take(value_step(value).used as int)),
                            },
                        ),
                    }
                } else {
                    match value_step(value).outcome {
                        Err(e) => outline_entries(s, announce) == Err::<Outline, Error>(e),
                        Ok(_) => outline_entries(s, announce) == outline_entries(
                            value.skip(value_step(value).used as int),
                            announce,
                        ),
                    }
                }
            },
        },
{
    reveal(outline_entries);
}

/// Reading the outer dictionary: `d`, then its entries.
pub open spec fn outline(s: Seq<u8>) -> Result<Outline, Error> {
    if front(s) != Some(DICT) {
        Err(Error::ExpectedDict)
    } else {
        outline_entries(s.skip(1), None)
    }
}

/// What a [`MetaInfoFile`] says.
pub ghost struct MetaInfoView {
    /// The address of the tracker.
    pub announce: Seq<char>,
    /// The description of the file.
    pub info: InfoView,
    /// The digest of the info dictionary as it stands in the document.
    pub info_hash: Seq<u8>,
}

/// Putting a description together from what the outer dictionary yielded
/// and the digest of the info bytes.
///
/// The info bytes are decoded first, and their failure is the failure of
/// the whole. A missing `announce` is found after that.
pub open spec fn assembled(announce: Option<Seq<char>>, info: Seq<u8>, info_hash: Seq<u8>)
    -> Result<MetaInfoView, Error> {
    match info_document(info) {
        Err(e) => Err(e),
        Ok(view) => match announce {
            None => Err(Error::UnknownField),
            Some(address) => Ok(MetaInfoView { announce: address, info: view, info_hash }),
        },
    }
}

/// Decoding a metainfo document: the outer dictionary must hold `info`,
/// the info bytes are hashed as they stand, and the rest is
/// [`assembled`].
pub open spec fn metainfo_document(s: Seq<u8>) -> Result<MetaInfoView, Error> {
    match outline(s) {
        Err(e) => Err(e),
        Ok(found) => match found.info {
            None => Err(Error::UnknownField),
            Some(info) => assembled(found.announce, info, sha1_digest(info)),
        },
    }
}

/// The description of a torrent.
#[derive(Debug, PartialEq)]
pub struct MetaInfoFile<'a> {
    /// The address of the tracker.
    pub announce: &'a str,
    /// The description of the file.
    pub info: Info<'a>,
    /// The digest of the info dictionary as it stands in the document.
    pub info_hash: [u8; 20],
}

impl<'a> View for MetaInfoFile<'a> {
    type V = MetaInfoView;

    open spec fn view(&self) -> MetaInfoView {
        MetaInfoView { announce: self.announce@, info: self.info@, info_hash: self.info_hash@ }
    }
}

/// What [`MetaInfoFile::outline`] hands out, as the grammar speaks of it.
pub open spec fn found(announce: Option<&str>, info: Option<&[u8]>) -> Outline {
    Outline {
        announce: match announce {
            Some(text) => Some(text@),
            None => None,
        },
        info: match info {
            Some(span) => Some(span@),
            None => None,
        },
    }
}

impl<'a> MetaInfoFile<'a> {
    /// Reads the outer dictionary of a metainfo document: the address of
    /// the tracker, and the bytes of the info dictionary, each if present.
    pub fn outline(input: &'a [u8]) -> (r: Result<(Option<&'a str>, Option<&'a [u8]>), Error>)
        ensures
            match r {
                Ok((announce, info)) => outline(input@) == Ok::<Outline, Error>(
                    found(announce, info),
                ),
                Err(e) => outline(input@) == Err::<Outline, Error>(e),
            },
            r matches Ok((_, Some(span))) ==> span@.len() <= input@.len(),
    {
        let mut p = BencodeParser::new(input);
        let mut announce: Option<&'a str> = None;
        match p.expect_dict_start() {
            Ok(_) => {},
            Err(e) => {
                return Err(e);
            },
        }
        loop
            invariant_except_break
                outline_entries(input@.skip(1), None) == outline_entries(
                    p@,
                    found(announce, None).announce,
                ),
            invariant
                front(input@) == Some(DICT),
                p@.len() <= input@.len(),
            ensures
                outline_entries(input@.skip(1), None) == Ok::<Outline, Error>(
                    found(announce, None),
                ),
            decreases p@.len(),
        {
            proof {
                lemma_outline_entries_step(p@, found(announce, None).announce);
                lemma_token_bounds(p@);
            }
            if p.match_dict_end() {
                break ;
            }
            let key = match p.parse_str() {
                Ok(key) => key,
                Err(e) => {
                    return Err(e);
                },
            };
            proof {
                lemma_token_bounds(p@);
                lemma_value_bounds(p@);
            }
            if key_is(key, "announce") {
                match p.parse_str() {
                    Ok(text) => {
                        announce = Some(text);
                    },
                    Err(e) => {
                        return Err(e);
                    },
                }
            } else if key_is(key, "info") {
                match p.parse_raw_value() {
                    Ok(span) => {
                        return Ok((announce, Some(span)));
                    },
                    Err(e) => {
                        return Err(e);
                    },
                }
            } else {
                match p.skip_any() {
                    Ok(_) => {},
                    Err(e) => {
                        return Err(e);
                    },
                }
            }
        }
        Ok((announce, None))
    }

    /// Puts a description together: decodes the info dictionary from
    /// `info`, and takes `info_hash` for its digest.
    pub fn assemble(announce: Option<&'a str>, info: &'a [u8], info_hash: [u8; 20]) -> (r: Result<
        MetaInfoFile<'a>,
        Error,
    >)
        ensures
            match r {
                Ok(file) => assembled(found(announce, None).announce, info@, info_hash@) == Ok::<
                    MetaInfoView,
                    Error,
                >(file@),
                Err(e) => assembled(found(announce, None).announce, info@, info_hash@) == Err::<
                    MetaInfoView,
                    Error,
                >(e),
            },
    {
        let info = match Info::parse(info) {
            Ok(info) => info,
            Err(e) => {
                return Err(e);
            },
        };
        match announce {
            Some(announce) => Ok(MetaInfoFile { announce, info, info_hash }),
            None => Err(Error::UnknownField),
        }
    }

    /// Decodes a metainfo document.
    ///
    /// The digest is taken over the bytes of the info dictionary exactly as
    /// they stand in `input`. A digest is defined for fewer than 2^64 bits
    /// only, which bounds the input; [`MetaInfoFile::parse_checked`] tests
    /// the bound for those who cannot know it.
    pub fn parse(input: &'a [u8]) -> (r: Result<MetaInfoFile<'a>, Error>)
        requires
            input@.len() < MESSAGE_LIMIT,
        ensures
            match r {
                Ok(file) => metainfo_document(input@) == Ok::<MetaInfoView, Error>(file@),
                Err(e) => metainfo_document(input@) == Err::<MetaInfoView, Error>(e),
            },
    {
        let (announce, info) = match MetaInfoFile::outline(input) {
            Ok(found) => found,
            Err(e) => {
                return Err(e);
            },
        };
        match info {
            Some(span) => {
                let info_hash = sha1(span);
                MetaInfoFile::assemble(announce, span, info_hash)
            },
            None => Err(Error::UnknownField),
        }
    }

    /// Decodes a metainfo document of any length: `None` where it is too
    /// long for a digest to be taken, and what [`MetaInfoFile::parse`]
    /// returns where it is not.
    pub fn parse_checked(input: &'a [u8]) -> (r: Option<Result<MetaInfoFile<'a>, Error>>)
        ensures
            r is None <==> input@.len() >= MESSAGE_LIMIT,
            match r {
                Some(Ok(file)) => metainfo_document(input@) == Ok::<MetaInfoView, Error>(file@),
                Some(Err(e)) => metainfo_document(input@) == Err::<MetaInfoView, Error>(e),
                None => true,
            },
    {
        if input.len() as u64 >= MESSAGE_LIMIT {
            None
        } else {
            Some(MetaInfoFile::parse(input))
        }
    }
}

} // verus!
