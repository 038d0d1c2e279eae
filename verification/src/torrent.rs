//! A flat description of a torrent: the tracker's address, and the length
//! and name of the file, all three keys of one dictionary.

use vstd::prelude::*;
use vstd::string::StringSliceAdditionalSpecFns;
use vstd::utf8::decode_utf8;
use crate::ascii::{DICT, END};
use crate::bencode::{front, BencodeParser};
use crate::bytes::key_is;
use crate::error::Error;
use crate::grammar::{
    int_step, lemma_token_bounds, lemma_value_bounds, text_step, value_step, Step,
};

verus! {

/// What a [`MetaInfo`] says.
pub ghost struct MetaInfoSummary {
    /// The address of the tracker.
    pub announce: Seq<char>,
    /// The number of bytes in the file.
    pub length: i64,
    /// The name of the file.
    pub name: Seq<char>,
}

/// The keys of a flat description that have been met so far.
pub ghost struct SummaryFields {
    /// The value of `announce`.
    pub announce: Option<Seq<char>>,
    /// The value of `length`.
    pub length: Option<i64>,
    /// The value of `name`.
    pub name: Option<Seq<char>>,
}

impl SummaryFields {
    /// No key has been met.
    pub open spec fn none() -> Self {
        SummaryFields { announce: None, length: None, name: None }
    }

    /// The fields together, where all three have been met.
    pub open spec fn complete(self) -> Result<MetaInfoSummary, Error> {
        if self.announce is Some && self.length is Some && self.name is Some {
            Ok(
                MetaInfoSummary {
                    announce: self.announce->0,
                    length: self.length->0,
                    name: self.name->0,
                },
            )
        } else {
            Err(Error::UnknownField)
        }
    }
}

/// Reading the value that stands under `key` in a flat description:
/// `announce` and `name` are text, `length` is an integer, and a key that is
/// met again replaces what it held. The value of any other key is passed
/// over.
pub open spec fn summary_entry(key: Seq<u8>, s: Seq<u8>, seen: SummaryFields) -> Step<
    SummaryFields,
> {
    if key == "announce".spec_bytes() {
        match text_step(s).outcome {
            Ok(content) => Step::done(
                text_step(s).used,
                SummaryFields { announce: Some(decode_utf8(content)), ..seen },
            ),
            Err(e) => Step::failed(text_step(s).used, e),
        }
    } else if key == "length".spec_bytes() {
        match int_step(s).outcome {
            Ok(v) => Step::done(int_step(s).used, SummaryFields { length: Some(v), ..seen }),
            Err(e) => Step::failed(int_step(s).used, e),
        }
    } else if key == "name".spec_bytes() {
        match text_step(s).outcome {
            Ok(content) => Step::done(
                text_step(s).used,
                SummaryFields { name: Some(decode_utf8(content)), ..seen },
            ),
            Err(e) => Step::failed(text_step(s).used, e),
        }
    } else {
        match value_step(s).outcome {
            Ok(_) => Step::done(value_step(s).used, seen),
            Err(e) => Step::failed(value_step(s).used, e),
        }
    }
}

/// Reading the entries of a flat description up to the closing `e`.
#[verifier::opaque]
pub open spec fn summary_entries(s: Seq<u8>, seen: SummaryFields) -> Result<SummaryFields, Error>
    decreases s.len(),
{
    if front(s) == Some(END) {
        Ok(seen)
    } else {
        match text_step(s).outcome {
            Err(e) => Err(e),
            Ok(key) => {
                let value = s.skip(text_step(s).used as int);
                let entry = summary_entry(key, value, seen);
                match entry.outcome {
                    Err(e) => Err(e),
                    Ok(next) => {
                        proof {
                            lemma_token_bounds(s);
                            lemma_token_bounds(value);
                            lemma_value_bounds(value);
                        }
                        summary_entries(value.skip(entry.used as int), next)
                    },
                }
            },
        }
    }
}

/// One step of [`summary_entries`], spelled out.
pub proof fn lemma_summary_entries_step(s: Seq<u8>, seen: SummaryFields)
    ensures
        front(s) == Some(END) ==> summary_entries(s, seen) == Ok::<SummaryFields, Error>(seen),
        front(s) != Some(END) ==> match text_step(s).outcome {
            Err(e) => summary_entries(s, seen) == Err::<SummaryFields, Error>(e),
            Ok(key) => {
                let value = s.skip(text_step(s).used as int);
                let entry = summary_entry(key, value, seen);
                match entry.outcome {
                    Err(e) => summary_entries(s, seen) == Err::<SummaryFields, Error>(e),
                    Ok(next) => summary_entries(s, seen) == summary_entries(
                        value.skip(entry.used as int),
                        next,
                    ),
                }
            },
        },
{
    reveal(summary_entries);
}

/// Decoding a flat description: `d`, the entries, and all three keys met
/// when the closing `e` is reached.
pub open spec fn summary_document(s: Seq<u8>) -> Result<MetaInfoSummary, Error> {
    if front(s) != Some(DICT) {
        Err(Error::ExpectedDict)
    } else {
        match summary_entries(s.skip(1), SummaryFields::none()) {
            Err(e) => Err(e),
            Ok(seen) => seen.complete(),
        }
    }
}

/// A flat description of a torrent.
#[derive(Debug, PartialEq)]
pub struct MetaInfo<'a> {
    /// The address of the tracker.
    pub announce: &'a str,
    /// The number of bytes in the file.
    pub length: i64,
    /// The name of the file.
    pub name: &'a str,
}

impl<'a> View for MetaInfo<'a> {
    type V = MetaInfoSummary;

    open spec fn view(&self) -> MetaInfoSummary {
        MetaInfoSummary { announce: self.announce@, length: self.length, name: self.name@ }
    }
}

/// The keys of a flat description that the decoder has met so far.
struct Partial<'a> {
    announce: Option<&'a str>,
    length: Option<i64>,
    name: Option<&'a str>,
}

impl<'a> View for Partial<'a> {
    type V = SummaryFields;

    closed spec fn view(&self) -> SummaryFields {
        SummaryFields {
            announce: match self.announce {
                Some(text) => Some(text@),
                None => None,
            },
            length: self.length,
            name: match self.name {
                Some(text) => Some(text@),
                None => None,
            },
        }
    }
}

/// Reads the value that stands under `key`.
fn read_field<'a>(p: &mut BencodeParser<'a>, key: &str, seen: Partial<'a>) -> (r: Result<
    Partial<'a>,
    Error,
>)
    ensures
        match r {
            Ok(next) => summary_entry(key.spec_bytes(), old(p)@, seen@).outcome == Ok::<
                SummaryFields,
                Error,
            >(next@),
            Err(e) => summary_entry(key.spec_bytes(), old(p)@, seen@).outcome == Err::<
                SummaryFields,
                Error,
            >(e),
        },
        summary_entry(key.spec_bytes(), old(p)@, seen@).used <= old(p)@.len(),
        final(p)@ == old(p)@.skip(summary_entry(key.spec_bytes(), old(p)@, seen@).used as int),
{
    proof {
        lemma_token_bounds(p@);
        lemma_value_bounds(p@);
    }
    let Partial { announce, length, name } = seen;
    if key_is(key, "announce") {
        match p.parse_str() {
            Ok(text) => Ok(Partial { announce: Some(text), length, name }),
            Err(e) => Err(e),
        }
    } else if key_is(key, "length") {
        match p.parse_int() {
            Ok(v) => Ok(Partial { announce, length: Some(v), name }),
            Err(e) => Err(e),
        }
    } else if key_is(key, "name") {
        match p.parse_str() {
            Ok(text) => Ok(Partial { announce, length, name: Some(text) }),
            Err(e) => Err(e),
        }
    } else {
        match p.skip_any() {
            Ok(_) => Ok(Partial { announce, length, name }),
            Err(e) => Err(e),
        }
    }
}

impl<'a> MetaInfo<'a> {
    /// Decodes a flat description.
    pub fn parse(input: &'a [u8]) -> (r: Result<MetaInfo<'a>, Error>)
        ensures
            match r {
                Ok(meta) => summary_document(input@) == Ok::<MetaInfoSummary, Error>(meta@),
                Err(e) => summary_document(input@) == Err::<MetaInfoSummary, Error>(e),
            },
    {
        let mut p = BencodeParser::new(input);
        let mut seen = Partial { announce: None, length: None, name: None };
        match p.expect_dict_start() {
            Ok(_) => {},
            Err(e) => {
                return Err(e);
            },
        }
        loop
            invariant_except_break
                summary_entries(input@.skip(1), SummaryFields::none()) == summary_entries(
                    p@,
                    seen@,
                ),
            invariant
                front(input@) == Some(DICT),
            ensures
                summary_entries(input@.skip(1), SummaryFields::none()) == Ok::<
                    SummaryFields,
                    Error,
                >(seen@),
            decreases p@.len(),
        {
            proof {
                lemma_summary_entries_step(p@, seen@);
                lemma_token_bounds(p@);
            }
            if p.match_dict_end() {
                break ;
            }
            let key = match p.parse_str() {
                Ok(key) => key,
                Err(e) => {
                    return Err(e);
                },
            };
            seen = match read_field(&mut p, key, seen) {
                Ok(next) => next,
                Err(e) => {
                    return Err(e);
                },
            };
        }
        match seen {
            Partial { announce: Some(announce), length: Some(length), name: Some(name) } => Ok(
                MetaInfo { announce, length, name },
            ),
            _ => Err(Error::UnknownField),
        }
    }
}

} // verus!
