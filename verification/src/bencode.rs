//! A cursor over a byte buffer that reads the primitives of the encoding.
//!
//! The cursor borrows the buffer and hands out views into it: nothing is
//! copied and nothing is allocated.

use vstd::prelude::*;
use vstd::string::StringSliceAdditionalSpecFns;
use vstd::utf8::{decode_utf8, encode_utf8_decode_utf8, valid_utf8};
use crate::ascii::{COLON, DICT, END, INT, LIST, NINE, ZERO};
use crate::decimal::{read_i64, read_usize};
use crate::grammar::{
    bytes_step, first_at, int_step, lemma_members_bounds, lemma_position_absent,
    lemma_position_found, lemma_value_bounds, members_step, position, text_step, value_step,
};

pub use crate::error::Error;

verus! {

/// `core::str::Utf8Error`, which says where a byte slice stops being UTF-8.
/// The decoder only learns from it that the slice is not UTF-8.
#[verifier::external_type_specification]
#[verifier::external_body]
pub struct ExUtf8Error(core::str::Utf8Error);

/// `core::str::from_utf8` succeeds exactly on the slices that are valid
/// UTF-8, and the string it returns is made of the very bytes it was given.
pub assume_specification<'a>[ core::str::from_utf8 ](v: &'a [u8]) -> (r: Result<
    &'a str,
    core::str::Utf8Error,
>)
    ensures
        r is Ok <==> valid_utf8(v@),
        r matches Ok(s) ==> s.spec_bytes() == v@,
;

/// The next byte of `s`, if `s` is not empty.
pub open spec fn front(s: Seq<u8>) -> Option<u8> {
    if s.len() == 0 {
        None
    } else {
        Some(s[0])
    }
}

/// Finds the first `b` in `s`.
pub fn locate(s: &[u8], b: u8) -> (r: Option<usize>)
    ensures
        position(s@, b) == (match r {
            Some(i) => Some(i as int),
            None => None,
        }),
{
    let mut i: usize = 0;
    while i < s.len()
        invariant
            0 <= i <= s.len(),
            forall|j: int| 0 <= j < i ==> s@[j] != b,
        decreases s.len() - i,
    {
        if s[i] == b {
            proof {
                assert(first_at(s@, b, i as int));
                lemma_position_found(s@, b, i as int);
            }
            return Some(i);
        }
        i = i + 1;
    }
    proof {
        lemma_position_absent(s@, b);
    }
    None
}

/// Splits a byte string off the front of `s`: its content, and what
/// follows it.
fn split_bytes<'a>(s: &'a [u8]) -> (r: Result<(&'a [u8], &'a [u8]), Error>)
    ensures
        match r {
            Ok((content, rest)) => {
                &&& bytes_step(s@).outcome == Ok::<Seq<u8>, Error>(content@)
                &&& bytes_step(s@).used <= s@.len()
                &&& rest@ == s@.skip(bytes_step(s@).used as int)
            },
            Err(e) => bytes_step(s@).outcome == Err::<Seq<u8>, Error>(e),
        },
{
    match locate(s, COLON) {
        None => Err(Error::ExpectedString),
        Some(colon) => {
            proof {
                assert(first_at(s@, COLON, colon as int));
            }
            let (digits, tail) = s.split_at(colon);
            assert(digits@ =~= s@.take(colon as int));
            match read_usize(digits) {
                None => Err(Error::InvalidSyntax),
                Some(n) => {
                    let available: usize = tail.len() - 1;
                    if available < n {
                        Err(Error::UnexpectedEof)
                    } else {
                        let (_, body) = tail.split_at(1);
                        let (content, rest) = body.split_at(n);
                        assert(content@ =~= s@.subrange(colon + 1, colon + 1 + n));
                        assert(rest@ =~= s@.skip(colon + 1 + n));
                        Ok((content, rest))
                    }
                },
            }
        },
    }
}

/// A cursor over the bytes that are still to be read.
pub struct BencodeParser<'a> {
    input: &'a [u8],
}

impl<'a> View for BencodeParser<'a> {
    type V = Seq<u8>;

    /// The bytes that are still to be read.
    closed spec fn view(&self) -> Seq<u8> {
        self.input@
    }
}

impl<'a> BencodeParser<'a> {
    /// A cursor at the start of `input`.
    pub fn new(input: &'a [u8]) -> (r: Self)
        ensures
            r@ == input@,
    {
        BencodeParser { input }
    }

    /// The next byte, which stays unread.
    pub fn peek(&self) -> (r: Option<u8>)
        ensures
            r == front(self@),
    {
        if self.input.len() == 0 {
            None
        } else {
            Some(self.input[0])
        }
    }

    /// Passes `n` bytes.
    fn advance(&mut self, n: usize)
        requires
            n <= old(self)@.len(),
        ensures
            final(self)@ == old(self)@.skip(n as int),
    {
        let (_, rest) = self.input.split_at(n);
        self.input = rest;
    }

    /// Reads an integer.
    pub fn parse_int(&mut self) -> (r: Result<i64, Error>)
        ensures
            r == int_step(old(self)@).outcome,
            final(self)@ == old(self)@.skip(int_step(old(self)@).used as int),
    {
        if self.input.len() == 0 || self.input[0] != INT {
            assert(self@.skip(0) =~= self@);
            return Err(Error::ExpectedInteger);
        }
        self.advance(1);
        let body = self.input;
        match locate(body, END) {
            None => Err(Error::InvalidSyntax),
            Some(end) => {
                proof {
                    assert(first_at(body@, END, end as int));
                }
                let (literal, _) = body.split_at(end);
                assert(literal@ =~= body@.take(end as int));
                match read_i64(literal) {
                    None => Err(Error::InvalidSyntax),
                    Some(v) => {
                        self.advance(end + 1);
                        assert(self@ =~= old(self)@.skip(end + 2));
                        Ok(v)
                    },
                }
            },
        }
    }

    /// Reads a byte string and hands out its content as it stands.
    pub fn parse_str_bytes(&mut self) -> (r: Result<&'a [u8], Error>)
        ensures
            match r {
                Ok(content) => bytes_step(old(self)@).outcome == Ok::<Seq<u8>, Error>(content@),
                Err(e) => bytes_step(old(self)@).outcome == Err::<Seq<u8>, Error>(e),
            },
            final(self)@ == old(self)@.skip(bytes_step(old(self)@).used as int),
    {
        match split_bytes(self.input) {
            Ok((content, rest)) => {
                self.input = rest;
                Ok(content)
            },
            Err(e) => {
                assert(self@.skip(0) =~= self@);
                Err(e)
            },
        }
    }

    /// Reads a byte string that holds text, and hands the text out: the
    /// characters that its bytes are the UTF-8 encoding of.
    pub fn parse_str(&mut self) -> (r: Result<&'a str, Error>)
        ensures
            match r {
                Ok(text) => {
                    &&& text_step(old(self)@).outcome == Ok::<Seq<u8>, Error>(text.spec_bytes())
                    &&& text@ == decode_utf8(text.spec_bytes())
                },
                Err(e) => text_step(old(self)@).outcome == Err::<Seq<u8>, Error>(e),
            },
            final(self)@ == old(self)@.skip(text_step(old(self)@).used as int),
    {
        match split_bytes(self.input) {
            Ok((content, rest)) => {
                match core::str::from_utf8(content) {
                    Ok(text) => {
                        proof {
                            encode_utf8_decode_utf8(text@);
                        }
                        self.input = rest;
                        Ok(text)
                    },
                    Err(_) => {
                        assert(self@.skip(0) =~= self@);
                        Err(Error::InvalidUtf8)
                    },
                }
            },
            Err(e) => {
                assert(self@.skip(0) =~= self@);
                Err(e)
            },
        }
    }

    /// Passes the members of a list or of a dictionary, and the `e` that
    /// closes it. The cursor stands behind the opening byte.
    fn skip_members(&mut self, paired: bool) -> (r: Result<(), Error>)
        ensures
            r == members_step(old(self)@, paired).outcome,
            members_step(old(self)@, paired).used <= old(self)@.len(),
            final(self)@ == old(self)@.skip(members_step(old(self)@, paired).used as int),
        decreases old(self)@.len(), 1nat,
    {
        let ghost start = self@;
        let ghost passed: nat = 0;
        proof {
            assert(start.skip(0) =~= start);
            lemma_members_bounds(start, paired);
        }
        while !(self.input.len() > 0 && self.input[0] == END)
            invariant
                passed <= start.len(),
                self@ == start.skip(passed as int),
                self@.len() <= old(self)@.len(),
                start == old(self)@,
                members_step(start, paired) == members_step(self@, paired).after(passed),
            decreases self@.len(),
        {
            let ghost here = self@;
            proof {
                lemma_value_bounds(here);
            }
            match self.parse_raw_value() {
                Ok(_) => {},
                Err(e) => {
                    assert(self@ =~= start.skip((passed + value_step(here).used) as int));
                    return Err(e);
                },
            }
            let ghost first = value_step(here);
            assert(self@ =~= start.skip((passed + first.used) as int));
            if paired {
                let ghost there = self@;
                proof {
                    lemma_value_bounds(there);
                }
                match self.parse_raw_value() {
                    Ok(_) => {},
                    Err(e) => {
                        assert(self@ =~= start.skip(
                            (passed + first.used + value_step(there).used) as int,
                        ));
                        return Err(e);
                    },
                }
                assert(self@ =~= start.skip(
                    (passed + first.used + value_step(there).used) as int,
                ));
                assert(self@ =~= here.skip((first.used + value_step(there).used) as int));
                proof {
                    passed = passed + first.used + value_step(there).used;
                }
            } else {
                proof {
                    passed = passed + first.used;
                }
            }
        }
        self.advance(1);
        assert(self@ =~= start.skip((passed + 1) as int));
        Ok(())
    }

    /// Reads one value of any kind and hands out the bytes it is made of,
    /// from its first byte to its last.
    pub fn parse_raw_value(&mut self) -> (r: Result<&'a [u8], Error>)
        ensures
            match r {
                Ok(span) => {
                    &&& value_step(old(self)@).outcome is Ok
                    &&& span@ == old(self)@.take(value_step(old(self)@).used as int)
                },
                Err(e) => value_step(old(self)@).outcome == Err::<(), Error>(e),
            },
            value_step(old(self)@).used <= old(self)@.len(),
            final(self)@ == old(self)@.skip(value_step(old(self)@).used as int),
        decreases old(self)@.len(), 0nat,
    {
        let whole = self.input;
        proof {
            lemma_value_bounds(whole@);
            assert(whole@.skip(0) =~= whole@);
        }
        if whole.len() == 0 {
            return Err(Error::InvalidSyntax);
        }
        let opening: u8 = whole[0];
        if opening == INT {
            match self.parse_int() {
                Ok(_) => {},
                Err(e) => {
                    return Err(e);
                },
            }
        } else if ZERO <= opening && opening <= NINE {
            match self.parse_str_bytes() {
                Ok(_) => {},
                Err(e) => {
                    return Err(e);
                },
            }
        } else if opening == LIST || opening == DICT {
            self.advance(1);
            match self.skip_members(opening == DICT) {
                Ok(_) => {},
                Err(e) => {
                    assert(self@ =~= whole@.skip(value_step(whole@).used as int));
                    return Err(e);
                },
            }
            assert(self@ =~= whole@.skip(value_step(whole@).used as int));
        } else {
            return Err(Error::InvalidSyntax);
        }
        let used: usize = whole.len() - self.input.len();
        let (span, _) = whole.split_at(used);
        assert(span@ =~= whole@.take(used as int));
        Ok(span)
    }

    /// Passes one value of any kind.
    pub fn skip_any(&mut self) -> (r: Result<(), Error>)
        ensures
            r == value_step(old(self)@).outcome,
            final(self)@ == old(self)@.skip(value_step(old(self)@).used as int),
    {
        match self.parse_raw_value() {
            Ok(_) => {
                assert(value_step(old(self)@).outcome->Ok_0 == ());
                Ok(())
            },
            Err(e) => Err(e),
        }
    }

    /// Requires the opening of a dictionary, and passes it.
    pub fn expect_dict_start(&mut self) -> (r: Result<(), Error>)
        ensures
            r == (if front(old(self)@) == Some(DICT) {
                Ok::<(), Error>(())
            } else {
                Err::<(), Error>(Error::ExpectedDict)
            }),
            final(self)@ == (if r is Ok {
                old(self)@.skip(1)
            } else {
                old(self)@
            }),
    {
        if self.input.len() > 0 && self.input[0] == DICT {
            self.advance(1);
            Ok(())
        } else {
            Err(Error::ExpectedDict)
        }
    }

    /// Passes the closing `e` if it is next, and says whether it was.
    pub fn match_dict_end(&mut self) -> (r: bool)
        ensures
            r == (front(old(self)@) == Some(END)),
            final(self)@ == (if r {
                old(self)@.skip(1)
            } else {
                old(self)@
            }),
    {
        if self.input.len() > 0 && self.input[0] == END {
            self.advance(1);
            true
        } else {
            false
        }
    }
}

} // verus!
