//! The grammar of the encoding, as functions on byte sequences.
//!
//! Each reader is described by a [`Step`]: how many bytes the cursor has
//! passed when the reader returns, and what it returns. The executable
//! decoder is proved against these functions.

use vstd::prelude::*;
use vstd::utf8::valid_utf8;
use crate::ascii::{COLON, DICT, END, INT, LIST};
use crate::decimal::{is_digit, signed_i64, unsigned_within};
use crate::error::Error;

verus! {

/// Where a reader leaves the cursor, and how it ends.
pub ghost struct Step<A> {
    /// The number of bytes that the cursor has passed.
    pub used: nat,
    /// The value read, or the reason for giving up.
    pub outcome: Result<A, Error>,
}

impl<A> Step<A> {
    /// A reader that succeeds with `value` after `used` bytes.
    pub open spec fn done(used: nat, value: A) -> Self {
        Step { used, outcome: Ok(value) }
    }

    /// A reader that gives up with `error` after `used` bytes.
    pub open spec fn failed(used: nat, error: Error) -> Self {
        Step { used, outcome: Err(error) }
    }

    /// The same step, taken after `n` bytes that were already passed.
    pub open spec fn after(self, n: nat) -> Self {
        Step { used: self.used + n, outcome: self.outcome }
    }

    /// The same step with the value dropped.
    pub open spec fn discard(self) -> Step<()> {
        Step {
            used: self.used,
            outcome: match self.outcome {
                Ok(_) => Ok(()),
                Err(e) => Err(e),
            },
        }
    }
}

/// `i` is the position of the first `b` in `s`.
pub open spec fn first_at(s: Seq<u8>, b: u8, i: int) -> bool {
    &&& 0 <= i < s.len()
    &&& s[i] == b
    &&& forall|j: int| 0 <= j < i ==> s[j] != b
}

/// The position of the first `b` in `s`, if there is one.
pub open spec fn position(s: Seq<u8>, b: u8) -> Option<int> {
    if exists|i: int| first_at(s, b, i) {
        Some(choose|i: int| first_at(s, b, i))
    } else {
        None
    }
}

/// A first occurrence is the only one.
pub proof fn lemma_position_found(s: Seq<u8>, b: u8, i: int)
    requires
        first_at(s, b, i),
    ensures
        position(s, b) == Some(i),
{
    let k = choose|k: int| first_at(s, b, k);
    assert(first_at(s, b, k));
    if k < i {
        assert(s[k] != b);
    } else if i < k {
        assert(s[i] != b);
    }
}

/// A byte that occurs nowhere has no position.
pub proof fn lemma_position_absent(s: Seq<u8>, b: u8)
    requires
        forall|j: int| 0 <= j < s.len() ==> s[j] != b,
    ensures
        position(s, b) is None,
{
    if exists|i: int| first_at(s, b, i) {
        let k = choose|k: int| first_at(s, b, k);
        assert(s[k] != b);
    }
}

/// What a found position means.
pub proof fn lemma_position_is_first(s: Seq<u8>, b: u8)
    ensures
        position(s, b) matches Some(i) ==> first_at(s, b, i),
{
}

/// Reading an integer: `i`, a signed decimal literal, `e`.
///
/// The literal runs to the first `e` after the opening byte. It must be a
/// 64-bit signed integer; anything else is a syntax error, found after the
/// opening byte has been passed.
pub open spec fn int_step(s: Seq<u8>) -> Step<i64> {
    if s.len() == 0 || s[0] != INT {
        Step::failed(0, Error::ExpectedInteger)
    } else {
        match position(s.skip(1), END) {
            Some(end) => match signed_i64(s.skip(1).take(end)) {
                Some(v) => Step::done((end + 2) as nat, v),
                None => Step::failed(1, Error::InvalidSyntax),
            },
            None => Step::failed(1, Error::InvalidSyntax),
        }
    }
}

/// Reading a byte string: an unsigned decimal length, `:`, and that many
/// bytes, which are the value.
///
/// The length runs to the first `:` of the input and must fit a `usize`. A
/// failure leaves the cursor where it was.
pub open spec fn bytes_step(s: Seq<u8>) -> Step<Seq<u8>> {
    match position(s, COLON) {
        None => Step::failed(0, Error::ExpectedString),
        Some(colon) => match unsigned_within(s.take(colon), usize::MAX as nat) {
            None => Step::failed(0, Error::InvalidSyntax),
            Some(n) => if colon + 1 + n > s.len() {
                Step::failed(0, Error::UnexpectedEof)
            } else {
                Step::done((colon + 1 + n) as nat, s.subrange(colon + 1, colon + 1 + n))
            },
        },
    }
}

/// Reading text: a byte string whose content is UTF-8. The value is the
/// content, as bytes.
pub open spec fn text_step(s: Seq<u8>) -> Step<Seq<u8>> {
    match bytes_step(s).outcome {
        Ok(content) => if valid_utf8(content) {
            bytes_step(s)
        } else {
            Step::failed(0, Error::InvalidUtf8)
        },
        Err(_) => bytes_step(s),
    }
}

/// Passing over one value of any kind.
///
/// An integer and a byte string are read as above, the byte string without
/// regard to what it holds. A list is `l`, values, `e`; a dictionary is `d`,
/// pairs of values, `e`. Nothing else opens a value.
pub open spec fn value_step(s: Seq<u8>) -> Step<()>
    decreases s.len(), 0nat,
{
    if s.len() == 0 {
        Step::failed(0, Error::InvalidSyntax)
    } else if s[0] == INT {
        int_step(s).discard()
    } else if is_digit(s[0]) {
        bytes_step(s).discard()
    } else if s[0] == LIST {
        members_step(s.skip(1), false).after(1)
    } else if s[0] == DICT {
        members_step(s.skip(1), true).after(1)
    } else {
        Step::failed(0, Error::InvalidSyntax)
    }
}

/// Passing over the members of a list (`paired` is false) or of a
/// dictionary (`paired` is true), up to and including the closing `e`.
///
/// The members of a dictionary are passed two at a time, and the key is
/// held to no more than the value is: any value stands for a key.
///
/// The tests on `used` are there for the definition to end. A member that
/// was passed has taken at least one byte and no more than there are
/// ([`lemma_value_bounds`]), so none of them turns a success away.
pub open spec fn members_step(s: Seq<u8>, paired: bool) -> Step<()>
    decreases s.len(), 1nat,
{
    if s.len() > 0 && s[0] == END {
        Step::done(1, ())
    } else {
        let first = value_step(s);
        if first.outcome is Err || first.used == 0 || first.used > s.len() {
            first
        } else if !paired {
            members_step(s.skip(first.used as int), paired).after(first.used)
        } else {
            let second = value_step(s.skip(first.used as int)).after(first.used);
            if second.outcome is Err || second.used <= first.used || second.used > s.len() {
                second
            } else {
                members_step(s.skip(second.used as int), paired).after(second.used)
            }
        }
    }
}

/// A reader never passes more bytes than there are, and passes at least one
/// when it succeeds.
pub proof fn lemma_value_bounds(s: Seq<u8>)
    ensures
        value_step(s).used <= s.len(),
        value_step(s).outcome is Ok ==> value_step(s).used >= 1,
    decreases s.len(), 0nat,
{
    if s.len() == 0 {
    } else if s[0] == INT {
        lemma_position_is_first(s.skip(1), END);
    } else if is_digit(s[0]) {
        lemma_position_is_first(s, COLON);
    } else if s[0] == LIST {
        lemma_members_bounds(s.skip(1), false);
    } else if s[0] == DICT {
        lemma_members_bounds(s.skip(1), true);
    }
}

/// The same bounds for the members of a list or dictionary.
pub proof fn lemma_members_bounds(s: Seq<u8>, paired: bool)
    ensures
        members_step(s, paired).used <= s.len(),
        members_step(s, paired).outcome is Ok ==> members_step(s, paired).used >= 1,
    decreases s.len(), 1nat,
{
    if s.len() > 0 && s[0] == END {
    } else {
        lemma_value_bounds(s);
        let first = value_step(s);
        if first.outcome is Err || first.used == 0 || first.used > s.len() {
        } else if !paired {
            lemma_members_bounds(s.skip(first.used as int), paired);
        } else {
            lemma_value_bounds(s.skip(first.used as int));
            let second = value_step(s.skip(first.used as int)).after(first.used);
            if second.outcome is Err || second.used <= first.used || second.used > s.len() {
            } else {
                lemma_members_bounds(s.skip(second.used as int), paired);
            }
        }
    }
}

/// Reading an integer, a byte string or text never passes more bytes than
/// there are, and passes at least one on success.
pub proof fn lemma_token_bounds(s: Seq<u8>)
    ensures
        int_step(s).used <= s.len(),
        int_step(s).outcome is Ok ==> int_step(s).used >= 1,
        bytes_step(s).used <= s.len(),
        bytes_step(s).outcome is Ok ==> bytes_step(s).used >= 1,
        text_step(s).used <= s.len(),
        text_step(s).outcome is Ok ==> text_step(s).used >= 1,
{
    lemma_position_is_first(s, COLON);
    if s.len() > 0 {
        lemma_position_is_first(s.skip(1), END);
    }
}

} // verus!
