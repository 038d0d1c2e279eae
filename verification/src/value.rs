//! Well-formed values and how they are written, with the proofs that the
//! grammar reads back what was written.

use vstd::prelude::*;
use vstd::utf8::valid_utf8;
use crate::ascii::{COLON, DICT, END, INT, LIST, MINUS, PLUS};
use crate::decimal::{
    all_digits, decimal, is_digit, lemma_decimal_reads_back, lemma_signed_decimal_reads_back,
    signed_decimal, signed_i64, signed_literal,
};
use crate::error::Error;
use crate::grammar::{
    bytes_step, first_at, int_step, lemma_position_absent, lemma_position_found, members_step,
    position, text_step, value_step, Step,
};

verus! {

/// How an integer is written.
pub open spec fn encode_int(v: i64) -> Seq<u8> {
    seq![INT] + signed_decimal(v as int) + seq![END]
}

/// How a byte string is written.
pub open spec fn encode_bytes(content: Seq<u8>) -> Seq<u8> {
    decimal(content.len()) + seq![COLON] + content
}

/// A value of the encoding.
pub ghost enum Value {
    /// A 64-bit signed integer.
    Int(i64),
    /// A string of bytes.
    Bytes(Seq<u8>),
    /// A list of values.
    List(Seq<Value>),
    /// A dictionary: keys, which are byte strings, each with its value.
    Dict(Seq<(Seq<u8>, Value)>),
}

impl Value {
    /// Every byte string in the value, keys included, has a length that a
    /// `usize` can hold.
    pub open spec fn well_formed(self) -> bool
        decreases self,
    {
        match self {
            Value::Int(_) => true,
            Value::Bytes(content) => content.len() <= usize::MAX,
            Value::List(items) => forall|i: int|
                0 <= i < items.len() ==> (#[trigger] items[i]).well_formed(),
            Value::Dict(entries) => forall|i: int|
                0 <= i < entries.len() ==> {
                    &&& (#[trigger] entries[i]).0.len() <= usize::MAX
                    &&& entries[i].1.well_formed()
                },
        }
    }

    /// How the value is written.
    pub open spec fn encode(self) -> Seq<u8>
        decreases self,
    {
        match self {
            Value::Int(v) => encode_int(v),
            Value::Bytes(content) => encode_bytes(content),
            Value::List(items) => seq![LIST] + encode_items(items) + seq![END],
            Value::Dict(entries) => seq![DICT] + encode_entries(entries) + seq![END],
        }
    }
}

/// How the members of a list are written, one after the other.
pub open spec fn encode_items(items: Seq<Value>) -> Seq<u8>
    decreases items,
{
    if items.len() == 0 {
        Seq::empty()
    } else {
        items[0].encode() + encode_items(items.subrange(1, items.len() as int))
    }
}

/// How the entries of a dictionary are written: each key, then its value.
pub open spec fn encode_entries(entries: Seq<(Seq<u8>, Value)>) -> Seq<u8>
    decreases entries,
{
    if entries.len() == 0 {
        Seq::empty()
    } else {
        encode_bytes(entries[0].0) + entries[0].1.encode() + encode_entries(
            entries.subrange(1, entries.len() as int),
        )
    }
}

/// No byte of a number as written is the `e` that closes an integer or the
/// `:` that follows a length.
proof fn lemma_literal_has_no_delimiter(v: int)
    ensures
        forall|i: int|
            0 <= i < signed_decimal(v).len() ==> {
                &&& (#[trigger] signed_decimal(v)[i]) != END
                &&& signed_decimal(v)[i] != COLON
            },
{
    lemma_signed_decimal_reads_back(v);
    assert forall|i: int| 0 <= i < signed_decimal(v).len() implies {
        &&& (#[trigger] signed_decimal(v)[i]) != END
        &&& signed_decimal(v)[i] != COLON
    } by {
        assert(is_digit(signed_decimal(v)[i]) || signed_decimal(v)[i] == MINUS);
    }
}

/// An integer that was written is read back: whatever follows it, reading
/// yields the integer and passes exactly the bytes that were written.
pub proof fn theorem_int_round_trip(v: i64, rest: Seq<u8>)
    ensures
        int_step(encode_int(v) + rest) == Step::done(encode_int(v).len(), v),
{
    let literal = signed_decimal(v as int);
    let s = encode_int(v) + rest;
    let body = s.skip(1);
    lemma_signed_decimal_reads_back(v as int);
    lemma_literal_has_no_delimiter(v as int);
    assert(s[0] == INT);
    assert forall|j: int| 0 <= j < literal.len() implies body[j] == literal[j] by {
        assert(body[j] == s[j + 1]);
    }
    assert(body[literal.len() as int] == END) by {
        assert(body[literal.len() as int] == s[literal.len() as int + 1]);
    }
    assert(first_at(body, END, literal.len() as int));
    lemma_position_found(body, END, literal.len() as int);
    assert(body.take(literal.len() as int) =~= literal);
}

/// An integer that is never closed is a syntax error.
pub proof fn theorem_int_unterminated(s: Seq<u8>)
    requires
        s.len() > 0,
        s[0] == INT,
        forall|i: int| 1 <= i < s.len() ==> s[i] != END,
    ensures
        int_step(s) == Step::<i64>::failed(1, Error::InvalidSyntax),
{
    assert forall|j: int| 0 <= j < s.skip(1).len() implies s.skip(1)[j] != END by {
        assert(s.skip(1)[j] == s[j + 1]);
    }
    lemma_position_absent(s.skip(1), END);
}

/// What stands between `i` and `e` must be a signed literal in the 64-bit
/// range: a leading `+`, a byte that is neither a digit nor a leading `-`,
/// no digit at all, or a magnitude out of range is a syntax error.
pub proof fn theorem_int_malformed(literal: Seq<u8>, rest: Seq<u8>)
    requires
        forall|i: int| 0 <= i < literal.len() ==> literal[i] != END,
        ({
            ||| literal.len() > 0 && literal[0] == PLUS
            ||| exists|i: int|
                0 <= i < literal.len() && !is_digit(literal[i]) && !(i == 0 && literal[0] == MINUS)
            ||| literal.len() == 0
            ||| literal =~= seq![MINUS]
            ||| signed_literal(literal) matches Some(v) && !(i64::MIN <= v <= i64::MAX)
        }),
    ensures
        int_step(seq![INT] + literal + seq![END] + rest) == Step::<i64>::failed(
            1,
            Error::InvalidSyntax,
        ),
{
    let s = seq![INT] + literal + seq![END] + rest;
    let body = s.skip(1);
    assert forall|j: int| 0 <= j < literal.len() implies body[j] == literal[j] by {
        assert(body[j] == s[j + 1]);
    }
    assert(body[literal.len() as int] == END) by {
        assert(body[literal.len() as int] == s[literal.len() as int + 1]);
    }
    assert(first_at(body, END, literal.len() as int));
    lemma_position_found(body, END, literal.len() as int);
    assert(body.take(literal.len() as int) =~= literal);
    if literal.len() > 0 && literal[0] == PLUS {
        assert(!is_digit(literal[0]));
    } else if exists|i: int|
        0 <= i < literal.len() && !is_digit(literal[i]) && !(i == 0 && literal[0] == MINUS) {
        let i = choose|i: int|
            0 <= i < literal.len() && !is_digit(literal[i]) && !(i == 0 && literal[0] == MINUS);
        if literal[0] == MINUS {
            assert(literal.skip(1)[i - 1] == literal[i]);
        }
    } else if literal.len() == 0 {
    } else if literal =~= seq![MINUS] {
        assert(literal.skip(1).len() == 0);
    }
    assert(signed_i64(literal) is None);
}

/// In `digits`, `:`, `tail` the first `:` is the one behind the digits.
proof fn lemma_colon_follows_digits(digits: Seq<u8>, tail: Seq<u8>)
    requires
        all_digits(digits),
    ensures
        position(digits + seq![COLON] + tail, COLON) == Some(digits.len() as int),
        (digits + seq![COLON] + tail).take(digits.len() as int) == digits,
{
    let s = digits + seq![COLON] + tail;
    assert forall|j: int| 0 <= j < digits.len() implies s[j] != COLON by {
        assert(is_digit(digits[j]));
    }
    assert(first_at(s, COLON, digits.len() as int));
    lemma_position_found(s, COLON, digits.len() as int);
    assert(s.take(digits.len() as int) =~= digits);
}

/// A byte string that was written is read back: whatever it holds and
/// whatever follows it, reading yields its content unchanged and passes
/// exactly the bytes that were written.
pub proof fn theorem_bytes_round_trip(content: Seq<u8>, rest: Seq<u8>)
    requires
        content.len() <= usize::MAX,
    ensures
        bytes_step(encode_bytes(content) + rest) == Step::done(
            encode_bytes(content).len(),
            content,
        ),
{
    let digits = decimal(content.len());
    let s = encode_bytes(content) + rest;
    lemma_decimal_reads_back(content.len());
    assert(s =~= digits + seq![COLON] + (content + rest));
    lemma_colon_follows_digits(digits, content + rest);
    let from = digits.len() as int + 1;
    assert(s.subrange(from, from + content.len()) =~= content);
}

/// Text that was written is read back where its bytes are UTF-8, and is
/// refused for that reason alone where they are not.
pub proof fn theorem_text_round_trip(content: Seq<u8>, rest: Seq<u8>)
    requires
        content.len() <= usize::MAX,
    ensures
        valid_utf8(content) ==> text_step(encode_bytes(content) + rest) == Step::done(
            encode_bytes(content).len(),
            content,
        ),
        !valid_utf8(content) ==> text_step(encode_bytes(content) + rest) == Step::<
            Seq<u8>,
        >::failed(0, Error::InvalidUtf8),
{
    theorem_bytes_round_trip(content, rest);
}

/// A length that promises more bytes than follow is the end of the input,
/// for a byte string and for text alike.
pub proof fn theorem_bytes_cut_short(declared: nat, tail: Seq<u8>)
    requires
        declared <= usize::MAX,
        tail.len() < declared,
    ensures
        bytes_step(decimal(declared) + seq![COLON] + tail) == Step::<Seq<u8>>::failed(
            0,
            Error::UnexpectedEof,
        ),
        text_step(decimal(declared) + seq![COLON] + tail) == Step::<Seq<u8>>::failed(
            0,
            Error::UnexpectedEof,
        ),
{
    lemma_decimal_reads_back(declared);
    lemma_colon_follows_digits(decimal(declared), tail);
}

/// A value as written begins with the byte that opens its kind, and that
/// byte is never the closing `e`.
pub proof fn lemma_encode_opening(v: Value)
    ensures
        v.encode().len() >= 2,
        match v {
            Value::Int(_) => v.encode()[0] == INT,
            Value::Bytes(_) => is_digit(v.encode()[0]),
            Value::List(_) => v.encode()[0] == LIST,
            Value::Dict(_) => v.encode()[0] == DICT,
        },
        v.encode()[0] != END,
{
    match v {
        Value::Int(n) => {
            lemma_signed_decimal_reads_back(n as int);
        },
        Value::Bytes(content) => {
            lemma_decimal_reads_back(content.len());
            assert(encode_bytes(content)[0] == decimal(content.len())[0]);
        },
        Value::List(items) => {},
        Value::Dict(entries) => {},
    }
}

/// Passing over a well-formed value consumes exactly that value: the
/// cursor stops at the first byte that follows it, whatever follows and
/// however deep lists and dictionaries are nested in it.
pub proof fn theorem_value_passed(v: Value, rest: Seq<u8>)
    requires
        v.well_formed(),
    ensures
        value_step(v.encode() + rest) == Step::done(v.encode().len(), ()),
    decreases v,
{
    let s = v.encode() + rest;
    lemma_encode_opening(v);
    assert(s[0] == v.encode()[0]);
    match v {
        Value::Int(n) => {
            theorem_int_round_trip(n, rest);
        },
        Value::Bytes(content) => {
            theorem_bytes_round_trip(content, rest);
        },
        Value::List(items) => {
            let inner = encode_items(items);
            theorem_items_passed(items, rest);
            assert(s.skip(1) =~= inner + seq![END] + rest);
            assert(v.encode().len() == inner.len() + 2);
        },
        Value::Dict(entries) => {
            let inner = encode_entries(entries);
            theorem_entries_passed(entries, rest);
            assert(s.skip(1) =~= inner + seq![END] + rest);
            assert(v.encode().len() == inner.len() + 2);
        },
    }
}

/// A byte string as written is passed over as a value.
proof fn lemma_bytes_passed(content: Seq<u8>, rest: Seq<u8>)
    requires
        content.len() <= usize::MAX,
    ensures
        value_step(encode_bytes(content) + rest) == Step::done(encode_bytes(content).len(), ()),
        encode_bytes(content).len() >= 2,
        (encode_bytes(content) + rest)[0] != END,
{
    theorem_bytes_round_trip(content, rest);
    lemma_encode_opening(Value::Bytes(content));
    assert((encode_bytes(content) + rest)[0] == encode_bytes(content)[0]);
}

/// Where a list begins with a value of `head` bytes, passing over it comes
/// down to passing over the members behind that value.
proof fn lemma_first_item(head: Seq<u8>, tail: Seq<u8>, behind: nat)
    requires
        head.len() > 0,
        head[0] != END,
        value_step(head + tail) == Step::done(head.len(), ()),
        members_step(tail, false) == Step::done(behind, ()),
    ensures
        members_step(head + tail, false) == Step::done(head.len() + behind, ()),
{
    let s = head + tail;
    assert(s[0] == head[0]);
    assert(s.skip(head.len() as int) =~= tail);
}

/// Where a dictionary begins with a key and a value, passing over it comes
/// down to passing over the entries behind them.
proof fn lemma_first_entry(key: Seq<u8>, value: Seq<u8>, tail: Seq<u8>, behind: nat)
    requires
        key.len() > 0,
        value.len() > 0,
        key[0] != END,
        value_step(key + (value + tail)) == Step::done(key.len(), ()),
        value_step(value + tail) == Step::done(value.len(), ()),
        members_step(tail, true) == Step::done(behind, ()),
    ensures
        members_step(key + value + tail, true) == Step::done(
            key.len() + value.len() + behind,
            (),
        ),
{
    let s = key + value + tail;
    assert(s =~= key + (value + tail));
    assert(s[0] == key[0]);
    assert(s.skip(key.len() as int) =~= value + tail);
    assert(s.skip((key.len() + value.len()) as int) =~= tail);
    let first = value_step(s);
    let second = value_step(s.skip(first.used as int)).after(first.used);
    assert(first == Step::done(key.len(), ()));
    assert(second == Step::done(key.len() + value.len(), ()));
}

/// Passing over the members of a list consumes them and the closing `e`.
pub proof fn theorem_items_passed(items: Seq<Value>, rest: Seq<u8>)
    requires
        forall|i: int| 0 <= i < items.len() ==> (#[trigger] items[i]).well_formed(),
    ensures
        members_step(encode_items(items) + seq![END] + rest, false) == Step::done(
            encode_items(items).len() + 1,
            (),
        ),
    decreases items,
{
    let s = encode_items(items) + seq![END] + rest;
    if items.len() == 0 {
        assert(s[0] == END);
    } else {
        let head = items[0].encode();
        let others = items.subrange(1, items.len() as int);
        let tail = encode_items(others) + seq![END] + rest;
        assert(s =~= head + tail);
        lemma_encode_opening(items[0]);
        theorem_value_passed(items[0], tail);
        assert forall|i: int| 0 <= i < others.len() implies (#[trigger] others[i]).well_formed(
        ) by {
            assert(others[i] == items[i + 1]);
        }
        theorem_items_passed(others, rest);
        lemma_first_item(head, tail, encode_items(others).len() + 1);
    }
}

/// Passing over the entries of a dictionary consumes them and the closing
/// `e`.
pub proof fn theorem_entries_passed(entries: Seq<(Seq<u8>, Value)>, rest: Seq<u8>)
    requires
        forall|i: int|
            0 <= i < entries.len() ==> {
                &&& (#[trigger] entries[i]).0.len() <= usize::MAX
                &&& entries[i].1.well_formed()
            },
    ensures
        members_step(encode_entries(entries) + seq![END] + rest, true) == Step::done(
            encode_entries(entries).len() + 1,
            (),
        ),
    decreases entries,
{
    let s = encode_entries(entries) + seq![END] + rest;
    if entries.len() == 0 {
        assert(s[0] == END);
    } else {
        let key = encode_bytes(entries[0].0);
        let value = entries[0].1.encode();
        let others = entries.subrange(1, entries.len() as int);
        let tail = encode_entries(others) + seq![END] + rest;
        assert(s =~= key + value + tail);
        lemma_bytes_passed(entries[0].0, value + tail);
        assert(key[0] == (key + (value + tail))[0]);
        lemma_encode_opening(entries[0].1);
        theorem_value_passed(entries[0].1, tail);
        assert forall|i: int| 0 <= i < others.len() implies {
            &&& (#[trigger] others[i]).0.len() <= usize::MAX
            &&& others[i].1.well_formed()
        } by {
            assert(others[i] == entries[i + 1]);
        }
        theorem_entries_passed(others, rest);
        lemma_first_entry(key, value, tail, encode_entries(others).len() + 1);
    }
}

} // verus!
