//! The bencoding grammar as a mathematical function from bytes to decoded
//! values: what each decoder returns, for every input.
//!
//! A byte string is `<length>:<bytes>`, an integer `i<digits>e`, a list
//! `l<elements>e`, a dictionary `d<key><value>...e`. Offsets in failures
//! count from the start of the sequence that the function is applied to.

use crate::ascii::{all_digits, first_non_digit, is_digit, spec_ascii_integer, unsigned_part};
use crate::model::{
    DecodeErrorType, DecodeErrorView, Decoded, DictEntryView, Document, ElementView,
};
use vstd::prelude::*;

verus! {

pub const COLON: u8 = 0x3a;

pub const D: u8 = 0x64;

pub const E: u8 = 0x65;

pub const I: u8 = 0x69;

pub const L: u8 = 0x6c;

pub const MSG_STRING_DELIMITER: &'static str = "Can't decode bytestring from data: missing ':'";

pub const MSG_STRING_SIZE: &'static str = "Can't decode size integer for string";

pub const MSG_STRING_DATA: &'static str = "Can't decode bytestring: data ends before the string does";

pub const MSG_INTEGER_START: &'static str = "Can't decode integer: missing leading 'i'";

pub const MSG_INTEGER_END: &'static str = "Can't decode integer: missing end 'e'";

pub const MSG_INTEGER_VALUE: &'static str = "Can't decode integer";

pub const MSG_LIST_START: &'static str = "Can't decode list: missing leading 'l'";

pub const MSG_LIST_END: &'static str = "Can't decode list: ran out of chars before trailing 'e'";

pub const MSG_DICT_START: &'static str = "Can't decode dict: missing leading 'd'";

pub const MSG_DICT_END: &'static str = "Can't decode dict: ran out of chars";

pub const MSG_DICT_KEY: &'static str = "Can't decode dict key: got non bytestring element";

pub const MSG_DISPATCH: &'static str =
    "Unable to continue parsing: can't determine where to dispatch";

pub const MSG_DISPATCH_EMPTY: &'static str = "Unable to continue parsing: ran out of input";

/// A failure at `offset` of category `error_type`.
pub open spec fn failure(offset: nat, error_type: DecodeErrorType, msg: &str) -> DecodeErrorView {
    DecodeErrorView { offset, msg: msg@, error_type }
}

/// The index of the first `b` in `s`, or `s.len()` if `s` holds none.
pub open spec fn position(s: Seq<u8>, b: u8) -> nat
    decreases s.len(),
{
    if s.len() == 0 || s[0] == b {
        0
    } else {
        1 + position(s.skip(1), b)
    }
}

/// The payload of the byte string that `s` opens with, and the number of
/// bytes that the byte string takes.
///
/// The length is what stands before the first `:`, read as an integer. A
/// length that cannot be read is `InvalidByteStringSize`, at the offset that
/// the integer reader reports. A length below zero, or one that reaches past
/// the end of `s`, is `InvalidByteStringData`, at the offset where the payload
/// would begin.
pub open spec fn spec_decode_bytes(s: Seq<u8>) -> Result<(Seq<u8>, nat), DecodeErrorView> {
    let colon = position(s, COLON);
    if colon == s.len() {
        Err(failure(0, DecodeErrorType::MissingDelimiter, MSG_STRING_DELIMITER))
    } else {
        match spec_ascii_integer(s.subrange(0, colon as int)) {
            Err(e) => Err(failure(e.offset, DecodeErrorType::InvalidByteStringSize, MSG_STRING_SIZE)),
            Ok(length) => {
                let start = colon as int + 1;
                if length < 0 || start + length > s.len() {
                    Err(
                        failure(
                            start as nat,
                            DecodeErrorType::InvalidByteStringData,
                            MSG_STRING_DATA,
                        ),
                    )
                } else {
                    Ok((s.subrange(start, start + length), (start + length) as nat))
                }
            },
        }
    }
}

/// What decoding a byte string from the start of `s` gives.
pub open spec fn spec_decode_bytestring(s: Seq<u8>) -> Decoded {
    match spec_decode_bytes(s) {
        Ok((bytes, used)) => Ok((ElementView::ByteString(bytes), used)),
        Err(e) => Err(e),
    }
}

/// What decoding an integer from the start of `s` gives.
///
/// The body runs from behind the `i` to the first `e`. Whatever the integer
/// reader finds wrong with it is `InvalidIntegerValue` at offset 0.
pub open spec fn spec_decode_integer(s: Seq<u8>) -> Decoded {
    let end = position(s, E);
    if s.len() == 0 || s[0] != I {
        Err(failure(0, DecodeErrorType::MissingStartDelimiter, MSG_INTEGER_START))
    } else if end == s.len() {
        Err(failure(0, DecodeErrorType::MissingEndDelimiter, MSG_INTEGER_END))
    } else {
        match spec_ascii_integer(s.subrange(1, end as int)) {
            Ok(value) => Ok((ElementView::Integer(value), end + 1)),
            Err(_) => Err(failure(0, DecodeErrorType::InvalidIntegerValue, MSG_INTEGER_VALUE)),
        }
    }
}

/// The outcome `rest` of decoding what follows `used` bytes that gave
/// `before`, seen from the start of those bytes.
pub open spec fn after<T>(before: Seq<T>, used: nat, rest: Result<(Seq<T>, nat), DecodeErrorView>)
    -> Result<(Seq<T>, nat), DecodeErrorView> {
    match rest {
        Ok((items, more)) => Ok((before + items, used + more)),
        Err(e) => Err(e.shifted(used)),
    }
}

/// What decoding the element at the start of `s` gives: the leading byte
/// decides which kind of element is read.
pub open spec fn spec_dispatch(s: Seq<u8>) -> Decoded
    decreases s.len(), 2int,
{
    if s.len() == 0 {
        Err(failure(0, DecodeErrorType::DispatchFailed, MSG_DISPATCH_EMPTY))
    } else if is_digit(s[0]) {
        spec_decode_bytestring(s)
    } else if s[0] == I {
        spec_decode_integer(s)
    } else if s[0] == L {
        spec_decode_list(s)
    } else if s[0] == D {
        spec_decode_dict(s)
    } else {
        Err(failure(0, DecodeErrorType::DispatchFailed, MSG_DISPATCH))
    }
}

/// What decoding a list from the start of `s` gives.
pub open spec fn spec_decode_list(s: Seq<u8>) -> Decoded
    decreases s.len(), 1int,
{
    if s.len() == 0 || s[0] != L {
        Err(failure(0, DecodeErrorType::MissingStartDelimiter, MSG_LIST_START))
    } else {
        match spec_list_items(s.skip(1)) {
            Ok((items, used)) => Ok((ElementView::List(items), 1 + used)),
            Err(e) => Err(e.shifted(1)),
        }
    }
}

/// The elements of a list whose leading `l` has been taken, up to and
/// including the closing `e`, and the number of bytes that they take.
///
/// An element takes at least one byte and no more than there are
/// (`lemma_dispatch_bounds`), so the last branch is never reached: it is
/// what makes the definition well-founded.
pub open spec fn spec_list_items(s: Seq<u8>) -> Result<(Seq<ElementView>, nat), DecodeErrorView>
    decreases s.len(), 3int,
{
    if s.len() == 0 {
        Err(failure(0, DecodeErrorType::MissingEndDelimiter, MSG_LIST_END))
    } else if s[0] == E {
        Ok((Seq::empty(), 1))
    } else {
        match spec_dispatch(s) {
            Err(e) => Err(e),
            Ok((item, used)) => {
                if 0 < used <= s.len() {
                    after(seq![item], used, spec_list_items(s.skip(used as int)))
                } else {
                    Err(failure(0, DecodeErrorType::DispatchFailed, MSG_DISPATCH))
                }
            },
        }
    }
}

/// What decoding a dictionary from the start of `s` gives.
pub open spec fn spec_decode_dict(s: Seq<u8>) -> Decoded
    decreases s.len(), 1int,
{
    if s.len() == 0 || s[0] != D {
        Err(failure(0, DecodeErrorType::MissingStartDelimiter, MSG_DICT_START))
    } else {
        match spec_dict_entries(s.skip(1)) {
            Ok((entries, used)) => Ok((ElementView::Dict(entries), 1 + used)),
            Err(e) => Err(e.shifted(1)),
        }
    }
}

/// One entry of a dictionary, at the start of `s`: a key, which is a byte
/// string, and behind it a value, which is any element.
///
/// A key that is no byte string is `InvalidDictKey`, at the offset that the
/// byte string decoder reports. A failure in the value is passed on, moved by
/// the length of the key.
pub open spec fn spec_dict_entry(s: Seq<u8>) -> Result<(DictEntryView, nat), DecodeErrorView>
    decreases s.len(), 3int,
{
    match spec_decode_bytes(s) {
        Err(e) => Err(failure(e.offset, DecodeErrorType::InvalidDictKey, MSG_DICT_KEY)),
        Ok((key, key_len)) => {
            match spec_dispatch(s.skip(key_len as int)) {
                Err(e) => Err(e.shifted(key_len)),
                Ok((value, value_len)) => Ok((DictEntryView { key, value }, key_len + value_len)),
            }
        },
    }
}

/// The entries of a dictionary whose leading `d` has been taken, up to and
/// including the closing `e`, and the number of bytes that they take.
///
/// As in `spec_list_items`, the last branch is never reached
/// (`lemma_dict_entry_bounds`).
pub open spec fn spec_dict_entries(s: Seq<u8>) -> Result<(Seq<DictEntryView>, nat), DecodeErrorView>
    decreases s.len(), 4int,
{
    if s.len() == 0 {
        Err(failure(0, DecodeErrorType::MissingEndDelimiter, MSG_DICT_END))
    } else if s[0] == E {
        Ok((Seq::empty(), 1))
    } else {
        match spec_dict_entry(s) {
            Err(e) => Err(e),
            Ok((entry, used)) => {
                if 0 < used <= s.len() {
                    after(seq![entry], used, spec_dict_entries(s.skip(used as int)))
                } else {
                    Err(failure(0, DecodeErrorType::DispatchFailed, MSG_DISPATCH))
                }
            },
        }
    }
}

/// `position` is where the first `b` of `s` stands.
pub proof fn lemma_position(s: Seq<u8>, b: u8, at: int)
    requires
        0 <= at <= s.len(),
        forall|i: int| 0 <= i < at ==> s[i] != b,
        at < s.len() ==> s[at] == b,
    ensures
        position(s, b) == at,
    decreases s.len(),
{
    if at > 0 {
        assert(s[0] != b);
        assert forall|i: int| 0 <= i < at - 1 implies s.skip(1)[i] != b by {
            assert(s[i + 1] != b);
        }
        lemma_position(s.skip(1), b, at - 1);
    }
}

/// No `b` stands before `position`, and one stands there unless `s` holds
/// none.
pub proof fn lemma_position_found(s: Seq<u8>, b: u8)
    ensures
        position(s, b) <= s.len(),
        forall|i: int| 0 <= i < position(s, b) ==> s[i] != b,
        position(s, b) < s.len() ==> s[position(s, b) as int] == b,
    decreases s.len(),
{
    if s.len() == 0 || s[0] == b {
    } else {
        lemma_position_found(s.skip(1), b);
        assert forall|i: int| 0 <= i < position(s, b) implies s[i] != b by {
            if i > 0 {
                assert(s.skip(1)[i - 1] != b);
            }
        }
    }
}

/// Whether the outcome `r` of decoding from the start of `len` bytes stays
/// within them: a success took at least one byte and no more than `len`, a
/// failure lies at an offset of at most `len`.
pub open spec fn within<T>(r: Result<(T, nat), DecodeErrorView>, len: nat) -> bool {
    match r {
        Ok((_, used)) => 0 < used <= len,
        Err(e) => e.offset <= len,
    }
}

/// The digits of a run stop within the run.
pub proof fn lemma_first_non_digit_bound(s: Seq<u8>)
    ensures
        first_non_digit(s) <= s.len(),
        first_non_digit(s) == s.len() ==> all_digits(s),
    decreases s.len(),
{
    if s.len() == 0 || !is_digit(s[0]) {
    } else {
        lemma_first_non_digit_bound(s.skip(1));
        if first_non_digit(s) == s.len() {
            assert forall|i: int| 0 <= i < s.len() implies is_digit(#[trigger] s[i]) by {
                if i > 0 {
                    assert(s.skip(1)[i - 1] == s[i]);
                }
            }
        }
    }
}

/// A failure of the integer reader lies within the run that it was given.
pub proof fn lemma_ascii_integer_bounds(s: Seq<u8>)
    ensures
        spec_ascii_integer(s) matches Err(e) ==> e.offset <= s.len(),
{
    lemma_first_non_digit_bound(unsigned_part(s));
}

/// A byte string stays within its input, and so does a failure to read one.
pub proof fn lemma_bytes_bounds(s: Seq<u8>)
    ensures
        within(spec_decode_bytes(s), s.len()),
        within(spec_decode_bytestring(s), s.len()),
        spec_decode_bytes(s) matches Ok((bytes, used)) ==> bytes.len() < used,
{
    lemma_position_found(s, COLON);
    let colon = position(s, COLON);
    if colon < s.len() {
        lemma_ascii_integer_bounds(s.subrange(0, colon as int));
    }
}

/// An integer stays within its input; a failure to read one lies at its
/// start.
pub proof fn lemma_integer_bounds(s: Seq<u8>)
    ensures
        within(spec_decode_integer(s), s.len()),
{
    lemma_position_found(s, E);
}

/// An element stays within its input, and so does a failure to read one.
pub proof fn lemma_dispatch_bounds(s: Seq<u8>)
    ensures
        within(spec_dispatch(s), s.len()),
    decreases s.len(), 2int,
{
    if s.len() == 0 {
    } else if is_digit(s[0]) {
        lemma_bytes_bounds(s);
    } else if s[0] == I {
        lemma_integer_bounds(s);
    } else if s[0] == L {
        lemma_list_bounds(s);
    } else if s[0] == D {
        lemma_dict_bounds(s);
    }
}

/// A list stays within its input, and so does a failure to read one.
pub proof fn lemma_list_bounds(s: Seq<u8>)
    ensures
        within(spec_decode_list(s), s.len()),
    decreases s.len(), 1int,
{
    if s.len() > 0 && s[0] == L {
        lemma_list_items_bounds(s.skip(1));
    }
}

/// The elements of a list stay within their input.
pub proof fn lemma_list_items_bounds(s: Seq<u8>)
    ensures
        within(spec_list_items(s), s.len()),
    decreases s.len(), 3int,
{
    if s.len() > 0 && s[0] != E {
        lemma_dispatch_bounds(s);
        if let Ok((_, used)) = spec_dispatch(s) {
            lemma_list_items_bounds(s.skip(used as int));
        }
    }
}

/// A dictionary stays within its input, and so does a failure to read one.
pub proof fn lemma_dict_bounds(s: Seq<u8>)
    ensures
        within(spec_decode_dict(s), s.len()),
    decreases s.len(), 1int,
{
    if s.len() > 0 && s[0] == D {
        lemma_dict_entries_bounds(s.skip(1));
    }
}

/// An entry of a dictionary stays within its input, and so does a failure
/// to read one.
pub proof fn lemma_dict_entry_bounds(s: Seq<u8>)
    ensures
        within(spec_dict_entry(s), s.len()),
    decreases s.len(), 3int,
{
    lemma_bytes_bounds(s);
    if let Ok((_, key_len)) = spec_decode_bytes(s) {
        lemma_dispatch_bounds(s.skip(key_len as int));
    }
}

/// The entries of a dictionary stay within their input.
pub proof fn lemma_dict_entries_bounds(s: Seq<u8>)
    ensures
        within(spec_dict_entries(s), s.len()),
    decreases s.len(), 4int,
{
    if s.len() > 0 && s[0] != E {
        lemma_dict_entry_bounds(s);
        if let Ok((_, used)) = spec_dict_entry(s) {
            lemma_dict_entries_bounds(s.skip(used as int));
        }
    }
}

/// What decoding a whole input gives: its elements one after the other with
/// nothing between them, or the first failure, at its offset in `s`. The
/// empty input holds no element.
pub open spec fn spec_decode(s: Seq<u8>) -> Document
    decreases s.len(),
{
    if s.len() == 0 {
        Ok(Seq::empty())
    } else {
        match spec_dispatch(s) {
            Err(e) => Err(e),
            Ok((element, used)) => {
                proof {
                    lemma_dispatch_bounds(s);
                }
                match spec_decode(s.skip(used as int)) {
                    Ok(elements) => Ok(seq![element] + elements),
                    Err(e) => Err(e.shifted(used)),
                }
            },
        }
    }
}

/// The outcome `rest` of decoding what follows `used` bytes that gave
/// `before`, seen from the start of the input.
pub open spec fn document_after(before: Seq<ElementView>, used: nat, rest: Document) -> Document {
    match rest {
        Ok(elements) => Ok(before + elements),
        Err(e) => Err(e.shifted(used)),
    }
}

/// Nothing taken before changes nothing.
pub proof fn lemma_after_nothing<T>(rest: Result<(Seq<T>, nat), DecodeErrorView>)
    ensures
        after(Seq::<T>::empty(), 0, rest) == rest,
{
    match rest {
        Ok((items, _)) => {
            assert(Seq::<T>::empty() + items =~= items);
        },
        Err(_) => {},
    }
}

/// Taking `used` bytes and then `more` is taking `used + more`.
pub proof fn lemma_after_after<T>(
    first: Seq<T>,
    used: nat,
    second: Seq<T>,
    more: nat,
    rest: Result<(Seq<T>, nat), DecodeErrorView>,
)
    ensures
        after(first, used, after(second, more, rest)) == after(first + second, used + more, rest),
{
    match rest {
        Ok((items, _)) => {
            assert(first + (second + items) =~= (first + second) + items);
        },
        Err(_) => {},
    }
}

/// Nothing taken before changes nothing.
pub proof fn lemma_document_after_nothing(rest: Document)
    ensures
        document_after(Seq::empty(), 0, rest) == rest,
{
    match rest {
        Ok(elements) => {
            assert(Seq::<ElementView>::empty() + elements =~= elements);
        },
        Err(_) => {},
    }
}

/// Taking `used` bytes and then `more` is taking `used + more`.
pub proof fn lemma_document_after_after(
    first: Seq<ElementView>,
    used: nat,
    second: Seq<ElementView>,
    more: nat,
    rest: Document,
)
    ensures
        document_after(first, used, document_after(second, more, rest)) == document_after(
            first + second,
            used + more,
            rest,
        ),
{
    match rest {
        Ok(elements) => {
            assert(first + (second + elements) =~= (first + second) + elements);
        },
        Err(_) => {},
    }
}

/// Behind an element of a list stand the other elements of the list.
pub proof fn lemma_list_items_step(s: Seq<u8>)
    requires
        s.len() > 0,
        s[0] != E,
    ensures
        match spec_dispatch(s) {
            Ok((item, used)) => 0 < used <= s.len() && spec_list_items(s) == after(
                seq![item],
                used,
                spec_list_items(s.skip(used as int)),
            ),
            Err(e) => e.offset <= s.len() && spec_list_items(s) == Err::<
                (Seq<ElementView>, nat),
                _,
            >(e),
        },
{
    lemma_dispatch_bounds(s);
}

/// Behind an entry of a dictionary stand its other entries.
pub proof fn lemma_dict_entries_step(s: Seq<u8>)
    requires
        s.len() > 0,
        s[0] != E,
    ensures
        match spec_dict_entry(s) {
            Ok((entry, used)) => 0 < used <= s.len() && spec_dict_entries(s) == after(
                seq![entry],
                used,
                spec_dict_entries(s.skip(used as int)),
            ),
            Err(e) => e.offset <= s.len() && spec_dict_entries(s) == Err::<
                (Seq<DictEntryView>, nat),
                _,
            >(e),
        },
{
    lemma_dict_entry_bounds(s);
}

/// Behind the first element of an input stand its other elements.
pub proof fn lemma_decode_step(s: Seq<u8>)
    requires
        s.len() > 0,
    ensures
        match spec_dispatch(s) {
            Ok((element, used)) => 0 < used <= s.len() && spec_decode(s) == document_after(
                seq![element],
                used,
                spec_decode(s.skip(used as int)),
            ),
            Err(e) => e.offset <= s.len() && spec_decode(s) == Err::<Seq<ElementView>, _>(e),
        },
{
    lemma_dispatch_bounds(s);
}

} // verus!
