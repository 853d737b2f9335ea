//! The decoders: one per kind of element, the dispatcher that chooses among
//! them, and the decoder of a whole input.

use crate::ascii::{decode_ascii_integer, NINE, ZERO};
use crate::grammar::{
    after, document_after, lemma_after_after, lemma_after_nothing, lemma_bytes_bounds,
    lemma_decode_step, lemma_dict_entries_step, lemma_dispatch_bounds,
    lemma_document_after_after, lemma_document_after_nothing, lemma_list_items_step,
    lemma_position, position, spec_decode, spec_decode_bytestring, spec_decode_dict,
    spec_decode_integer, spec_decode_list, spec_dict_entries, spec_dict_entry, spec_dispatch,
    spec_list_items, COLON, D, E, I, L, MSG_DICT_END, MSG_DICT_KEY, MSG_DICT_START, MSG_DISPATCH,
    MSG_DISPATCH_EMPTY, MSG_INTEGER_END, MSG_INTEGER_START, MSG_INTEGER_VALUE, MSG_LIST_END,
    MSG_LIST_START, MSG_STRING_DATA, MSG_STRING_DELIMITER, MSG_STRING_SIZE,
};
use crate::model::{
    element_views, entry_views, lemma_dict_view, lemma_list_view, DecodeError, DecodeErrorType,
    DecodeErrorView, DecodeResult, DecodedDocument, DictEntry, DictEntryView, Element,
    ElementDecoded, ElementView,
};
use vstd::prelude::*;
use vstd::slice::{slice_subrange, slice_to_vec};

verus! {

/// Finds the first `byte` in `data`.
pub fn find_byte(data: &[u8], byte: u8) -> (r: Option<usize>)
    ensures
        match r {
            Some(at) => at < data@.len() && at == position(data@, byte),
            None => position(data@, byte) == data@.len(),
        },
{
    let mut at: usize = 0;
    while at < data.len()
        invariant
            at <= data@.len(),
            forall|i: int| 0 <= i < at ==> data@[i] != byte,
        decreases data@.len() - at,
    {
        if data[at] == byte {
            proof {
                lemma_position(data@, byte, at as int);
            }
            return Some(at);
        }
        at += 1;
    }
    proof {
        lemma_position(data@, byte, at as int);
    }
    None
}

/// Decodes the byte string `<length>:<bytes>` that `data` opens with.
///
/// The payload is checked against the end of `data`: a length that reaches
/// past it, or a negative one, is `InvalidByteStringData`.
pub fn decode_bytestring(data: &[u8]) -> (r: DecodeResult)
    ensures
        r@ == spec_decode_bytestring(data@),
{
    let len = data.len();
    match find_byte(data, COLON) {
        Some(size_end) => {
            match decode_ascii_integer(slice_subrange(data, 0, size_end)) {
                Ok(length) => {
                    let decode_start: usize = size_end + 1;
                    if length < 0 || length as u64 > (len - decode_start) as u64 {
                        DecodeResult::Failure(
                            DecodeError {
                                msg: MSG_STRING_DATA,
                                offset: decode_start,
                                error_type: DecodeErrorType::InvalidByteStringData,
                            },
                        )
                    } else {
                        let decode_end: usize = decode_start + (length as usize);
                        let element = slice_to_vec(slice_subrange(data, decode_start, decode_end));
                        DecodeResult::Success(
                            ElementDecoded {
                                element: Element::ByteString(element),
                                end_offset: decode_end,
                            },
                        )
                    }
                },
                Err(e) => DecodeResult::Failure(
                    DecodeError {
                        msg: MSG_STRING_SIZE,
                        offset: e.offset,
                        error_type: DecodeErrorType::InvalidByteStringSize,
                    },
                ),
            }
        },
        None => DecodeResult::Failure(
            DecodeError {
                msg: MSG_STRING_DELIMITER,
                offset: 0,
                error_type: DecodeErrorType::MissingDelimiter,
            },
        ),
    }
}

/// Decodes the integer `i<digits>e` that `data` opens with.
pub fn decode_integer(data: &[u8]) -> (r: DecodeResult)
    ensures
        r@ == spec_decode_integer(data@),
{
    if data.len() == 0 || data[0] != I {
        return DecodeResult::Failure(
            DecodeError {
                msg: MSG_INTEGER_START,
                offset: 0,
                error_type: DecodeErrorType::MissingStartDelimiter,
            },
        );
    }
    match find_byte(data, E) {
        Some(integer_end) => {
            match decode_ascii_integer(slice_subrange(data, 1, integer_end)) {
                Ok(element) => DecodeResult::Success(
                    ElementDecoded { element: Element::Integer(element), end_offset: integer_end + 1 },
                ),
                Err(_) => DecodeResult::Failure(
                    DecodeError {
                        msg: MSG_INTEGER_VALUE,
                        offset: 0,
                        error_type: DecodeErrorType::InvalidIntegerValue,
                    },
                ),
            }
        },
        None => DecodeResult::Failure(
            DecodeError {
                msg: MSG_INTEGER_END,
                offset: 0,
                error_type: DecodeErrorType::MissingEndDelimiter,
            },
        ),
    }
}

/// Decodes the list `l<elements>e` that `data` opens with.
///
/// A failure in an element is passed on with its offset counted from the
/// start of the list.
#[verifier::loop_isolation(false)]
pub fn decode_list(data: &[u8]) -> (r: DecodeResult)
    ensures
        r@ == spec_decode_list(data@),
    decreases data@.len(), 1int,
{
    let len = data.len();
    let mut offset: usize = 0;
    let mut ret: Vec<Element> = Vec::new();

    if len == 0 || data[0] != L {
        return DecodeResult::Failure(
            DecodeError {
                msg: MSG_LIST_START,
                offset: offset,
                error_type: DecodeErrorType::MissingStartDelimiter,
            },
        );
    }
    offset += 1;
    proof {
        lemma_after_nothing(spec_list_items(data@.skip(1)));
    }

    while offset < len
        invariant
            1 <= offset <= len,
            spec_list_items(data@.skip(1)) == after(
                element_views(ret@),
                (offset - 1) as nat,
                spec_list_items(data@.skip(offset as int)),
            ),
        decreases len - offset,
    {
        let ghost here = data@.skip(offset as int);
        let ghost before = element_views(ret@);
        if data[offset] == E {
            proof {
                lemma_list_view(ret);
                assert(before + Seq::<ElementView>::empty() =~= before);
            }
            return DecodeResult::Success(
                ElementDecoded { element: Element::List(ret), end_offset: offset + 1 },
            );
        }
        let rest = slice_subrange(data, offset, len);
        proof {
            assert(rest@ == here);
            lemma_list_items_step(here);
        }
        match dispatch(rest) {
            DecodeResult::Success(result) => {
                proof {
                    let used = result.end_offset as nat;
                    assert(here.skip(used as int) == data@.skip(offset + used));
                    lemma_after_after(
                        before,
                        (offset - 1) as nat,
                        seq![result.element@],
                        used,
                        spec_list_items(here.skip(used as int)),
                    );
                    assert(element_views(ret@.push(result.element)) =~= before + seq![
                        result.element@,
                    ]);
                }
                ret.push(result.element);
                offset += result.end_offset;
            },
            DecodeResult::Failure(e) => {
                return DecodeResult::Failure(
                    DecodeError {
                        msg: e.msg,
                        offset: e.offset + offset,
                        error_type: e.error_type,
                    },
                );
            },
        }
    }

    DecodeResult::Failure(
        DecodeError {
            msg: MSG_LIST_END,
            offset: offset,
            error_type: DecodeErrorType::MissingEndDelimiter,
        },
    )
}

/// The model of what `decode_dict_entry` returns.
pub open spec fn entry_outcome(r: Result<(DictEntry, usize), DecodeError>) -> Result<
    (DictEntryView, nat),
    DecodeErrorView,
> {
    match r {
        Ok((entry, used)) => Ok((entry@, used as nat)),
        Err(e) => Err(e@),
    }
}

/// Decodes one entry of a dictionary from the start of `data`: the key,
/// which must be a byte string, and the value that follows it.
///
/// A key that cannot be decoded is `InvalidDictKey`. A failure in the value
/// is passed on with its offset counted from the start of the key.
pub fn decode_dict_entry(data: &[u8]) -> (r: Result<(DictEntry, usize), DecodeError>)
    ensures
        entry_outcome(r) == spec_dict_entry(data@),
    decreases data@.len(), 3int,
{
    let len = data.len();
    proof {
        lemma_bytes_bounds(data@);
    }
    match decode_bytestring(data) {
        DecodeResult::Success(decode_key) => {
            let key_len = decode_key.end_offset;
            match decode_key.element {
                Element::ByteString(key) => {
                    let rest = slice_subrange(data, key_len, len);
                    proof {
                        assert(rest@ == data@.skip(key_len as int));
                        lemma_dispatch_bounds(rest@);
                    }
                    match dispatch(rest) {
                        DecodeResult::Success(result) => Ok(
                            (
                                DictEntry { key: key, value: result.element },
                                result.end_offset + key_len,
                            ),
                        ),
                        DecodeResult::Failure(e) => Err(
                            DecodeError {
                                msg: e.msg,
                                offset: e.offset + key_len,
                                error_type: e.error_type,
                            },
                        ),
                    }
                },
                _ => Err(
                    DecodeError {
                        msg: MSG_DICT_KEY,
                        offset: 0,
                        error_type: DecodeErrorType::InvalidDictKey,
                    },
                ),
            }
        },
        DecodeResult::Failure(e) => Err(
            DecodeError {
                msg: MSG_DICT_KEY,
                offset: e.offset,
                error_type: DecodeErrorType::InvalidDictKey,
            },
        ),
    }
}

/// Decodes the dictionary `d<key><value>...e` that `data` opens with.
///
/// Keys are byte strings; they are neither required to be sorted nor to be
/// unique, and come out in the order of the input. A failure in an entry is
/// passed on with its offset counted from the start of the dictionary.
#[verifier::loop_isolation(false)]
pub fn decode_dict(data: &[u8]) -> (r: DecodeResult)
    ensures
        r@ == spec_decode_dict(data@),
    decreases data@.len(), 1int,
{
    let len = data.len();
    let mut offset: usize = 0;
    let mut ret: Vec<DictEntry> = Vec::new();

    if len == 0 || data[0] != D {
        return DecodeResult::Failure(
            DecodeError {
                msg: MSG_DICT_START,
                offset: offset,
                error_type: DecodeErrorType::MissingStartDelimiter,
            },
        );
    }
    offset += 1;
    proof {
        lemma_after_nothing(spec_dict_entries(data@.skip(1)));
    }

    while offset < len
        invariant
            1 <= offset <= len,
            spec_dict_entries(data@.skip(1)) == after(
                entry_views(ret@),
                (offset - 1) as nat,
                spec_dict_entries(data@.skip(offset as int)),
            ),
        decreases len - offset,
    {
        let ghost here = data@.skip(offset as int);
        let ghost before = entry_views(ret@);
        if data[offset] == E {
            proof {
                lemma_dict_view(ret);
                assert(before + Seq::<DictEntryView>::empty() =~= before);
            }
            return DecodeResult::Success(
                ElementDecoded { element: Element::Dict(ret), end_offset: offset + 1 },
            );
        }
        let rest = slice_subrange(data, offset, len);
        proof {
            assert(rest@ == here);
            lemma_dict_entries_step(here);
        }
        match decode_dict_entry(rest) {
            Ok((entry, entry_len)) => {
                proof {
                    let used = entry_len as nat;
                    assert(here.skip(used as int) == data@.skip(offset + used));
                    lemma_after_after(
                        before,
                        (offset - 1) as nat,
                        seq![entry@],
                        used,
                        spec_dict_entries(here.skip(used as int)),
                    );
                    assert(entry_views(ret@.push(entry)) =~= before + seq![entry@]);
                }
                ret.push(entry);
                offset += entry_len;
            },
            Err(e) => {
                return DecodeResult::Failure(
                    DecodeError {
                        msg: e.msg,
                        offset: e.offset + offset,
                        error_type: e.error_type,
                    },
                );
            },
        }
    }

    DecodeResult::Failure(
        DecodeError {
            msg: MSG_DICT_END,
            offset: offset,
            error_type: DecodeErrorType::MissingEndDelimiter,
        },
    )
}

/// Decodes the element that `data` opens with; its leading byte says of
/// which kind it is.
///
/// On the empty slice this is a failure: whoever calls it expects an
/// element. The end of a whole input is seen by `decode`, which does not
/// call it then.
pub fn dispatch(data: &[u8]) -> (r: DecodeResult)
    ensures
        r@ == spec_dispatch(data@),
    decreases data@.len(), 2int,
{
    if data.len() == 0 {
        return DecodeResult::Failure(
            DecodeError {
                msg: MSG_DISPATCH_EMPTY,
                offset: 0,
                error_type: DecodeErrorType::DispatchFailed,
            },
        );
    }
    let lead = data[0];
    if ZERO <= lead && lead <= NINE {
        decode_bytestring(data)
    } else if lead == I {
        decode_integer(data)
    } else if lead == L {
        decode_list(data)
    } else if lead == D {
        decode_dict(data)
    } else {
        DecodeResult::Failure(
            DecodeError {
                msg: MSG_DISPATCH,
                offset: 0,
                error_type: DecodeErrorType::DispatchFailed,
            },
        )
    }
}

/// Decodes a whole input: elements one after the other, with nothing
/// between them, until the input ends.
///
/// The result is all or nothing: the elements in order, or the first
/// failure with its offset counted from the start of `data`. The empty
/// input gives no element and no failure.
#[verifier::loop_isolation(false)]
pub fn decode(data: &[u8]) -> (r: DecodedDocument)
    ensures
        r@ == spec_decode(data@),
{
    let len = data.len();
    let mut offset: usize = 0;
    let mut ret: Vec<Element> = Vec::new();
    proof {
        assert(data@.skip(0) == data@);
        lemma_document_after_nothing(spec_decode(data@));
    }

    while offset < len
        invariant
            offset <= len,
            spec_decode(data@) == document_after(
                element_views(ret@),
                offset as nat,
                spec_decode(data@.skip(offset as int)),
            ),
        decreases len - offset,
    {
        let ghost here = data@.skip(offset as int);
        let ghost before = element_views(ret@);
        let rest = slice_subrange(data, offset, len);
        proof {
            assert(rest@ == here);
            lemma_decode_step(here);
        }
        match dispatch(rest) {
            DecodeResult::Success(result) => {
                proof {
                    let used = result.end_offset as nat;
                    assert(here.skip(used as int) == data@.skip(offset + used));
                    lemma_document_after_after(
                        before,
                        offset as nat,
                        seq![result.element@],
                        used,
                        spec_decode(here.skip(used as int)),
                    );
                    assert(element_views(ret@.push(result.element)) =~= before + seq![
                        result.element@,
                    ]);
                }
                ret.push(result.element);
                offset += result.end_offset;
            },
            DecodeResult::Failure(e) => {
                return DecodedDocument::Failure(
                    DecodeError {
                        msg: e.msg,
                        offset: e.offset + offset,
                        error_type: e.error_type,
                    },
                );
            },
        }
    }
    assert(element_views(ret@) + Seq::<ElementView>::empty() =~= element_views(ret@));

    DecodedDocument::Success(ret)
}

} // verus!
