//! What holds of the decoders and of the renderer on all inputs.
//!
//! The laws are stated over the grammar, which every decoder is proved to
//! compute, and over the text that the renderer is proved to produce.

use crate::ascii::{
    all_digits, digits_value, has_sign, is_digit, is_integer_text, signed_value, unsigned_part,
};
use crate::grammar::{
    document_after, lemma_bytes_bounds, lemma_decode_step, lemma_dict_entries_step,
    lemma_dict_entry_bounds, lemma_dispatch_bounds, lemma_list_items_step, lemma_position,
    lemma_position_found, position,
    spec_decode, spec_decode_bytes, spec_decode_bytestring, spec_decode_dict, spec_decode_integer,
    spec_decode_list, spec_dict_entries, spec_dict_entry, spec_dispatch, spec_list_items, COLON, D,
    E, I, L,
};
use crate::model::{DecodeErrorView, DictEntryView, ElementView};
use crate::render::{document_text, elements_text};
use crate::text::{decimal_text, integer_text};
use vstd::prelude::*;
use vstd::utf8::encode_utf8;

verus! {

/// The bytes `digits`, `:` and `payload`: a byte string as the input spells
/// it.
pub open spec fn bytestring_encoding(digits: Seq<u8>, payload: Seq<u8>) -> Seq<u8> {
    digits + seq![COLON] + payload
}

/// The bytes `i`, `body` and `e`: an integer as the input spells it.
pub open spec fn integer_encoding(body: Seq<u8>) -> Seq<u8> {
    seq![I] + body + seq![E]
}

/// A byte string decodes to its payload.
///
/// Where `digits` are decimal digits that spell the length of `payload`,
/// decoding `<digits>:<payload>` gives `ByteString(payload)` and ends behind
/// the payload, at the number of digits plus one plus the length of the
/// payload, whatever bytes follow. Leading zeros in the length do not matter.
/// The length must fit a signed integer of 64 bits.
pub proof fn law_bytestring_decodes(digits: Seq<u8>, payload: Seq<u8>, rest: Seq<u8>)
    requires
        digits.len() > 0,
        all_digits(digits),
        digits_value(digits) == payload.len(),
        payload.len() <= i64::MAX,
    ensures
        spec_decode_bytestring(bytestring_encoding(digits, payload) + rest) == Ok::<
            _,
            DecodeErrorView,
        >((ElementView::ByteString(payload), (digits.len() + 1 + payload.len()) as nat)),
        spec_dispatch(bytestring_encoding(digits, payload) + rest) == spec_decode_bytestring(
            bytestring_encoding(digits, payload) + rest,
        ),
{
    let s = bytestring_encoding(digits, payload) + rest;
    let colon = digits.len() as int;
    assert(s[colon] == COLON);
    assert forall|i: int| 0 <= i < colon implies s[i] != COLON by {
        assert(s[i] == digits[i]);
        assert(is_digit(digits[i]));
    }
    lemma_position(s, COLON, colon);
    assert(s.subrange(0, colon) == digits);
    assert(is_digit(digits[0]));
    assert(!has_sign(digits));
    assert(s.subrange(colon + 1, colon + 1 + payload.len()) == payload);
    assert(s[0] == digits[0]);
}

/// An integer decodes to the number that it spells.
///
/// Where `body` is decimal digits with or without a leading `-`, and the
/// number that it spells fits a signed integer of 64 bits, decoding
/// `i<body>e` gives that number and ends just behind the `e`, whatever bytes
/// follow. Leading zeros and a negative zero are accepted.
pub proof fn law_integer_decodes(body: Seq<u8>, rest: Seq<u8>)
    requires
        is_integer_text(body),
        i64::MIN <= signed_value(body) <= i64::MAX,
    ensures
        spec_decode_integer(integer_encoding(body) + rest) == Ok::<_, DecodeErrorView>(
            (ElementView::Integer(signed_value(body)), (body.len() + 2) as nat),
        ),
        spec_dispatch(integer_encoding(body) + rest) == spec_decode_integer(
            integer_encoding(body) + rest,
        ),
{
    let s = integer_encoding(body) + rest;
    let end = body.len() as int + 1;
    assert(s[0] == I);
    assert(s[end] == E);
    assert forall|i: int| 0 <= i < end implies s[i] != E by {
        if i > 0 {
            assert(s[i] == body[i - 1]);
            if has_sign(body) {
                if i > 1 {
                    assert(unsigned_part(body)[i - 2] == body[i - 1]);
                    assert(is_digit(unsigned_part(body)[i - 2]));
                }
            } else {
                assert(is_digit(unsigned_part(body)[i - 1]));
            }
        }
    }
    lemma_position(s, E, end);
    assert(s.subrange(1, end) == body);
}

/// Whether `chunk` spells `element`: decoding an input that begins with
/// `chunk` gives `element` and ends where `chunk` ends, whatever follows.
pub open spec fn encodes(chunk: Seq<u8>, element: ElementView) -> bool {
    forall|rest: Seq<u8>| #[trigger]
        spec_dispatch(chunk + rest) == Ok::<_, DecodeErrorView>((element, chunk.len()))
}

/// Whether `chunk` spells the byte string `key`, whatever follows.
pub open spec fn encodes_key(chunk: Seq<u8>, key: Seq<u8>) -> bool {
    forall|rest: Seq<u8>| #[trigger]
        spec_decode_bytes(chunk + rest) == Ok::<_, DecodeErrorView>((key, chunk.len()))
}

/// Whether `chunk` spells the dictionary entry `entry`, whatever follows.
pub open spec fn encodes_entry(chunk: Seq<u8>, entry: DictEntryView) -> bool {
    forall|rest: Seq<u8>| #[trigger]
        spec_dict_entry(chunk + rest) == Ok::<_, DecodeErrorView>((entry, chunk.len()))
}

/// Whether each of `chunks` spells the element of `items` at its place.
pub open spec fn encode_all(chunks: Seq<Seq<u8>>, items: Seq<ElementView>) -> bool {
    &&& chunks.len() == items.len()
    &&& forall|i: int| 0 <= i < chunks.len() ==> encodes(#[trigger] chunks[i], items[i])
}

/// Whether each of `chunks` spells the entry of `entries` at its place.
pub open spec fn encode_all_entries(chunks: Seq<Seq<u8>>, entries: Seq<DictEntryView>) -> bool {
    &&& chunks.len() == entries.len()
    &&& forall|i: int| 0 <= i < chunks.len() ==> encodes_entry(#[trigger] chunks[i], entries[i])
}

/// The bytes `l`, `chunks` one after the other, and `e`: a list as the input
/// spells it.
pub open spec fn list_encoding(chunks: Seq<Seq<u8>>) -> Seq<u8> {
    seq![L] + chunks.flatten() + seq![E]
}

/// The bytes `d`, `chunks` one after the other, and `e`: a dictionary as the
/// input spells it.
pub open spec fn dict_encoding(chunks: Seq<Seq<u8>>) -> Seq<u8> {
    seq![D] + chunks.flatten() + seq![E]
}

/// A byte string `<digits>:<payload>` spells its payload, as an element and
/// as a key.
pub proof fn law_bytestring_encodes(digits: Seq<u8>, payload: Seq<u8>)
    requires
        digits.len() > 0,
        all_digits(digits),
        digits_value(digits) == payload.len(),
        payload.len() <= i64::MAX,
    ensures
        encodes(bytestring_encoding(digits, payload), ElementView::ByteString(payload)),
        encodes_key(bytestring_encoding(digits, payload), payload),
{
    let chunk = bytestring_encoding(digits, payload);
    assert forall|rest: Seq<u8>| #[trigger]
        spec_dispatch(chunk + rest) == Ok::<_, DecodeErrorView>(
            (ElementView::ByteString(payload), chunk.len()),
        ) by {
        law_bytestring_decodes(digits, payload, rest);
    }
    assert forall|rest: Seq<u8>| #[trigger]
        spec_decode_bytes(chunk + rest) == Ok::<_, DecodeErrorView>((payload, chunk.len())) by {
        law_bytestring_decodes(digits, payload, rest);
    }
}

/// An integer `i<body>e` spells the number of its body.
pub proof fn law_integer_encodes(body: Seq<u8>)
    requires
        is_integer_text(body),
        i64::MIN <= signed_value(body) <= i64::MAX,
    ensures
        encodes(integer_encoding(body), ElementView::Integer(signed_value(body))),
{
    let chunk = integer_encoding(body);
    assert forall|rest: Seq<u8>| #[trigger]
        spec_dispatch(chunk + rest) == Ok::<_, DecodeErrorView>(
            (ElementView::Integer(signed_value(body)), chunk.len()),
        ) by {
        law_integer_decodes(body, rest);
    }
}

/// What spells an element is not empty and opens with no `e`.
pub proof fn lemma_encodes_opening(chunk: Seq<u8>, element: ElementView)
    requires
        encodes(chunk, element),
    ensures
        chunk.len() > 0,
        chunk[0] != E,
{
    let whole = chunk + Seq::<u8>::empty();
    assert(spec_dispatch(whole) is Ok);
    lemma_dispatch_bounds(whole);
    assert(whole[0] == chunk[0]);
}

/// What spells an entry is not empty and opens with no `e`.
pub proof fn lemma_encodes_entry_opening(chunk: Seq<u8>, entry: DictEntryView)
    requires
        encodes_entry(chunk, entry),
    ensures
        chunk.len() > 0,
        chunk[0] != E,
{
    let whole = chunk + Seq::<u8>::empty();
    assert(spec_dict_entry(whole) is Ok);
    lemma_dict_entry_bounds(whole);
    assert(whole[0] == chunk[0]);
    lemma_bytes_bounds(whole);
    let colon = position(whole, COLON);
    lemma_position_found(whole, COLON);
    let size = whole.subrange(0, colon as int);
    assert(size.len() > 0);
    assert(size[0] == whole[0]);
    if !has_sign(size) {
        assert(is_digit(unsigned_part(size)[0]));
    }
}

/// A key and a value behind it spell an entry.
pub proof fn law_entry_encodes(
    key_chunk: Seq<u8>,
    value_chunk: Seq<u8>,
    key: Seq<u8>,
    value: ElementView,
)
    requires
        encodes_key(key_chunk, key),
        encodes(value_chunk, value),
    ensures
        encodes_entry(key_chunk + value_chunk, DictEntryView { key, value }),
{
    let chunk = key_chunk + value_chunk;
    assert forall|rest: Seq<u8>| #[trigger]
        spec_dict_entry(chunk + rest) == Ok::<_, DecodeErrorView>(
            (DictEntryView { key, value }, chunk.len()),
        ) by {
        let s = chunk + rest;
        assert(s == key_chunk + (value_chunk + rest));
        assert(spec_decode_bytes(key_chunk + (value_chunk + rest)) is Ok);
        assert(s.skip(key_chunk.len() as int) == value_chunk + rest);
        assert(spec_dispatch(value_chunk + rest) is Ok);
    }
}

/// Elements spelled one after the other and closed by `e` are the items of
/// a list.
pub proof fn lemma_list_items_of(chunks: Seq<Seq<u8>>, items: Seq<ElementView>, rest: Seq<u8>)
    requires
        encode_all(chunks, items),
    ensures
        spec_list_items(chunks.flatten() + seq![E] + rest) == Ok::<_, DecodeErrorView>(
            (items, (chunks.flatten().len() + 1) as nat),
        ),
    decreases chunks.len(),
{
    let s = chunks.flatten() + seq![E] + rest;
    if chunks.len() == 0 {
        assert(s[0] == E);
        assert(items == Seq::<ElementView>::empty());
    } else {
        let first = chunks[0];
        let others = chunks.drop_first();
        let tail = others.flatten() + seq![E] + rest;
        assert(encodes(first, items[0]));
        lemma_encodes_opening(first, items[0]);
        assert(s == first + tail);
        assert(spec_dispatch(first + tail) is Ok);
        assert(s[0] == first[0]);
        lemma_list_items_step(s);
        assert(s.skip(first.len() as int) == tail);
        assert forall|i: int| 0 <= i < others.len() implies encodes(
            #[trigger] others[i],
            items.drop_first()[i],
        ) by {
            assert(encodes(chunks[i + 1], items[i + 1]));
        }
        lemma_list_items_of(others, items.drop_first(), rest);
        assert(seq![items[0]] + items.drop_first() == items);
    }
}

/// Entries spelled one after the other and closed by `e` are the entries of
/// a dictionary.
pub proof fn lemma_dict_entries_of(
    chunks: Seq<Seq<u8>>,
    entries: Seq<DictEntryView>,
    rest: Seq<u8>,
)
    requires
        encode_all_entries(chunks, entries),
    ensures
        spec_dict_entries(chunks.flatten() + seq![E] + rest) == Ok::<_, DecodeErrorView>(
            (entries, (chunks.flatten().len() + 1) as nat),
        ),
    decreases chunks.len(),
{
    let s = chunks.flatten() + seq![E] + rest;
    if chunks.len() == 0 {
        assert(s[0] == E);
        assert(entries == Seq::<DictEntryView>::empty());
    } else {
        let first = chunks[0];
        let others = chunks.drop_first();
        let tail = others.flatten() + seq![E] + rest;
        assert(encodes_entry(first, entries[0]));
        lemma_encodes_entry_opening(first, entries[0]);
        assert(s == first + tail);
        assert(spec_dict_entry(first + tail) is Ok);
        assert(s[0] == first[0]);
        lemma_dict_entries_step(s);
        assert(s.skip(first.len() as int) == tail);
        assert forall|i: int| 0 <= i < others.len() implies encodes_entry(
            #[trigger] others[i],
            entries.drop_first()[i],
        ) by {
            assert(encodes_entry(chunks[i + 1], entries[i + 1]));
        }
        lemma_dict_entries_of(others, entries.drop_first(), rest);
        assert(seq![entries[0]] + entries.drop_first() == entries);
    }
}

/// A well-formed list decodes to its items.
///
/// Where each of `chunks` spells the element of `items` at its place,
/// `l<chunks>e` spells `List(items)`: decoding it recovers the items in their
/// order, nested lists and dictionaries included, and ends just behind the
/// closing `e`, whatever bytes follow.
pub proof fn law_list_decodes(chunks: Seq<Seq<u8>>, items: Seq<ElementView>)
    requires
        encode_all(chunks, items),
    ensures
        encodes(list_encoding(chunks), ElementView::List(items)),
        forall|rest: Seq<u8>| #[trigger]
            spec_decode_list(list_encoding(chunks) + rest) == Ok::<_, DecodeErrorView>(
                (ElementView::List(items), list_encoding(chunks).len()),
            ),
{
    let chunk = list_encoding(chunks);
    assert forall|rest: Seq<u8>|
        spec_decode_list(chunk + rest) == Ok::<_, DecodeErrorView>(
            (ElementView::List(items), chunk.len()),
        ) && #[trigger] spec_dispatch(chunk + rest) == spec_decode_list(chunk + rest) by {
        let s = chunk + rest;
        assert(s[0] == L);
        assert(s.skip(1) == chunks.flatten() + seq![E] + rest);
        lemma_list_items_of(chunks, items, rest);
    }
    assert forall|rest: Seq<u8>| #[trigger]
        spec_decode_list(chunk + rest) == Ok::<_, DecodeErrorView>(
            (ElementView::List(items), chunk.len()),
        ) by {
        assert(spec_dispatch(chunk + rest) == spec_decode_list(chunk + rest));
    }
}

/// A well-formed dictionary decodes to its entries.
///
/// Where each of `chunks` spells the entry of `entries` at its place,
/// `d<chunks>e` spells `Dict(entries)`: decoding it recovers the entries in
/// their order, sorted or not and with keys that occur twice, and ends just
/// behind the closing `e`, whatever bytes follow.
pub proof fn law_dict_decodes(chunks: Seq<Seq<u8>>, entries: Seq<DictEntryView>)
    requires
        encode_all_entries(chunks, entries),
    ensures
        encodes(dict_encoding(chunks), ElementView::Dict(entries)),
        forall|rest: Seq<u8>| #[trigger]
            spec_decode_dict(dict_encoding(chunks) + rest) == Ok::<_, DecodeErrorView>(
                (ElementView::Dict(entries), dict_encoding(chunks).len()),
            ),
{
    let chunk = dict_encoding(chunks);
    assert forall|rest: Seq<u8>|
        spec_decode_dict(chunk + rest) == Ok::<_, DecodeErrorView>(
            (ElementView::Dict(entries), chunk.len()),
        ) && #[trigger] spec_dispatch(chunk + rest) == spec_decode_dict(chunk + rest) by {
        let s = chunk + rest;
        assert(s[0] == D);
        assert(s.skip(1) == chunks.flatten() + seq![E] + rest);
        lemma_dict_entries_of(chunks, entries, rest);
    }
    assert forall|rest: Seq<u8>| #[trigger]
        spec_decode_dict(chunk + rest) == Ok::<_, DecodeErrorView>(
            (ElementView::Dict(entries), chunk.len()),
        ) by {
        assert(spec_dispatch(chunk + rest) == spec_decode_dict(chunk + rest));
    }
}

/// What follows an element is left for the next.
///
/// Where `chunk` spells `element`, decoding `chunk` followed by `rest` gives
/// `element` and then what decoding `rest` alone gives: its elements, or its
/// failure at an offset that counts the bytes of `chunk` too.
pub proof fn law_decode_leaves_rest(chunk: Seq<u8>, element: ElementView, rest: Seq<u8>)
    requires
        encodes(chunk, element),
    ensures
        spec_decode(chunk + rest) == document_after(seq![element], chunk.len(), spec_decode(rest)),
{
    let s = chunk + rest;
    lemma_encodes_opening(chunk, element);
    assert(spec_dispatch(chunk + rest) is Ok);
    lemma_decode_step(s);
    assert(s.skip(chunk.len() as int) == rest);
}

/// Elements spelled one after the other, with nothing between them, decode
/// to these elements in their order.
pub proof fn law_decode_all(chunks: Seq<Seq<u8>>, items: Seq<ElementView>)
    requires
        encode_all(chunks, items),
    ensures
        spec_decode(chunks.flatten()) == Ok::<_, DecodeErrorView>(items),
    decreases chunks.len(),
{
    if chunks.len() == 0 {
        assert(items == Seq::<ElementView>::empty());
    } else {
        let others = chunks.drop_first();
        assert(encodes(chunks[0], items[0]));
        law_decode_leaves_rest(chunks[0], items[0], others.flatten());
        assert forall|i: int| 0 <= i < others.len() implies encodes(
            #[trigger] others[i],
            items.drop_first()[i],
        ) by {
            assert(encodes(chunks[i + 1], items[i + 1]));
        }
        law_decode_all(others, items.drop_first());
        assert(seq![items[0]] + items.drop_first() == items);
    }
}

/// Whether `c` is one of the characters of the ASCII set.
pub open spec fn is_ascii_char(c: char) -> bool {
    c as u32 <= 0x7f
}

/// The UTF-8 bytes of a text that opens with an ASCII character open with
/// that character.
pub proof fn lemma_ascii_first_byte(text: Seq<char>)
    requires
        text.len() > 0,
        is_ascii_char(text[0]),
    ensures
        encode_utf8(text).len() > 0,
        encode_utf8(text)[0] as u32 == text[0] as u32,
{
    let c = text[0] as u32;
    assert(c & 0x7f == c) by (bit_vector)
        requires
            c <= 0x7f,
    ;
}

/// The decimal text of a number opens with a digit.
pub proof fn lemma_decimal_text_opening(n: nat)
    ensures
        decimal_text(n).len() > 0,
        0x30 <= decimal_text(n)[0] as u32 <= 0x39,
    decreases n,
{
    if n >= 10 {
        lemma_decimal_text_opening(n / 10);
    }
}

/// The text of an element opens with an ASCII character, and with another
/// one than the bytes that spell the element.
pub proof fn lemma_text_opening(s: Seq<u8>)
    requires
        spec_dispatch(s) is Ok,
    ensures
        s.len() > 0,
        spec_dispatch(s)->Ok_0.0.text().len() > 0,
        is_ascii_char(spec_dispatch(s)->Ok_0.0.text()[0]),
        spec_dispatch(s)->Ok_0.0.text()[0] as u32 != s[0] as u32,
{
    let element = spec_dispatch(s)->Ok_0.0;
    if is_digit(s[0]) {
        assert(element is ByteString);
        assert(element.text()[0] == '"');
    } else if s[0] == I {
        let value = element->Integer_0;
        if value < 0 {
            assert(integer_text(value)[0] == '-');
        } else {
            lemma_decimal_text_opening(value as nat);
        }
    } else if s[0] == L {
        assert(element is List);
        assert(element.text()[0] == '[');
    } else {
        assert(element is Dict);
        assert(element.text()[0] == '{');
    }
}

/// The texts of elements, one after the other, open with the text of the
/// first.
pub proof fn lemma_elements_text_opening(elements: Seq<ElementView>, count: nat)
    requires
        0 < count <= elements.len(),
        elements[0].text().len() > 0,
    ensures
        elements_text(elements, count).len() > 0,
        elements_text(elements, count)[0] == elements[0].text()[0],
    decreases count,
{
    let before = elements_text(elements, (count - 1) as nat);
    if count > 1 {
        lemma_elements_text_opening(elements, (count - 1) as nat);
        assert((before + elements[count - 1].text())[0] == before[0]);
    } else {
        assert(before + elements[0].text() == elements[0].text());
    }
}

/// The text of a decoded input is never the input.
///
/// The renderer is for display: whatever input decodes to at least one
/// element, the text of what it decodes to differs from it, in its first
/// byte already. It cannot stand in for an encoder. The empty input is the
/// one that its text repeats: it decodes to nothing, whose text is empty.
pub proof fn law_text_differs_from_input(data: Seq<u8>)
    requires
        data.len() > 0,
        spec_decode(data) is Ok,
    ensures
        encode_utf8(document_text(spec_decode(data))) != data,
{
    lemma_decode_step(data);
    let first = spec_dispatch(data)->Ok_0.0;
    let elements = spec_decode(data)->Ok_0;
    assert(elements[0] == first);
    lemma_text_opening(data);
    lemma_elements_text_opening(elements, elements.len());
    lemma_ascii_first_byte(document_text(spec_decode(data)));
}

} // verus!
