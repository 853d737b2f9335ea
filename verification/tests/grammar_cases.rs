use downpour::decoder::find_byte;
use downpour::{
    decode, decode_ascii_integer, decode_bytestring, decode_dict, decode_dict_entry,
    decode_integer, decode_list, dispatch, DecodeError, DecodeErrorType, DecodeResult,
    DecodedDocument, DictEntry, Element, ElementDecoded,
};

fn failure_of(result: DecodeResult) -> DecodeError {
    match result {
        DecodeResult::Failure(e) => e,
        DecodeResult::Success(decoded) => panic!("decoded {:?}", decoded),
    }
}

fn document_failure(document: DecodedDocument) -> DecodeError {
    match document {
        DecodedDocument::Failure(e) => e,
        DecodedDocument::Success(elements) => panic!("decoded {:?}", elements),
    }
}

fn success(element: Element, end_offset: usize) -> DecodeResult {
    DecodeResult::Success(ElementDecoded { element, end_offset })
}

#[test]
fn byte_string_ends_after_digits_colon_and_payload() {
    assert_eq!(
        decode_bytestring(b"5:hello"),
        success(Element::ByteString(b"hello".to_vec()), 7)
    );
    assert_eq!(
        decode_bytestring(b"12:hello, world and more"),
        success(Element::ByteString(b"hello, world".to_vec()), 15)
    );
    assert_eq!(
        decode_bytestring(b"3:\x00\xff\x80rest"),
        success(Element::ByteString(vec![0x00, 0xff, 0x80]), 5)
    );
}

#[test]
fn byte_string_length_may_have_leading_zeros() {
    assert_eq!(
        decode_bytestring(b"005:hello"),
        success(Element::ByteString(b"hello".to_vec()), 9)
    );
    assert_eq!(decode_bytestring(b"00:"), success(Element::ByteString(vec![]), 3));
}

#[test]
fn byte_string_payload_may_hold_colons_and_sentinels() {
    assert_eq!(
        decode_bytestring(b"4:i:ee"),
        success(Element::ByteString(b"i:ee".to_vec()), 6)
    );
}

#[test]
fn byte_string_without_colon_is_missing_delimiter() {
    let e = failure_of(decode_bytestring(b"123"));
    assert_eq!(e.error_type, DecodeErrorType::MissingDelimiter);
    assert_eq!(e.offset, 0);
    assert_eq!(e.msg, "Can't decode bytestring from data: missing ':'");
    let e = failure_of(decode_bytestring(b""));
    assert_eq!(e.error_type, DecodeErrorType::MissingDelimiter);
}

#[test]
fn byte_string_with_bad_length_is_invalid_size_at_the_bad_byte() {
    let e = failure_of(decode_bytestring(b"1x:a"));
    assert_eq!(e.error_type, DecodeErrorType::InvalidByteStringSize);
    assert_eq!(e.offset, 1);
    assert_eq!(e.msg, "Can't decode size integer for string");

    let e = failure_of(decode_bytestring(b":abc"));
    assert_eq!(e.error_type, DecodeErrorType::InvalidByteStringSize);
    assert_eq!(e.offset, 0);

    let e = failure_of(decode_bytestring(b"-:abc"));
    assert_eq!(e.error_type, DecodeErrorType::InvalidByteStringSize);
    assert_eq!(e.offset, 1);

    let e = failure_of(decode_bytestring(b"99999999999999999999:abc"));
    assert_eq!(e.error_type, DecodeErrorType::InvalidByteStringSize);
    assert_eq!(e.offset, 0);
}

#[test]
fn byte_string_longer_than_the_input_is_invalid_data() {
    let e = failure_of(decode_bytestring(b"5:abc"));
    assert_eq!(e.error_type, DecodeErrorType::InvalidByteStringData);
    assert_eq!(e.offset, 2);
    assert_eq!(e.msg, "Can't decode bytestring: data ends before the string does");

    let e = failure_of(decode_bytestring(b"1:"));
    assert_eq!(e.error_type, DecodeErrorType::InvalidByteStringData);
    assert_eq!(e.offset, 2);

    let e = failure_of(decode_bytestring(b"9223372036854775807:abc"));
    assert_eq!(e.error_type, DecodeErrorType::InvalidByteStringData);
    assert_eq!(e.offset, 20);
}

#[test]
fn byte_string_of_negative_length_is_invalid_data() {
    let e = failure_of(decode_bytestring(b"-1:abc"));
    assert_eq!(e.error_type, DecodeErrorType::InvalidByteStringData);
    assert_eq!(e.offset, 3);
    assert_eq!(decode_bytestring(b"-0:abc"), success(Element::ByteString(vec![]), 3));
}

#[test]
fn ascii_integer_reads_the_limits_of_64_bits() {
    assert_eq!(
        decode_ascii_integer(b"9223372036854775807").unwrap(),
        i64::MAX
    );
    assert_eq!(
        decode_ascii_integer(b"-9223372036854775808").unwrap(),
        i64::MIN
    );
    assert_eq!(
        decode_ascii_integer(b"0000000000000000000000009223372036854775807").unwrap(),
        i64::MAX
    );
}

#[test]
fn ascii_integer_out_of_range_is_refused() {
    let e = decode_ascii_integer(b"9223372036854775808").unwrap_err();
    assert_eq!(e.error_type, DecodeErrorType::InvalidIntegerValue);
    assert_eq!(e.offset, 0);
    assert_eq!(e.msg, "Can't decode integer: value does not fit 64 bits");
    let e = decode_ascii_integer(b"-9223372036854775809").unwrap_err();
    assert_eq!(e.error_type, DecodeErrorType::InvalidIntegerValue);
    let e = decode_ascii_integer(b"123456789012345678901234567890").unwrap_err();
    assert_eq!(e.error_type, DecodeErrorType::InvalidIntegerValue);
}

#[test]
fn ascii_integer_of_nothing_is_nothing_to_decode() {
    let e = decode_ascii_integer(b"").unwrap_err();
    assert_eq!(e.error_type, DecodeErrorType::NothingToDecode);
    assert_eq!(e.offset, 0);
    assert_eq!(e.msg, "Nothing to decode");
}

#[test]
fn ascii_integer_of_a_lone_sign_is_refused() {
    let e = decode_ascii_integer(b"-").unwrap_err();
    assert_eq!(e.error_type, DecodeErrorType::InvalidIntegerValue);
    assert_eq!(e.offset, 1);
    assert_eq!(e.msg, "Can't decode integer: no digit after '-'");
}

#[test]
fn ascii_integer_reports_the_first_byte_that_is_no_digit() {
    let e = decode_ascii_integer(b"12a4b").unwrap_err();
    assert_eq!(e.error_type, DecodeErrorType::InvalidIntegerValue);
    assert_eq!(e.offset, 2);
    assert_eq!(e.msg, "Can't decode integer: not a digit");
    let e = decode_ascii_integer(b"-12 4").unwrap_err();
    assert_eq!(e.offset, 3);
    let e = decode_ascii_integer(b"--1").unwrap_err();
    assert_eq!(e.offset, 1);
    let e = decode_ascii_integer(b"+1").unwrap_err();
    assert_eq!(e.offset, 0);
    let e = decode_ascii_integer(b"99999999999999999999999x").unwrap_err();
    assert_eq!(e.offset, 23);
    assert_eq!(e.msg, "Can't decode integer: not a digit");
}

#[test]
fn ascii_integer_accepts_leading_zeros_and_negative_zero() {
    assert_eq!(decode_ascii_integer(b"007").unwrap(), 7);
    assert_eq!(decode_ascii_integer(b"-0").unwrap(), 0);
    assert_eq!(decode_ascii_integer(b"-007").unwrap(), -7);
    assert_eq!(decode_ascii_integer(b"000").unwrap(), 0);
}

#[test]
fn integer_accepts_negative_zero_and_leading_zeros() {
    assert_eq!(decode_integer(b"i-0e"), success(Element::Integer(0), 4));
    assert_eq!(decode_integer(b"i007e"), success(Element::Integer(7), 5));
    assert_eq!(decode_integer(b"i-007e"), success(Element::Integer(-7), 6));
}

#[test]
fn integer_ends_just_behind_its_e() {
    assert_eq!(decode_integer(b"i42ei7e"), success(Element::Integer(42), 4));
    assert_eq!(
        decode_integer(b"i-9223372036854775808exyz"),
        success(Element::Integer(i64::MIN), 22)
    );
    assert_eq!(
        decode_integer(b"i9223372036854775807e"),
        success(Element::Integer(i64::MAX), 21)
    );
}

#[test]
fn integer_failures() {
    let e = failure_of(decode_integer(b"x1e"));
    assert_eq!(e.error_type, DecodeErrorType::MissingStartDelimiter);
    assert_eq!(e.offset, 0);
    assert_eq!(e.msg, "Can't decode integer: missing leading 'i'");

    let e = failure_of(decode_integer(b""));
    assert_eq!(e.error_type, DecodeErrorType::MissingStartDelimiter);

    let e = failure_of(decode_integer(b"i12"));
    assert_eq!(e.error_type, DecodeErrorType::MissingEndDelimiter);
    assert_eq!(e.offset, 0);
    assert_eq!(e.msg, "Can't decode integer: missing end 'e'");

    for input in [
        &b"i e"[..],
        &b"ie"[..],
        &b"i-e"[..],
        &b"i1-2e"[..],
        &b"i9223372036854775808e"[..],
    ] {
        let e = failure_of(decode_integer(input));
        assert_eq!(e.error_type, DecodeErrorType::InvalidIntegerValue);
        assert_eq!(e.offset, 0);
        assert_eq!(e.msg, "Can't decode integer");
    }
}

#[test]
fn list_failures() {
    let e = failure_of(decode_list(b"i1e"));
    assert_eq!(e.error_type, DecodeErrorType::MissingStartDelimiter);
    assert_eq!(e.offset, 0);
    assert_eq!(e.msg, "Can't decode list: missing leading 'l'");
    let e = failure_of(decode_list(b""));
    assert_eq!(e.error_type, DecodeErrorType::MissingStartDelimiter);

    let e = failure_of(decode_list(b"l"));
    assert_eq!(e.error_type, DecodeErrorType::MissingEndDelimiter);
    assert_eq!(e.offset, 1);
    assert_eq!(e.msg, "Can't decode list: ran out of chars before trailing 'e'");

    let e = failure_of(decode_list(b"li1ei2e"));
    assert_eq!(e.error_type, DecodeErrorType::MissingEndDelimiter);
    assert_eq!(e.offset, 7);
}

#[test]
fn list_adds_its_offset_to_a_failure_inside() {
    let e = failure_of(decode_list(b"li1exe"));
    assert_eq!(e.error_type, DecodeErrorType::DispatchFailed);
    assert_eq!(e.offset, 4);

    let e = failure_of(decode_list(b"li1el3x:abe"));
    assert_eq!(e.error_type, DecodeErrorType::InvalidByteStringSize);
    assert_eq!(e.offset, 6);

    let e = failure_of(decode_list(b"li1eli2e5:abc"));
    assert_eq!(e.error_type, DecodeErrorType::InvalidByteStringData);
    assert_eq!(e.offset, 10);

    let e = failure_of(decode_list(b"lllll"));
    assert_eq!(e.error_type, DecodeErrorType::MissingEndDelimiter);
    assert_eq!(e.offset, 5);
}

#[test]
fn dict_failures() {
    let e = failure_of(decode_dict(b"le"));
    assert_eq!(e.error_type, DecodeErrorType::MissingStartDelimiter);
    assert_eq!(e.offset, 0);
    assert_eq!(e.msg, "Can't decode dict: missing leading 'd'");
    let e = failure_of(decode_dict(b""));
    assert_eq!(e.error_type, DecodeErrorType::MissingStartDelimiter);

    let e = failure_of(decode_dict(b"d"));
    assert_eq!(e.error_type, DecodeErrorType::MissingEndDelimiter);
    assert_eq!(e.offset, 1);
    assert_eq!(e.msg, "Can't decode dict: ran out of chars");

    let e = failure_of(decode_dict(b"d1:ai1e"));
    assert_eq!(e.error_type, DecodeErrorType::MissingEndDelimiter);
    assert_eq!(e.offset, 7);
}

#[test]
fn dict_key_that_is_no_byte_string_is_invalid_dict_key() {
    let e = failure_of(decode_dict(b"di1ei2ee"));
    assert_eq!(e.error_type, DecodeErrorType::InvalidDictKey);
    assert_eq!(e.offset, 1);
    assert_eq!(e.msg, "Can't decode dict key: got non bytestring element");

    let e = failure_of(decode_dict(b"d1:ai1e9:abe"));
    assert_eq!(e.error_type, DecodeErrorType::InvalidDictKey);
    assert_eq!(e.offset, 9);

    let e = failure_of(decode_dict(b"d1:ai1e1x:abe"));
    assert_eq!(e.error_type, DecodeErrorType::InvalidDictKey);
    assert_eq!(e.offset, 8);

    let e = failure_of(decode_dict(b"dlei1ee"));
    assert_eq!(e.error_type, DecodeErrorType::InvalidDictKey);
}

#[test]
fn dict_key_without_value_fails_in_the_dispatch_behind_the_key() {
    let e = failure_of(decode_dict(b"d1:a"));
    assert_eq!(e.error_type, DecodeErrorType::DispatchFailed);
    assert_eq!(e.offset, 4);
    assert_eq!(e.msg, "Unable to continue parsing: ran out of input");

    let e = failure_of(decode_dict(b"d1:ae"));
    assert_eq!(e.error_type, DecodeErrorType::DispatchFailed);
    assert_eq!(e.offset, 4);
    assert_eq!(
        e.msg,
        "Unable to continue parsing: can't determine where to dispatch"
    );
}

#[test]
fn dict_adds_key_and_offset_to_a_failure_in_a_value() {
    let e = failure_of(decode_dict(b"d3:keyi1e2:k2i-ee"));
    assert_eq!(e.error_type, DecodeErrorType::InvalidIntegerValue);
    assert_eq!(e.offset, 13);

    let e = failure_of(decode_dict(b"d1:ad1:bl5:abc"));
    assert_eq!(e.error_type, DecodeErrorType::InvalidByteStringData);
    assert_eq!(e.offset, 11);
}

#[test]
fn dict_keeps_input_order_and_duplicate_keys() {
    assert_eq!(
        decode_dict(b"d1:bi1e1:ai2e1:bi3ee"),
        success(
            Element::Dict(vec![
                DictEntry { key: b"b".to_vec(), value: Element::Integer(1) },
                DictEntry { key: b"a".to_vec(), value: Element::Integer(2) },
                DictEntry { key: b"b".to_vec(), value: Element::Integer(3) },
            ]),
            20
        )
    );
}

#[test]
fn dict_entry_is_key_then_value() {
    let (entry, used) = decode_dict_entry(b"3:keyli1eerest").unwrap();
    assert_eq!(
        entry,
        DictEntry {
            key: b"key".to_vec(),
            value: Element::List(vec![Element::Integer(1)])
        }
    );
    assert_eq!(used, 10);

    let e = decode_dict_entry(b"i1ei2e").unwrap_err();
    assert_eq!(e.error_type, DecodeErrorType::InvalidDictKey);
    assert_eq!(e.offset, 0);

    let e = decode_dict_entry(b"3:keyx").unwrap_err();
    assert_eq!(e.error_type, DecodeErrorType::DispatchFailed);
    assert_eq!(e.offset, 5);
}

#[test]
fn dispatch_failures() {
    let e = failure_of(dispatch(b"x"));
    assert_eq!(e.error_type, DecodeErrorType::DispatchFailed);
    assert_eq!(e.offset, 0);
    assert_eq!(
        e.msg,
        "Unable to continue parsing: can't determine where to dispatch"
    );

    let e = failure_of(dispatch(b""));
    assert_eq!(e.error_type, DecodeErrorType::DispatchFailed);
    assert_eq!(e.offset, 0);
    assert_eq!(e.msg, "Unable to continue parsing: ran out of input");

    for input in [&b"e"[..], &b"-1:a"[..], &b":"[..], &b"\xff"[..], &b"I1e"[..]] {
        let e = failure_of(dispatch(input));
        assert_eq!(e.error_type, DecodeErrorType::DispatchFailed);
    }
}

#[test]
fn dispatch_routes_by_the_leading_byte() {
    assert_eq!(dispatch(b"0:"), success(Element::ByteString(vec![]), 2));
    assert_eq!(dispatch(b"9:123456789"), success(Element::ByteString(b"123456789".to_vec()), 11));
    assert_eq!(dispatch(b"i0e"), success(Element::Integer(0), 3));
    assert_eq!(dispatch(b"le"), success(Element::List(vec![]), 2));
    assert_eq!(dispatch(b"de"), success(Element::Dict(vec![]), 2));
}

#[test]
fn decode_of_nothing_is_no_element() {
    assert_eq!(decode(b""), DecodedDocument::Success(vec![]));
}

#[test]
fn decode_reads_values_back_to_back() {
    assert_eq!(
        decode(b"i1ei2e"),
        DecodedDocument::Success(vec![Element::Integer(1), Element::Integer(2)])
    );
    assert_eq!(
        decode(b"d1:ai10ee"),
        DecodedDocument::Success(vec![Element::Dict(vec![DictEntry {
            key: b"a".to_vec(),
            value: Element::Integer(10)
        }])])
    );
}

#[test]
fn decode_leaves_trailing_bytes_for_the_next_value() {
    let list = b"li10el1:bed3:keyleee";
    let extra = b"4:spam";
    let mut both = list.to_vec();
    both.extend_from_slice(extra);

    let first = match decode_list(&both) {
        DecodeResult::Success(decoded) => decoded,
        DecodeResult::Failure(e) => panic!("failed {:?}", e),
    };
    assert_eq!(first.end_offset, list.len());
    assert_eq!(
        decode_bytestring(&both[first.end_offset..]),
        success(Element::ByteString(b"spam".to_vec()), extra.len())
    );

    let alone = match decode(list) {
        DecodedDocument::Success(elements) => elements,
        DecodedDocument::Failure(e) => panic!("failed {:?}", e),
    };
    let mut expected = alone;
    expected.push(Element::ByteString(b"spam".to_vec()));
    assert_eq!(decode(&both), DecodedDocument::Success(expected));
}

#[test]
fn decode_recovers_nested_structure() {
    assert_eq!(
        decode(b"d4:dictd1:xlee4:listl0:i-1eleeed0:0:e"),
        DecodedDocument::Success(vec![
            Element::Dict(vec![
                DictEntry {
                    key: b"dict".to_vec(),
                    value: Element::Dict(vec![DictEntry {
                        key: b"x".to_vec(),
                        value: Element::List(vec![])
                    }])
                },
                DictEntry {
                    key: b"list".to_vec(),
                    value: Element::List(vec![
                        Element::ByteString(vec![]),
                        Element::Integer(-1),
                        Element::List(vec![]),
                    ])
                },
            ]),
            Element::Dict(vec![DictEntry {
                key: vec![],
                value: Element::ByteString(vec![])
            }]),
        ])
    );
}

#[test]
fn decode_is_all_or_nothing_with_an_absolute_offset() {
    let e = document_failure(decode(b"i1ex"));
    assert_eq!(e.error_type, DecodeErrorType::DispatchFailed);
    assert_eq!(e.offset, 3);

    let e = document_failure(decode(b"4:spami1eli2eli3e5:abc"));
    assert_eq!(e.error_type, DecodeErrorType::InvalidByteStringData);
    assert_eq!(e.offset, 19);

    let e = document_failure(decode(b"d1:ad1:bd1:ci1x2eeee"));
    assert_eq!(e.error_type, DecodeErrorType::InvalidIntegerValue);
    assert_eq!(e.offset, 12);
}

#[test]
fn malformed_inputs_fail_with_their_category() {
    assert_eq!(
        document_failure(decode(b"5:abc")).error_type,
        DecodeErrorType::InvalidByteStringData
    );
    assert_eq!(
        document_failure(decode(b"x")).error_type,
        DecodeErrorType::DispatchFailed
    );
    assert_eq!(
        document_failure(decode(b"i e")).error_type,
        DecodeErrorType::InvalidIntegerValue
    );
    assert_eq!(
        document_failure(decode(b"l")).error_type,
        DecodeErrorType::MissingEndDelimiter
    );
    assert_eq!(
        document_failure(decode(b"d1:a")).error_type,
        DecodeErrorType::DispatchFailed
    );
    assert_eq!(
        document_failure(decode(b"1")).error_type,
        DecodeErrorType::MissingDelimiter
    );
    assert_eq!(
        document_failure(decode(b"i1")).error_type,
        DecodeErrorType::MissingEndDelimiter
    );
    assert_eq!(
        document_failure(decode(b"d")).error_type,
        DecodeErrorType::MissingEndDelimiter
    );
    assert_eq!(
        document_failure(decode(b"dde")).error_type,
        DecodeErrorType::InvalidDictKey
    );
    assert_eq!(
        document_failure(decode(b"1a:x")).error_type,
        DecodeErrorType::InvalidByteStringSize
    );
}

#[test]
fn deeply_nested_lists_decode() {
    let depth = 200;
    let mut input = vec![b'l'; depth];
    input.extend(vec![b'e'; depth]);
    let mut expected = Element::List(vec![]);
    for _ in 1..depth {
        expected = Element::List(vec![expected]);
    }
    assert_eq!(decode_list(&input), success(expected, 2 * depth));
}

#[test]
fn find_byte_gives_the_first_place() {
    assert_eq!(find_byte(b"8:announce:x", b':'), Some(1));
    assert_eq!(find_byte(b":", b':'), Some(0));
    assert_eq!(find_byte(b"abc:", b':'), Some(3));
    assert_eq!(find_byte(b"abc", b':'), None);
    assert_eq!(find_byte(b"", b'e'), None);
    assert_eq!(find_byte(b"i10ee", b'e'), Some(3));
}
