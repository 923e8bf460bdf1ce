use resp_replica::protocol::decode::{set_entry, ProtocolError};
use resp_replica::protocol::r_object::RObject;

fn bulk(text: &str) -> RObject {
    RObject::BulkString(text.to_string())
}

fn round_trip(value: RObject) {
    let bytes = value.encode();
    let (back, end) = RObject::decode(&bytes, 0).unwrap();
    assert_eq!(back, value);
    assert_eq!(end, bytes.len());
}

#[test]
fn decode_simple_string() {
    let (value, end) = RObject::decode(b"+OK\r\n", 0).unwrap();
    assert_eq!(value, RObject::SimpleString("OK".to_string()));
    assert_eq!(end, 5);
}

#[test]
fn decode_simple_error() {
    let (value, end) = RObject::decode(b"-ERR boom\r\n", 0).unwrap();
    assert_eq!(value, RObject::SimpleError("ERR boom".to_string()));
    assert_eq!(end, 11);
}

#[test]
fn decode_integer() {
    assert_eq!(RObject::decode(b":42\r\n", 0), Ok((RObject::Integer(42), 5)));
    assert_eq!(RObject::decode(b":-7\r\n", 0), Ok((RObject::Integer(-7), 5)));
    assert_eq!(RObject::decode(b":+7\r\n", 0), Ok((RObject::Integer(7), 5)));
    assert_eq!(
        RObject::decode(b":-9223372036854775808\r\n", 0),
        Ok((RObject::Integer(i64::MIN), 23))
    );
    assert_eq!(
        RObject::decode(b":9223372036854775807\r\n", 0),
        Ok((RObject::Integer(i64::MAX), 22))
    );
}

#[test]
fn decode_integer_out_of_range_or_malformed() {
    assert_eq!(RObject::decode(b":9223372036854775808\r\n", 0), Err(ProtocolError::InvalidLiteral));
    assert_eq!(RObject::decode(b":-9223372036854775809\r\n", 0), Err(ProtocolError::InvalidLiteral));
    assert_eq!(RObject::decode(b":abc\r\n", 0), Err(ProtocolError::InvalidLiteral));
    assert_eq!(RObject::decode(b":\r\n", 0), Err(ProtocolError::InvalidLiteral));
    assert_eq!(RObject::decode(b":-\r\n", 0), Err(ProtocolError::InvalidLiteral));
    assert_eq!(RObject::decode(b":1 \r\n", 0), Err(ProtocolError::InvalidLiteral));
}

#[test]
fn decode_bulk_string() {
    assert_eq!(RObject::decode(b"$5\r\nhello\r\n", 0), Ok((bulk("hello"), 11)));
    assert_eq!(RObject::decode(b"$0\r\n\r\n", 0), Ok((bulk(""), 6)));
}

#[test]
fn decode_bulk_string_holds_crlf() {
    assert_eq!(RObject::decode(b"$4\r\na\r\nb\r\n", 0), Ok((bulk("a\r\nb"), 10)));
}

#[test]
fn decode_null_bulk_string_uses_five_bytes() {
    assert_eq!(RObject::decode(b"$-1\r\n", 0), Ok((RObject::NullBulkString, 5)));
}

#[test]
fn decode_null_array_uses_five_bytes() {
    assert_eq!(RObject::decode(b"*-1\r\n", 0), Ok((RObject::NullArray, 5)));
}

#[test]
fn decode_null() {
    assert_eq!(RObject::decode(b"_\r\n", 0), Ok((RObject::Null, 3)));
    assert_eq!(RObject::decode(b"_\r", 0), Err(ProtocolError::UnterminatedFrame));
    assert_eq!(RObject::decode(b"_xx", 0), Err(ProtocolError::UnterminatedFrame));
}

#[test]
fn decode_boolean() {
    assert_eq!(RObject::decode(b"#t\r\n", 0), Ok((RObject::Boolean(true), 4)));
    assert_eq!(RObject::decode(b"#f\r\n", 0), Ok((RObject::Boolean(false), 4)));
    assert_eq!(RObject::decode(b"#x\r\n", 0), Err(ProtocolError::InvalidLiteral));
    assert_eq!(RObject::decode(b"#t", 0), Err(ProtocolError::UnterminatedFrame));
    assert_eq!(RObject::decode(b"#", 0), Err(ProtocolError::UnterminatedFrame));
}

#[test]
fn decode_double_keeps_the_literal() {
    assert_eq!(
        RObject::decode(b",1.50\r\n", 0),
        Ok((RObject::Double("1.50".to_string()), 7))
    );
    for text in ["0", "-1", "+2.", ".5", "1e5", "1.5E-3", "inf", "-INF", "Infinity", "nan", "NaN"] {
        let frame = format!(",{}\r\n", text);
        let (value, end) = RObject::decode(frame.as_bytes(), 0).unwrap();
        assert_eq!(value, RObject::Double(text.to_string()));
        assert_eq!(end, frame.len());
        assert!(text.parse::<f64>().is_ok());
    }
}

#[test]
fn decode_double_rejects_what_is_no_literal() {
    for text in ["", ".", "abc", "1e", "e5", "1.2.3", "--1", "1 ", "+", "infinit", "1e+", "0x10"] {
        let frame = format!(",{}\r\n", text);
        assert_eq!(RObject::decode(frame.as_bytes(), 0), Err(ProtocolError::InvalidLiteral));
        assert!(text.parse::<f64>().is_err());
    }
}

#[test]
fn decode_big_number() {
    assert_eq!(
        RObject::decode(b"(3492890328409238509324850943850943825024385\r\n", 0),
        Ok((RObject::BigNumber("3492890328409238509324850943850943825024385".to_string()), 46))
    );
}

#[test]
fn decode_bulk_error() {
    assert_eq!(
        RObject::decode(b"!21\r\nSYNTAX invalid syntax\r\n", 0),
        Ok((RObject::BulkError("SYNTAX invalid syntax".to_string()), 28))
    );
    assert_eq!(RObject::decode(b"!-1\r\n", 0), Err(ProtocolError::LengthMismatch));
}

#[test]
fn decode_verbatim_string() {
    assert_eq!(
        RObject::decode(b"=4\r\ntxt\r\nSome\r\n", 0),
        Ok((RObject::VerbatimString("Some".to_string(), "txt".to_string()), 15))
    );
}

#[test]
fn decode_array() {
    let (value, end) = RObject::decode(b"*2\r\n$4\r\nECHO\r\n$2\r\nhi\r\n", 0).unwrap();
    assert_eq!(value, RObject::Array(vec![bulk("ECHO"), bulk("hi")]));
    assert_eq!(end, 22);
    assert_eq!(RObject::decode(b"*0\r\n", 0), Ok((RObject::Array(vec![]), 4)));
}

#[test]
fn decode_nested_array() {
    let (value, end) = RObject::decode(b"*2\r\n*1\r\n:1\r\n*0\r\n", 0).unwrap();
    assert_eq!(
        value,
        RObject::Array(vec![RObject::Array(vec![RObject::Integer(1)]), RObject::Array(vec![])])
    );
    assert_eq!(end, 16);
}

#[test]
fn decode_set_and_push() {
    assert_eq!(
        RObject::decode(b"~2\r\n:1\r\n:2\r\n", 0),
        Ok((RObject::RSet(vec![RObject::Integer(1), RObject::Integer(2)]), 12))
    );
    assert_eq!(
        RObject::decode(b">1\r\n+msg\r\n", 0),
        Ok((RObject::Push(vec![RObject::SimpleString("msg".to_string())]), 10))
    );
}

#[test]
fn decode_map() {
    let (value, end) = RObject::decode(b"%2\r\n+a\r\n:1\r\n+b\r\n:2\r\n", 0).unwrap();
    assert_eq!(
        value,
        RObject::RMap(vec![
            (RObject::SimpleString("a".to_string()), RObject::Integer(1)),
            (RObject::SimpleString("b".to_string()), RObject::Integer(2)),
        ])
    );
    assert_eq!(end, 20);
}

#[test]
fn decode_map_key_that_comes_again_replaces_its_value() {
    let (value, end) = RObject::decode(b"%3\r\n+a\r\n:1\r\n+b\r\n:2\r\n+a\r\n:3\r\n", 0).unwrap();
    assert_eq!(
        value,
        RObject::RMap(vec![
            (RObject::SimpleString("a".to_string()), RObject::Integer(3)),
            (RObject::SimpleString("b".to_string()), RObject::Integer(2)),
        ])
    );
    assert_eq!(end, 28);
}

#[test]
fn decode_map_puts_the_entries_in_the_order_of_their_keys() {
    let (value, end) = RObject::decode(b"%3\r\n:2\r\n:0\r\n:10\r\n:0\r\n:1\r\n:0\r\n", 0).unwrap();
    assert_eq!(
        value,
        RObject::RMap(vec![
            (RObject::Integer(1), RObject::Integer(0)),
            (RObject::Integer(10), RObject::Integer(0)),
            (RObject::Integer(2), RObject::Integer(0)),
        ])
    );
    assert_eq!(end, 29);
    assert_eq!(value.encode(), b"%3\r\n:1\r\n:0\r\n:10\r\n:0\r\n:2\r\n:0\r\n");
}

#[test]
fn entries_set_in_any_order_give_the_same_map() {
    let mut one = Vec::new();
    set_entry(&mut one, RObject::Integer(1), RObject::Integer(0));
    set_entry(&mut one, RObject::Integer(2), RObject::Integer(0));
    let mut other = Vec::new();
    set_entry(&mut other, RObject::Integer(2), RObject::Integer(0));
    set_entry(&mut other, RObject::Integer(1), RObject::Integer(0));
    let one = RObject::RMap(one);
    let other = RObject::RMap(other);
    assert_eq!(one, other);
    assert_eq!(one.encode(), other.encode());
    assert_eq!(one.to_string(), other.to_string());
    assert_eq!(one.to_string(), "%2\r\n:1\r\n:0\r\n:2\r\n:0\r\n");
    assert!(one.is_well_formed());
}

#[test]
fn a_map_of_pairs_is_the_same_in_any_order() {
    let one = RObject::map_of(&vec![
        (RObject::Integer(1), RObject::Integer(0)),
        (RObject::Integer(2), RObject::Integer(0)),
    ]);
    let other = RObject::map_of(&vec![
        (RObject::Integer(2), RObject::Integer(0)),
        (RObject::Integer(1), RObject::Integer(0)),
    ]);
    assert_eq!(one, other);
    assert_eq!(one.to_string(), other.to_string());
    assert_eq!(one.encode(), b"%2\r\n:1\r\n:0\r\n:2\r\n:0\r\n");
    assert!(one.is_well_formed());
    let again = RObject::map_of(&vec![
        (bulk("k"), RObject::Integer(1)),
        (bulk("j"), RObject::Integer(2)),
        (bulk("k"), RObject::Integer(3)),
    ]);
    assert_eq!(again, RObject::RMap(vec![(bulk("j"), RObject::Integer(2)), (bulk("k"), RObject::Integer(3))]));
    assert_eq!(RObject::map_of(&vec![]), RObject::RMap(vec![]));
    round_trip(again);
}

#[test]
fn entries_set_in_any_order_of_many() {
    let keys = ["b", "a", "", "ab", "c", "aa", "a"];
    let mut forward = Vec::new();
    for (i, key) in keys.iter().enumerate() {
        set_entry(&mut forward, bulk(key), RObject::Integer(i as i64));
    }
    let mut backward = Vec::new();
    for (i, key) in keys.iter().enumerate().rev() {
        set_entry(&mut backward, bulk(key), RObject::Integer(i as i64));
    }
    set_entry(&mut backward, bulk("a"), RObject::Integer(6));
    assert_eq!(forward.len(), 6);
    assert_eq!(RObject::RMap(forward.clone()), RObject::RMap(backward));
    let written: Vec<RObject> = forward.iter().map(|entry| entry.0.clone()).collect();
    assert_eq!(written, vec![bulk(""), bulk("a"), bulk("b"), bulk("c"), bulk("aa"), bulk("ab")]);
    assert_eq!(forward[1].1, RObject::Integer(6));
    round_trip(RObject::RMap(forward));
}

#[test]
fn a_map_out_of_order_is_not_fit_for_the_wire() {
    let unordered = RObject::RMap(vec![(bulk("b"), RObject::Null), (bulk("a"), RObject::Null)]);
    assert!(!unordered.is_well_formed());
    let (back, _) = RObject::decode(&unordered.encode(), 0).unwrap();
    assert_eq!(back, RObject::RMap(vec![(bulk("a"), RObject::Null), (bulk("b"), RObject::Null)]));
}

#[test]
fn decode_map_with_aggregate_keys() {
    let (value, _) = RObject::decode(b"%2\r\n*1\r\n:1\r\n+x\r\n*1\r\n:1\r\n+y\r\n", 0).unwrap();
    assert_eq!(
        value,
        RObject::RMap(vec![(
            RObject::Array(vec![RObject::Integer(1)]),
            RObject::SimpleString("y".to_string())
        )])
    );
}

#[test]
fn decode_null_length_of_map_set_and_push_is_null() {
    assert_eq!(RObject::decode(b"%-1\r\n", 0), Ok((RObject::Null, 5)));
    assert_eq!(RObject::decode(b"~-1\r\n", 0), Ok((RObject::Null, 5)));
    assert_eq!(RObject::decode(b">-1\r\n", 0), Ok((RObject::Null, 5)));
}

#[test]
fn decode_at_an_offset() {
    let data = b"+OK\r\n:12\r\n";
    assert_eq!(RObject::decode(data, 5), Ok((RObject::Integer(12), 10)));
}

#[test]
fn decode_unknown_type_byte() {
    assert_eq!(RObject::decode(b"?\r\n", 0), Err(ProtocolError::UnknownTypeByte));
    assert_eq!(RObject::decode(b"PING\r\n", 0), Err(ProtocolError::UnknownTypeByte));
}

#[test]
fn decode_unterminated_frame() {
    assert_eq!(RObject::decode(b"", 0), Err(ProtocolError::UnterminatedFrame));
    assert_eq!(RObject::decode(b"+OK\r\n", 5), Err(ProtocolError::UnterminatedFrame));
    assert_eq!(RObject::decode(b"+OK\r\n", 99), Err(ProtocolError::UnterminatedFrame));
    assert_eq!(RObject::decode(b"+OK", 0), Err(ProtocolError::UnterminatedFrame));
    assert_eq!(RObject::decode(b"+OK\r", 0), Err(ProtocolError::UnterminatedFrame));
    assert_eq!(RObject::decode(b"$5", 0), Err(ProtocolError::UnterminatedFrame));
    assert_eq!(RObject::decode(b"*2\r\n:1\r\n", 0), Err(ProtocolError::UnterminatedFrame));
}

#[test]
fn decode_length_mismatch() {
    assert_eq!(RObject::decode(b"$5\r\nhi\r\n", 0), Err(ProtocolError::LengthMismatch));
    assert_eq!(RObject::decode(b"$2\r\nhello\r\n", 0), Err(ProtocolError::LengthMismatch));
    assert_eq!(RObject::decode(b"$5\r\nhello", 0), Err(ProtocolError::LengthMismatch));
    assert_eq!(RObject::decode(b"$-2\r\n", 0), Err(ProtocolError::LengthMismatch));
    assert_eq!(RObject::decode(b"*-2\r\n", 0), Err(ProtocolError::LengthMismatch));
    assert_eq!(
        RObject::decode(b"$9223372036854775807\r\nhi\r\n", 0),
        Err(ProtocolError::LengthMismatch)
    );
}

#[test]
fn decode_huge_count_fails_without_reserving() {
    assert_eq!(
        RObject::decode(b"*9223372036854775807\r\n:1\r\n", 0),
        Err(ProtocolError::UnterminatedFrame)
    );
}

#[test]
fn decode_invalid_length_literal() {
    assert_eq!(RObject::decode(b"$abc\r\nhi\r\n", 0), Err(ProtocolError::InvalidLiteral));
    assert_eq!(RObject::decode(b"*x\r\n", 0), Err(ProtocolError::InvalidLiteral));
}

#[test]
fn decode_utf8_error() {
    assert_eq!(RObject::decode(b"+\xff\xfe\r\n", 0), Err(ProtocolError::Utf8Error));
    assert_eq!(RObject::decode(b"$2\r\n\xc3\x28\r\n", 0), Err(ProtocolError::Utf8Error));
}

#[test]
fn decode_text_beyond_ascii() {
    let frame = "$6\r\nh\u{e9}llo\r\n".as_bytes();
    assert_eq!(RObject::decode(frame, 0), Ok((bulk("h\u{e9}llo"), 12)));
}

#[test]
fn encode_each_kind() {
    assert_eq!(RObject::SimpleString("OK".to_string()).encode(), b"+OK\r\n");
    assert_eq!(RObject::SimpleError("ERR x".to_string()).encode(), b"-ERR x\r\n");
    assert_eq!(RObject::Integer(0).encode(), b":0\r\n");
    assert_eq!(RObject::Integer(-15).encode(), b":-15\r\n");
    assert_eq!(RObject::Integer(i64::MIN).encode(), b":-9223372036854775808\r\n");
    assert_eq!(bulk("hello").encode(), b"$5\r\nhello\r\n");
    assert_eq!(RObject::NullBulkString.encode(), b"$-1\r\n");
    assert_eq!(RObject::Array(vec![bulk("a"), RObject::Integer(1)]).encode(), b"*2\r\n$1\r\na\r\n:1\r\n");
    assert_eq!(RObject::NullArray.encode(), b"*-1\r\n");
    assert_eq!(RObject::Null.encode(), b"_\r\n");
    assert_eq!(RObject::Boolean(true).encode(), b"#t\r\n");
    assert_eq!(RObject::Boolean(false).encode(), b"#f\r\n");
    assert_eq!(RObject::Double("3.14".to_string()).encode(), b",3.14\r\n");
    assert_eq!(RObject::BigNumber("123".to_string()).encode(), b"(123\r\n");
    assert_eq!(RObject::BulkError("ERR".to_string()).encode(), b"!3\r\nERR\r\n");
    assert_eq!(
        RObject::VerbatimString("Some".to_string(), "txt".to_string()).encode(),
        b"=4\r\ntxt\r\nSome\r\n"
    );
    assert_eq!(
        RObject::RMap(vec![(bulk("k"), RObject::Integer(1))]).encode(),
        b"%1\r\n$1\r\nk\r\n:1\r\n"
    );
    assert_eq!(RObject::RSet(vec![RObject::Integer(1)]).encode(), b"~1\r\n:1\r\n");
    assert_eq!(RObject::Push(vec![RObject::Integer(1)]).encode(), b">1\r\n:1\r\n");
}

#[test]
fn to_string_is_the_encoding_as_text() {
    assert_eq!(RObject::SimpleString("OK".to_string()).to_string(), "+OK\r\n");
    assert_eq!(bulk("h\u{e9}").to_string(), "$3\r\nh\u{e9}\r\n");
    let nested = RObject::Array(vec![bulk("GET"), RObject::RMap(vec![(bulk("k"), RObject::Null)])]);
    assert_eq!(nested.to_string().as_bytes(), nested.encode().as_slice());
}

#[test]
fn encode_into_appends() {
    let mut out = b"+A\r\n".to_vec();
    RObject::Integer(5).encode_into(&mut out);
    assert_eq!(out, b"+A\r\n:5\r\n");
}

#[test]
fn round_trip_of_every_kind() {
    round_trip(RObject::SimpleString("hello world".to_string()));
    round_trip(RObject::SimpleString("ends with a return\r".to_string()));
    round_trip(RObject::SimpleError("ERR nope".to_string()));
    round_trip(RObject::Integer(0));
    round_trip(RObject::Integer(i64::MAX));
    round_trip(RObject::Integer(i64::MIN));
    round_trip(bulk(""));
    round_trip(bulk("with\r\ninside"));
    round_trip(bulk("na\u{ef}ve \u{1f600}"));
    round_trip(RObject::NullBulkString);
    round_trip(RObject::NullArray);
    round_trip(RObject::Null);
    round_trip(RObject::Boolean(true));
    round_trip(RObject::Boolean(false));
    round_trip(RObject::Double("-0.5e10".to_string()));
    round_trip(RObject::BigNumber("-12345678901234567890".to_string()));
    round_trip(RObject::BulkError("ERR\r\nmultiline".to_string()));
    round_trip(RObject::VerbatimString("text\r\nbody".to_string(), "txt".to_string()));
    round_trip(RObject::Array(vec![]));
    round_trip(RObject::Array(vec![
        bulk("SET"),
        RObject::Array(vec![RObject::Null, RObject::Boolean(false)]),
        RObject::RMap(vec![
            (bulk("a"), RObject::Integer(1)),
            (RObject::Array(vec![bulk("a")]), RObject::RSet(vec![])),
        ]),
        RObject::Push(vec![RObject::Double("nan".to_string())]),
    ]));
}

#[test]
fn same_is_structural() {
    assert!(RObject::NullBulkString.same(&RObject::NullBulkString));
    assert!(RObject::NullArray.same(&RObject::NullArray));
    assert!(!RObject::NullArray.same(&RObject::Null));
    assert!(bulk("a").same(&bulk("a")));
    assert!(!bulk("a").same(&RObject::SimpleString("a".to_string())));
    assert!(RObject::Push(vec![bulk("a")]).same(&RObject::Push(vec![bulk("a")])));
    assert!(!RObject::Push(vec![bulk("a")]).same(&RObject::RSet(vec![bulk("a")])));
    assert!(!RObject::Array(vec![bulk("a")]).same(&RObject::Array(vec![bulk("a"), bulk("b")])));
    let one = RObject::RMap(vec![(bulk("a"), RObject::Integer(1)), (bulk("b"), RObject::Integer(2))]);
    let other = RObject::RMap(vec![(bulk("b"), RObject::Integer(2)), (bulk("a"), RObject::Integer(1))]);
    assert!(one.same(&one.clone()));
    assert!(!one.same(&other));
    assert!(one == one.duplicate());
}

#[test]
fn values_that_are_the_same_hash_the_same() {
    let mut seen = std::collections::HashMap::new();
    seen.insert(bulk("a"), 1);
    seen.insert(RObject::NullBulkString, 2);
    seen.insert(RObject::Array(vec![bulk("a"), RObject::RMap(vec![(bulk("k"), RObject::Null)])]), 3);
    assert_eq!(seen.get(&bulk("a")), Some(&1));
    assert_eq!(seen.get(&RObject::NullBulkString), Some(&2));
    assert_eq!(
        seen.get(&RObject::Array(vec![bulk("a"), RObject::RMap(vec![(bulk("k"), RObject::Null)])])),
        Some(&3)
    );
    assert_eq!(seen.get(&RObject::SimpleString("a".to_string())), None);
    seen.insert(bulk("a"), 4);
    assert_eq!(seen.len(), 3);
}

#[test]
fn command_is_an_array_of_bulk_strings() {
    let command = RObject::command(vec!["REPLCONF".to_string(), "ACK".to_string(), "31".to_string()]);
    assert_eq!(command, RObject::Array(vec![bulk("REPLCONF"), bulk("ACK"), bulk("31")]));
    assert_eq!(command.encode(), b"*3\r\n$8\r\nREPLCONF\r\n$3\r\nACK\r\n$2\r\n31\r\n");
    assert_eq!(bulk("x").as_bulk(), Some(&"x".to_string()));
    assert_eq!(RObject::Integer(1).as_bulk(), None);
}

#[test]
fn values_fit_for_the_wire() {
    assert!(RObject::SimpleString("plain".to_string()).is_well_formed());
    assert!(RObject::SimpleString("a lone\rreturn".to_string()).is_well_formed());
    assert!(!RObject::SimpleString("two\r\nlines".to_string()).is_well_formed());
    assert!(!RObject::SimpleError("two\r\nlines".to_string()).is_well_formed());
    assert!(!RObject::BigNumber("1\r\n2".to_string()).is_well_formed());
    assert!(bulk("two\r\nlines").is_well_formed());
    assert!(RObject::BulkError("two\r\nlines".to_string()).is_well_formed());
    assert!(RObject::Double("1.5".to_string()).is_well_formed());
    assert!(!RObject::Double("one and a half".to_string()).is_well_formed());
    assert!(RObject::VerbatimString("any\r\ntext".to_string(), "txt".to_string()).is_well_formed());
    assert!(!RObject::VerbatimString("text".to_string(), "t\r\nt".to_string()).is_well_formed());
    assert!(RObject::Array(vec![bulk("a"), RObject::Null]).is_well_formed());
    assert!(!RObject::Array(vec![bulk("a"), RObject::Double("x".to_string())]).is_well_formed());
    assert!(!RObject::Push(vec![RObject::RSet(vec![RObject::SimpleString("\r\n".to_string())])])
        .is_well_formed());
    assert!(RObject::RMap(vec![(bulk("a"), bulk("1")), (bulk("b"), bulk("1"))]).is_well_formed());
    assert!(!RObject::RMap(vec![(bulk("a"), bulk("1")), (bulk("a"), bulk("2"))]).is_well_formed());
    assert!(!RObject::RMap(vec![(bulk("a"), RObject::Double("".to_string()))]).is_well_formed());
}

#[test]
fn what_is_not_fit_for_the_wire_does_not_come_back() {
    let value = RObject::SimpleString("two\r\nlines".to_string());
    let bytes = value.encode();
    let (back, end) = RObject::decode(&bytes, 0).unwrap();
    assert_eq!(back, RObject::SimpleString("two".to_string()));
    assert!(end < bytes.len());
}

#[test]
fn what_decoding_yields_is_fit_for_the_wire() {
    for frame in [
        &b"+OK\r\n"[..],
        b"%2\r\n+a\r\n:1\r\n+a\r\n:2\r\n",
        b"*2\r\n,1e5\r\n=1\r\ntxt\r\nx\r\n",
    ] {
        let (value, _) = RObject::decode(frame, 0).unwrap();
        assert!(value.is_well_formed());
    }
}
