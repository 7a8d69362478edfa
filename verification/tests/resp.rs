use respcmd::resp::{parse_raw, DecodeErr, RESPType};

fn b(s: &str) -> Vec<u8> {
    s.as_bytes().to_vec()
}

fn decode(s: &str) -> Result<(RESPType, usize), DecodeErr> {
    parse_raw(&b(s))
}

#[test]
fn test_resp_protocol() {
    let test_cases = vec![
        ("+foo\r\n", RESPType::Str(b("foo"))),
        ("-wrong\r\n", RESPType::Error(b("wrong"))),
        (":-10\r\n", RESPType::Integer(-10)),
        (":65535\r\n", RESPType::Integer(65535)),
        ("$10\r\nabcdefghij\r\n", RESPType::BulkStr(Some(b("abcdefghij")))),
        ("$-1\r\n", RESPType::BulkStr(None)),
        (
            "*2\r\n+foo\r\n-wrong\r\n",
            RESPType::Arr(Some(vec![RESPType::Str(b("foo")), RESPType::Error(b("wrong"))])),
        ),
        (
            "*3\r\n*3\r\n:1\r\n:-2\r\n:3\r\n$3\r\ntwe\r\n-qqq\r\n",
            RESPType::Arr(Some(vec![
                RESPType::Arr(Some(vec![
                    RESPType::Integer(1),
                    RESPType::Integer(-2),
                    RESPType::Integer(3),
                ])),
                RESPType::BulkStr(Some(b("twe"))),
                RESPType::Error(b("qqq")),
            ])),
        ),
        ("*-1\r\n", RESPType::Arr(None)),
    ];
    for (s, expect) in test_cases {
        let (v, _) = decode(s).unwrap();
        assert_eq!(v, expect);
    }
}

#[test]
fn test_parse_with_extra_bytes() {
    let input = b("+foo\r\ntt");
    let (actual, used) = parse_raw(&input).unwrap();
    assert_eq!(&input[used..], "tt".as_bytes());
    assert_eq!(actual, RESPType::Str(b("foo")));
}

#[test]
fn round_trip_consumes_whole_encoding() {
    // A hand-written encoding of a nested value decodes back to it and
    // consumes every byte of the encoding.
    let input = b("*2\r\n$1\r\na\r\n:5\r\n");
    let (v, used) = parse_raw(&input).unwrap();
    assert_eq!(used, input.len());
    assert_eq!(
        v,
        RESPType::Arr(Some(vec![
            RESPType::BulkStr(Some(b("a"))),
            RESPType::Integer(5),
        ]))
    );
}

#[test]
fn null_bulk_differs_from_empty_bulk() {
    let (null, _) = decode("$-1\r\n").unwrap();
    let (empty, _) = decode("$0\r\n\r\n").unwrap();
    assert_eq!(null, RESPType::BulkStr(None));
    assert_eq!(empty, RESPType::BulkStr(Some(Vec::new())));
    assert_ne!(null, empty);
}

#[test]
fn null_array_differs_from_empty_array() {
    let (null, _) = decode("*-1\r\n").unwrap();
    let (empty, _) = decode("*0\r\n").unwrap();
    assert_eq!(null, RESPType::Arr(None));
    assert_eq!(empty, RESPType::Arr(Some(Vec::new())));
    assert_ne!(null, empty);
}

#[test]
fn decode_errors_are_classified() {
    assert_eq!(decode(""), Err(DecodeErr::Truncated));
    assert_eq!(decode("xabc"), Err(DecodeErr::BadPrefix));
    assert_eq!(decode("+foo"), Err(DecodeErr::MissingCrlf));
    assert_eq!(decode("+foo\rx"), Err(DecodeErr::MissingCrlf));
    assert_eq!(decode(":12a\r\n"), Err(DecodeErr::BadInt));
    assert_eq!(decode(":\r\n"), Err(DecodeErr::BadInt));
    assert_eq!(decode("$-2\r\n"), Err(DecodeErr::NegLength));
    assert_eq!(decode("*-3\r\n"), Err(DecodeErr::NegLength));
    assert_eq!(decode("$5\r\nab"), Err(DecodeErr::Truncated));
    assert_eq!(decode("$2\r\nabx\r\n"), Err(DecodeErr::MissingCrlf));
    assert_eq!(decode("*2\r\n+a\r\n"), Err(DecodeErr::Truncated));
    // A simple-string line that is not valid UTF-8.
    assert_eq!(parse_raw(&vec![43, 255, 13, 10]), Err(DecodeErr::NotUtf8));
}

#[test]
fn integer_bounds_and_signs() {
    let (v, _) = decode(":9223372036854775807\r\n").unwrap();
    assert_eq!(v, RESPType::Integer(i64::MAX));
    let (v, _) = decode(":-9223372036854775808\r\n").unwrap();
    assert_eq!(v, RESPType::Integer(i64::MIN));
    assert_eq!(decode(":9223372036854775808\r\n"), Err(DecodeErr::BadInt));
    assert_eq!(decode(":-9223372036854775809\r\n"), Err(DecodeErr::BadInt));
    let (v, _) = decode(":+42\r\n").unwrap();
    assert_eq!(v, RESPType::Integer(42));
}

#[test]
fn simple_string_may_hold_a_bare_lf() {
    // Only CR-LF ends a line; a bare LF is ordinary text.
    let (v, _) = decode("+a\nb\r\n").unwrap();
    assert_eq!(v, RESPType::Str(b("a\nb")));
}

#[test]
fn bulk_string_may_hold_any_bytes() {
    // The payload is raw: a CR-LF inside it is carried through.
    let input = b("$4\r\na\r\nb\r\n");
    let (v, used) = parse_raw(&input).unwrap();
    assert_eq!(v, RESPType::BulkStr(Some(b("a\r\nb"))));
    assert_eq!(used, input.len());
}
