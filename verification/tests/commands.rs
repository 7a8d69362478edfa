use respcmd::commands::{
    CommandErr, Del, Exists, Expiry, Get, GetSet, RedisCommands, SetCmd, SetX, StrLen, Value,
};
use respcmd::resp::{parse_raw, ConvertErr, RESPType};

fn b(s: &str) -> Vec<u8> {
    s.as_bytes().to_vec()
}

fn interpret(wire: &str) -> Result<RedisCommands, CommandErr> {
    let (v, _) = parse_raw(&b(wire)).unwrap();
    RedisCommands::try_from(&v)
}

#[test]
fn test_parse_commands() {
    let test_cases = vec![
        ("*2\r\n+get\r\n+foo\r\n", RedisCommands::Get(Get(b("foo")))),
        (
            "*3\r\n+set\r\n+foo\r\n:456\r\n",
            RedisCommands::SetCmd(SetCmd {
                key: b("foo"),
                value: Value::Num(456),
                expire: None,
                setx: None,
            }),
        ),
        (
            "*3\r\n$3\r\nset\r\n$5\r\nmykey\r\n$5\r\nHello\r\n",
            RedisCommands::SetCmd(SetCmd {
                key: b("mykey"),
                value: Value::BSStr(b("Hello")),
                expire: None,
                setx: None,
            }),
        ),
        (
            "*3\r\n$6\r\ngetset\r\n$7\r\nthiskey\r\n$5\r\n12345\r\n",
            RedisCommands::GetSet(GetSet { key: b("thiskey"), val: Value::BSStr(b("12345")) }),
        ),
    ];
    for (i, expect) in test_cases {
        let (resp, _) = parse_raw(&b(i)).unwrap();
        assert_eq!(RedisCommands::try_from(&resp).unwrap(), expect);
    }
}

#[test]
fn get_without_key_lacks_args() {
    assert_eq!(interpret("*1\r\n+get\r\n"), Err(CommandErr::LackArgs(1, 0)));
}

#[test]
fn unknown_command_is_reported_with_its_name() {
    assert_eq!(interpret("*1\r\n+foo\r\n"), Err(CommandErr::UnknownCommand(b("foo"))));
}

#[test]
fn del_keeps_order_and_duplicates() {
    assert_eq!(
        interpret("*4\r\n+del\r\n+a\r\n+b\r\n+a\r\n"),
        Ok(RedisCommands::Del(Del(vec![b("a"), b("b"), b("a")])))
    );
    assert_eq!(
        interpret("*4\r\n+del\r\n+a\r\n+b\r\n+c\r\n"),
        Ok(RedisCommands::Del(Del(vec![b("a"), b("b"), b("c")])))
    );
    assert_eq!(interpret("*1\r\n+del\r\n"), Err(CommandErr::LackArgs(1, 0)));
}

#[test]
fn interpreting_twice_gives_equal_results() {
    let (v, _) = parse_raw(&b("*3\r\n+set\r\n+foo\r\n:456\r\n")).unwrap();
    let first = RedisCommands::try_from(&v);
    let second = RedisCommands::try_from(&v);
    assert_eq!(first, second);
}

#[test]
fn set_expiry_in_seconds_and_milliseconds() {
    assert_eq!(
        interpret("*5\r\n+set\r\n+k\r\n:1\r\n+ex\r\n+10\r\n"),
        Ok(RedisCommands::SetCmd(SetCmd {
            key: b("k"),
            value: Value::Num(1),
            expire: Some(Expiry { millis: 10000 }),
            setx: None,
        }))
    );
    assert_eq!(
        interpret("*5\r\n+set\r\n+k\r\n:1\r\n+px\r\n+500\r\n"),
        Ok(RedisCommands::SetCmd(SetCmd {
            key: b("k"),
            value: Value::Num(1),
            expire: Some(Expiry { millis: 500 }),
            setx: None,
        }))
    );
    assert_eq!(
        interpret("*5\r\n+set\r\n+k\r\n:1\r\n+ex\r\n+abc\r\n"),
        Err(CommandErr::NotNumber)
    );
    // The count must fit an unsigned 64-bit integer.
    assert_eq!(
        interpret("*5\r\n+set\r\n+k\r\n:1\r\n+ex\r\n+18446744073709551616\r\n"),
        Err(CommandErr::NotNumber)
    );
    assert_eq!(
        interpret("*5\r\n+set\r\n+k\r\n:1\r\n+ex\r\n+-5\r\n"),
        Err(CommandErr::NotNumber)
    );
}

#[test]
fn expiry_compares_by_duration() {
    // One second is a thousand milliseconds, whichever token wrote it.
    assert_eq!(Expiry::from_secs(1), Expiry::from_millis(1000));
    assert_ne!(Expiry::from_secs(1), Expiry::from_millis(1001));
}

#[test]
fn set_existence_modes() {
    assert_eq!(
        interpret("*4\r\n+set\r\n+k\r\n:1\r\n+nx\r\n"),
        Ok(RedisCommands::SetCmd(SetCmd {
            key: b("k"),
            value: Value::Num(1),
            expire: None,
            setx: Some(SetX::NX),
        }))
    );
    assert_eq!(
        interpret("*6\r\n+set\r\n+k\r\n:1\r\n+px\r\n+500\r\n+xx\r\n"),
        Ok(RedisCommands::SetCmd(SetCmd {
            key: b("k"),
            value: Value::Num(1),
            expire: Some(Expiry { millis: 500 }),
            setx: Some(SetX::XX),
        }))
    );
}

#[test]
fn set_ignores_unrecognized_trailing_token() {
    assert_eq!(
        interpret("*4\r\n+set\r\n+k\r\n:1\r\n+zz\r\n"),
        Ok(RedisCommands::SetCmd(SetCmd {
            key: b("k"),
            value: Value::Num(1),
            expire: None,
            setx: None,
        }))
    );
}

#[test]
fn set_value_errors_are_classified() {
    assert_eq!(interpret("*3\r\n+set\r\n+k\r\n$-1\r\n"), Err(CommandErr::NullStr));
    assert_eq!(interpret("*3\r\n+set\r\n+k\r\n-err\r\n"), Err(CommandErr::WrongValueType));
    assert_eq!(interpret("*2\r\n+set\r\n+k\r\n"), Err(CommandErr::LackArgs(2, 1)));
}

#[test]
fn getset_needs_exactly_two_args() {
    assert_eq!(interpret("*2\r\n+getset\r\n+k\r\n"), Err(CommandErr::LackArgs(2, 1)));
    assert_eq!(
        interpret("*4\r\n+getset\r\n+k\r\n:1\r\n:2\r\n"),
        Err(CommandErr::LackArgs(2, 3))
    );
}

#[test]
fn strlen_and_exists_take_one_key() {
    assert_eq!(
        interpret("*2\r\n+strlen\r\n+k\r\n"),
        Ok(RedisCommands::StrLen(StrLen(b("k"))))
    );
    assert_eq!(
        interpret("*2\r\n+exists\r\n+k\r\n"),
        Ok(RedisCommands::Exists(Exists(b("k"))))
    );
    assert_eq!(interpret("*1\r\n+strlen\r\n"), Err(CommandErr::LackArgs(1, 0)));
    assert_eq!(
        interpret("*3\r\n+exists\r\n+a\r\n+b\r\n"),
        Err(CommandErr::LackArgs(1, 2))
    );
}

#[test]
fn interpreting_a_non_array_is_rejected() {
    assert_eq!(interpret("+get\r\n"), Err(CommandErr::Convert(ConvertErr::NotArr)));
    assert_eq!(interpret("*-1\r\n"), Err(CommandErr::Convert(ConvertErr::NotArr)));
    assert_eq!(interpret("*0\r\n"), Err(CommandErr::Convert(ConvertErr::EmptyArr)));
}

#[test]
fn accessors_classify_their_failures() {
    let (int_v, _) = parse_raw(&b(":5\r\n")).unwrap();
    let (str_v, _) = parse_raw(&b("+hi\r\n")).unwrap();
    assert_eq!(int_v.get_int(), Ok(5));
    assert_eq!(str_v.get_int(), Err(ConvertErr::NotInt));
    assert_eq!(str_v.get_string(), Ok(&b("hi")));
    assert_eq!(int_v.get_string(), Err(ConvertErr::NotStr));
    assert_eq!(int_v.to_arr(), Err(ConvertErr::NotArr));
    // A bulk string used as text must be valid UTF-8.
    let bad = RESPType::BulkStr(Some(vec![0xFF]));
    assert_eq!(bad.get_string(), Err(ConvertErr::NotUtf8));
    let null = RESPType::BulkStr(None);
    assert_eq!(null.get_string(), Err(ConvertErr::NotStr));
}

#[test]
fn command_name_may_be_a_bulk_string() {
    assert_eq!(
        interpret("*2\r\n$3\r\nget\r\n$1\r\nk\r\n"),
        Ok(RedisCommands::Get(Get(b("k"))))
    );
}
