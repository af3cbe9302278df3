use tomllib::types::{Children, Date, DateTime, StrType, Time, TimeOffset, TimeOffsetAmount, Value};

#[test]
fn test_combine_keys() {
    assert_eq!("foo.bar.baz".to_string(), Children::combine_keys("foo.bar", "baz"));
}

#[test]
fn test_combine_keys_index() {
    assert_eq!("foo.bar[9]".to_string(), Children::combine_keys_index("foo.bar", 9));
}

#[test]
fn test_combine_child_keys() {
    let kids = Children::Keys(vec![
        "baz".to_string(),
        "qux".to_string(),
        "plugh".to_string(),
        "thud".to_string(),
    ]);
    assert_eq!(
        vec![
            "foo.bar.baz".to_string(),
            "foo.bar.qux".to_string(),
            "foo.bar.plugh".to_string(),
            "foo.bar.thud".to_string()
        ],
        kids.combine_child_keys("foo.bar".to_string())
    );
}

#[test]
fn test_combine_child_keys_empty_base() {
    let kids = Children::Keys(vec![
        "baz".to_string(),
        "qux".to_string(),
        "plugh".to_string(),
        "thud".to_string(),
    ]);
    assert_eq!(
        vec!["baz".to_string(), "qux".to_string(), "plugh".to_string(), "thud".to_string()],
        kids.combine_child_keys("".to_string())
    );
}

#[test]
fn test_combine_child_keys_index() {
    let kids = Children::Count(3);
    assert_eq!(
        vec!["foo.bar[0]".to_string(), "foo.bar[1]".to_string(), "foo.bar[2]".to_string()],
        kids.combine_child_keys("foo.bar".to_string())
    );
}

#[test]
fn test_value_display() {
    let val_int = Value::Integer("7778877".to_string());
    let val_float = Value::Float("1929.345".to_string());
    let val_true = Value::Boolean(true);
    let val_false = Value::Boolean(false);
    let val_datetime = Value::DateTime(DateTime::new(
        Date::new_str("9999", "12", "31"),
        Some(Time::new_str(
            "23",
            "59",
            "59",
            Some("9999999"),
            Some(TimeOffset::Time(TimeOffsetAmount::new_str("-", "00", "00"))),
        )),
    ));
    let val_basic_str = Value::String("foobar1".to_string(), StrType::Basic);
    let val_literal_str = Value::String("foobar2".to_string(), StrType::Literal);
    let val_ml_basic_str = Value::String("foobar3".to_string(), StrType::MLBasic);
    let val_ml_literal_str = Value::String("foobar4".to_string(), StrType::MLLiteral);
    let val_array = Value::Array(vec![
        Value::Integer("3000".to_string()),
        Value::Array(vec![
            Value::Integer("40000".to_string()),
            Value::Float("50.5".to_string()),
        ]),
        Value::String("barbaz".to_string(), StrType::Literal),
    ]);
    let val_inline_table = Value::InlineTable(vec![
        ("foo".to_string(), Value::Boolean(true)),
        (
            "bar".to_string(),
            Value::InlineTable(vec![
                ("baz".to_string(), Value::Boolean(false)),
                ("qux".to_string(), Value::Integer("2016".to_string())),
            ]),
        ),
        ("plugh".to_string(), Value::Float("3333.444".to_string())),
    ]);

    assert_eq!("7778877", &val_int.render());
    assert_eq!("1929.345", &val_float.render());
    assert_eq!("true", &val_true.render());
    assert_eq!("false", &val_false.render());
    assert_eq!("9999-12-31T23:59:59.9999999-00:00", &val_datetime.render());
    assert_eq!("\"foobar1\"", &val_basic_str.render());
    assert_eq!("'foobar2'", &val_literal_str.render());
    assert_eq!("\"\"\"foobar3\"\"\"", &val_ml_basic_str.render());
    assert_eq!("'''foobar4'''", &val_ml_literal_str.render());
    assert_eq!("[3000, [40000, 50.5], 'barbaz']", &val_array.render());
    assert_eq!("{foo = true, bar = {baz = false, qux = 2016}, plugh = 3333.444}", &val_inline_table.render());
}

#[test]
fn test_create_int() {
    assert_eq!(Value::Integer("9223372036854775807".to_string()), Value::integer(9223372036854775807));
}

#[test]
fn test_create_int_from_str() {
    assert_eq!(
        Value::Integer("-9223372036854775808".to_string()),
        Value::int_from_str("-9223372036854775808").unwrap()
    );
}

#[test]
fn test_create_int_from_str_fail() {
    assert!(Value::int_from_str("q-9223$37(203)[]M807").is_err());
}

#[test]
fn test_create_float_from_str() {
    assert_eq!(Value::Float("2.22507e-308".to_string()), Value::float_from_str("2.22507e-308").unwrap());
}

#[test]
fn test_create_float_from_str_fail() {
    assert!(Value::float_from_str("q2.3e++10eipi").is_err());
}

#[test]
fn test_create_bool() {
    assert_eq!(Value::Boolean(false), Value::bool(false));
}

#[test]
fn test_create_bool_from_str() {
    assert_eq!(Value::Boolean(true), Value::bool_from_str("TrUe").unwrap());
}

#[test]
fn test_create_bool_from_str_fail() {
    assert!(Value::bool_from_str("TFraulese").is_err());
}

#[test]
fn test_create_date_from_int() {
    assert_eq!(
        Value::DateTime(DateTime::new(Date::new_str("2012", "01", "03"), None)),
        Value::date_from_int(2012, 1, 3).unwrap()
    );
}

#[test]
fn test_create_date_from_int_fail() {
    assert!(Value::date_from_int(0, 2, 20).is_err());
    assert!(Value::date_from_int(2016, 0, 20).is_err());
    assert!(Value::date_from_int(2016, 1, 0).is_err());
    assert!(Value::date_from_int(2016, 1, 32).is_err());
    assert!(Value::date_from_int(2016, 4, 31).is_err());
    assert!(Value::date_from_int(2016, 2, 30).is_err());
    assert!(Value::date_from_int(2015, 2, 29).is_err());
    assert!(Value::date_from_int(1900, 2, 29).is_err());
    assert!(Value::date_from_int(2000, 2, 30).is_err());
}

#[test]
fn test_create_date_from_str() {
    assert_eq!(
        Value::DateTime(DateTime::new(Date::new_str("2012", "01", "03"), None)),
        Value::date_from_str("2012", "01", "03").unwrap()
    );
}

#[test]
fn test_create_date_from_str_fail() {
    assert!(Value::date_from_str("12345", "01", "01").is_err());
    assert!(Value::date_from_str("2016", "012", "01").is_err());
    assert!(Value::date_from_str("2016", "01", "012").is_err());
    assert!(Value::date_from_str("201q", "01", "01").is_err());
    assert!(Value::date_from_str("2016", "0q", "01").is_err());
    assert!(Value::date_from_str("2016", "01", "0q").is_err());
    assert!(Value::date_from_str("201", "01", "01").is_err());
    assert!(Value::date_from_str("2016", "1", "01").is_err());
    assert!(Value::date_from_str("2016", "01", "1").is_err());
}

#[test]
fn test_create_datetime_from_int() {
    assert_eq!(
        Value::DateTime(DateTime::new(
            Date::new_str("2012", "01", "03"),
            Some(Time::new_str("03", "30", "30", None, None))
        )),
        Value::datetime_from_int(2012, 1, 3, 3, 30, 30).unwrap()
    );
}

#[test]
fn test_create_datetime_from_int_fail() {
    assert!(Value::datetime_from_int(2012, 1, 3, 24, 30, 30).is_err());
    assert!(Value::datetime_from_int(2012, 1, 3, 3, 60, 30).is_err());
    assert!(Value::datetime_from_int(2012, 1, 3, 3, 30, 60).is_err());
}

#[test]
fn test_create_datetime_from_str() {
    assert_eq!(
        Value::DateTime(DateTime::new(
            Date::new_str("2012", "01", "03"),
            Some(Time::new_str("03", "30", "30", None, None))
        )),
        Value::datetime_from_str("2012", "01", "03", "03", "30", "30").unwrap()
    );
}

#[test]
fn test_create_datetime_from_str_fail() {
    assert!(Value::datetime_from_str("2012", "01", "03", "3", "30", "30").is_err());
    assert!(Value::datetime_from_str("2012", "01", "03", "03", "3", "30").is_err());
    assert!(Value::datetime_from_str("2012", "01", "03", "03", "30", "3").is_err());
    assert!(Value::datetime_from_str("2012", "01", "03", "033", "30", "30").is_err());
    assert!(Value::datetime_from_str("2012", "01", "03", "03", "303", "303").is_err());
    assert!(Value::datetime_from_str("2012", "01", "03", "0q", "30", "30").is_err());
    assert!(Value::datetime_from_str("2012", "01", "03", "03", "3q", "30").is_err());
    assert!(Value::datetime_from_str("2012", "01", "03", "03", "30", "3q").is_err());
}

#[test]
fn test_create_datetime_frac_from_int() {
    assert_eq!(
        Value::DateTime(DateTime::new(
            Date::new_str("2012", "01", "03"),
            Some(Time::new_str("03", "30", "30", Some("3030"), None))
        )),
        Value::datetime_frac_from_int(2012, 1, 3, 3, 30, 30, 3030).unwrap()
    );
}

#[test]
fn test_create_datetime_frac_from_int_fail() {
    assert!(Value::datetime_frac_from_int(2012, 1, 0, 3, 30, 30, 3030).is_err());
}

#[test]
fn test_create_datetime_frac_from_str() {
    assert_eq!(
        Value::DateTime(DateTime::new(
            Date::new_str("2012", "01", "03"),
            Some(Time::new_str("03", "30", "30", Some("3030"), None))
        )),
        Value::datetime_frac_from_str("2012", "01", "03", "03", "30", "30", "3030").unwrap()
    );
}

#[test]
fn test_create_datetime_frac_from_str_fail() {
    assert!(Value::datetime_frac_from_str("2012", "01", "03", "03", "30", "30", "q3030").is_err());
}

#[test]
fn test_create_datetime_offset_from_int() {
    assert_eq!(
        Value::DateTime(DateTime::new(
            Date::new_str("2012", "01", "03"),
            Some(Time::new_str(
                "03",
                "30",
                "30",
                None,
                Some(TimeOffset::Time(TimeOffsetAmount::new_str("+", "07", "45")))
            ))
        )),
        Value::datetime_offset_from_int(2012, 1, 3, 3, 30, 30, '+', 7, 45).unwrap()
    );
}

#[test]
fn test_create_datetime_offset_from_int_fail() {
    assert!(Value::datetime_offset_from_int(2012, 1, 3, 3, 30, 30, 'q', 7, 45).is_err());
    assert!(Value::datetime_offset_from_int(2012, 1, 3, 3, 30, 30, '+', 24, 45).is_err());
    assert!(Value::datetime_offset_from_int(2012, 1, 3, 3, 30, 30, '+', 7, 60).is_err());
}

#[test]
fn test_create_datetime_offset_from_str() {
    assert_eq!(
        Value::DateTime(DateTime::new(
            Date::new_str("2012", "01", "03"),
            Some(Time::new_str(
                "03",
                "30",
                "30",
                None,
                Some(TimeOffset::Time(TimeOffsetAmount::new_str("+", "07", "45")))
            ))
        )),
        Value::datetime_offset_from_str("2012", "01", "03", "03", "30", "30", "+", "07", "45").unwrap()
    );
}

#[test]
fn test_create_datetime_offset_from_str_fail() {
    assert!(Value::datetime_offset_from_str("2012", "01", "03", "03", "30", "30", "+", "077", "45").is_err());
    assert!(Value::datetime_offset_from_str("2012", "01", "03", "03", "30", "30", "+", "07", "455").is_err());
    assert!(Value::datetime_offset_from_str("2012", "01", "03", "03", "30", "30", "+", "7", "45").is_err());
    assert!(Value::datetime_offset_from_str("2012", "01", "03", "03", "30", "30", "+", "07", "5").is_err());
    assert!(Value::datetime_offset_from_str("2012", "01", "03", "03", "30", "30", "q", "07", "45").is_err());
}

#[test]
fn test_create_datetime_zulu_from_int() {
    assert_eq!(
        Value::DateTime(DateTime::new(
            Date::new_str("2012", "01", "03"),
            Some(Time::new_str("03", "30", "30", None, Some(TimeOffset::Zulu)))
        )),
        Value::datetime_zulu_from_int(2012, 1, 3, 3, 30, 30).unwrap()
    );
}

#[test]
fn test_create_datetime_zulu_from_int_fail() {
    assert!(Value::datetime_zulu_from_int(2012, 1, 0, 3, 30, 30).is_err());
}

#[test]
fn test_create_datetime_zulu_from_str() {
    assert_eq!(
        Value::DateTime(DateTime::new(
            Date::new_str("2012", "01", "03"),
            Some(Time::new_str("03", "30", "30", None, Some(TimeOffset::Zulu)))
        )),
        Value::datetime_zulu_from_str("2012", "01", "03", "03", "30", "30").unwrap()
    );
}

#[test]
fn test_create_datetime_zulu_from_str_fail() {
    assert!(Value::datetime_zulu_from_str("q2012", "01", "03", "03", "30", "30").is_err());
}

#[test]
fn test_create_datetime_full_zulu_from_int() {
    assert_eq!(
        Value::DateTime(DateTime::new(
            Date::new_str("2012", "01", "03"),
            Some(Time::new_str("03", "30", "30", Some("3030"), Some(TimeOffset::Zulu)))
        )),
        Value::datetime_full_zulu_from_int(2012, 1, 3, 3, 30, 30, 3030).unwrap()
    );
}

#[test]
fn test_create_datetime_full_zulu_from_int_fail() {
    assert!(Value::datetime_full_zulu_from_int(2012, 1, 0, 3, 30, 30, 3030).is_err());
}

#[test]
fn test_create_datetime_full_zulu_from_str() {
    assert_eq!(
        Value::DateTime(DateTime::new(
            Date::new_str("2012", "01", "03"),
            Some(Time::new_str("03", "30", "30", Some("3030"), Some(TimeOffset::Zulu)))
        )),
        Value::datetime_full_zulu_from_str("2012", "01", "03", "03", "30", "30", "3030").unwrap()
    );
}

#[test]
fn test_create_datetime_full_zulu_from_str_fail() {
    assert!(Value::datetime_full_zulu_from_str("q2012", "01", "03", "03", "30", "30", "3030").is_err());
}

#[test]
fn test_create_datetime_full_from_int() {
    assert_eq!(
        Value::DateTime(DateTime::new(
            Date::new_str("2012", "01", "03"),
            Some(Time::new_str(
                "03",
                "30",
                "30",
                Some("3030"),
                Some(TimeOffset::Time(TimeOffsetAmount::new_str("+", "07", "45")))
            ))
        )),
        Value::datetime_full_from_int(2012, 1, 3, 3, 30, 30, 3030, '+', 7, 45).unwrap()
    );
}

#[test]
fn test_create_datetime_full_from_int_fail() {
    assert!(Value::datetime_full_from_int(2012, 1, 0, 3, 30, 30, 3030, '+', 7, 45).is_err());
    assert!(Value::datetime_full_from_int(2012, 13, 0, 3, 30, 30, 3030, '+', 7, 45).is_err());
    assert!(Value::datetime_full_from_int(2012, 1, 0, 3, 61, 30, 3030, '+', 7, 45).is_err());
    assert!(Value::datetime_full_from_int(2012, 1, 0, 3, 30, 30, 3030, '+', 25, 45).is_err());
    assert!(Value::datetime_full_from_int(2012, 1, 0, 3, 30, 30, 3030, 'q', 7, 45).is_err());
}

#[test]
fn test_create_datetime_full_from_str() {
    assert_eq!(
        Value::DateTime(DateTime::new(
            Date::new_str("2012", "01", "03"),
            Some(Time::new_str(
                "03",
                "30",
                "30",
                Some("3030"),
                Some(TimeOffset::Time(TimeOffsetAmount::new_str("+", "07", "45")))
            ))
        )),
        Value::datetime_full_from_str("2012", "01", "03", "03", "30", "30", "3030", "+", "07", "45").unwrap()
    );
}

#[test]
fn test_create_datetime_full_from_str_fail() {
    assert!(Value::datetime_full_from_str("2012", "01", "03", "03", "30", "30", "q3030", "+", "07", "45").is_err());
    assert!(Value::datetime_full_from_str("2012", "01", "03", "03", "30", "30", "3030", "q", "07", "45").is_err());
}

#[test]
fn test_datetime_parse() {
    assert_eq!(
        Value::DateTime(DateTime::new(
            Date::new_str("2012", "01", "03"),
            Some(Time::new_str(
                "03",
                "30",
                "30",
                Some("3030"),
                Some(TimeOffset::Time(TimeOffsetAmount::new_str("+", "07", "45")))
            ))
        )),
        Value::datetime_parse("2012-01-03T03:30:30.3030+07:45").unwrap()
    );

    assert_eq!(
        Value::DateTime(DateTime::new(
            Date::new_str("2012", "01", "03"),
            Some(Time::new_str("03", "30", "30", Some("3030"), Some(TimeOffset::Zulu)))
        )),
        Value::datetime_parse("2012-01-03T03:30:30.3030Z").unwrap()
    );

    assert_eq!(
        Value::DateTime(DateTime::new(
            Date::new_str("2012", "01", "03"),
            Some(Time::new_str("03", "30", "30", None, Some(TimeOffset::Zulu)))
        )),
        Value::datetime_parse("2012-01-03T03:30:30Z").unwrap()
    );

    assert_eq!(
        Value::DateTime(DateTime::new(
            Date::new_str("2012", "01", "03"),
            Some(Time::new_str(
                "03",
                "30",
                "30",
                None,
                Some(TimeOffset::Time(TimeOffsetAmount::new_str("+", "07", "45")))
            ))
        )),
        Value::datetime_parse("2012-01-03T03:30:30+07:45").unwrap()
    );

    assert_eq!(
        Value::DateTime(DateTime::new(
            Date::new_str("2012", "01", "03"),
            Some(Time::new_str("03", "30", "30", None, None))
        )),
        Value::datetime_parse("2012-01-03T03:30:30").unwrap()
    );

    assert_eq!(
        Value::DateTime(DateTime::new(Date::new_str("2012", "01", "03"), None)),
        Value::datetime_parse("2012-01-03").unwrap()
    );
}

#[test]
fn test_datetime_parse_fail() {
    assert!(Value::datetime_parse("012-01-03T03:30:30.3030+07:45").is_err());
    assert!(Value::datetime_parse("2012-1-03T03:30:30.3030+07:45").is_err());
    assert!(Value::datetime_parse("2012-01-3T03:30:30.3030+07:45").is_err());
    assert!(Value::datetime_parse("2012-01-03T3:30:30.3030+07:45").is_err());
    assert!(Value::datetime_parse("2012-01-03T03:0:30.3030+07:45").is_err());
    assert!(Value::datetime_parse("2012-01-03T03:30:0.3030+07:45").is_err());
    assert!(Value::datetime_parse("2012-01-03T03:30:30.+07:45").is_err());
    assert!(Value::datetime_parse("2012-01-03T03:30:30.303007:45").is_err());
    assert!(Value::datetime_parse("2012-01-03T03:30:30.3030+7:45").is_err());
    assert!(Value::datetime_parse("2012-01-03T03:30:30.3030+07:5").is_err());
    assert!(Value::datetime_parse("20123-01-03T03:30:30.3030+07:45").is_err());
    assert!(Value::datetime_parse("2012-013-03T03:30:30.3030+07:45").is_err());
    assert!(Value::datetime_parse("2012-01-033T03:30:30.3030+07:45").is_err());
    assert!(Value::datetime_parse("2012-01-03T033:30:30.3030+07:45").is_err());
    assert!(Value::datetime_parse("2012-01-03T03:303:30.3030+07:45").is_err());
    assert!(Value::datetime_parse("2012-01-03T03:30:303.3030+07:45").is_err());
    assert!(Value::datetime_parse("2012-01-03T03:30:30.3030+073:45").is_err());
    assert!(Value::datetime_parse("2012-01-03T03:30:30.3030+07:453").is_err());
    assert!(Value::datetime_parse("2012q01-03T03:30:30.3030+07:45").is_err());
    assert!(Value::datetime_parse("2012-01q03T03:30:30.3030+07:45").is_err());
    assert!(Value::datetime_parse("2012-01-03q03:30:30.3030+07:45").is_err());
    assert!(Value::datetime_parse("2012-01-03T03q30:30.3030+07:45").is_err());
    assert!(Value::datetime_parse("2012-01-03T03:30q30.3030+07:45").is_err());
    assert!(Value::datetime_parse("2012-01-03T03:30:30q3030+07:45").is_err());
    assert!(Value::datetime_parse("2012-01-03T03:30:30.3030q07:45").is_err());
    assert!(Value::datetime_parse("2012-01-03T03:30:30.3030+07q45").is_err());
}

#[test]
fn test_create_basic_string() {
    assert_eq!(Value::String("foobar".to_string(), StrType::Basic), Value::basic_string("foobar").unwrap());
}

#[test]
fn test_create_basic_string_fail() {
    assert!(Value::basic_string("foo\nbar").is_err());
}

#[test]
fn test_create_ml_basic_string() {
    assert_eq!(Value::String("foobar".to_string(), StrType::MLBasic), Value::ml_basic_string("foobar").unwrap());
}

#[test]
fn test_create_ml_basic_string_fail() {
    assert!(Value::ml_basic_string(r#"foo\qbar"#).is_err());
}

#[test]
fn test_create_literal_string() {
    assert_eq!(Value::String("foobar".to_string(), StrType::Literal), Value::literal_string("foobar").unwrap());
}

#[test]
fn test_create_literal_string_fail() {
    assert!(Value::literal_string(
        r#"foo
bar"#
    )
    .is_err());
}

#[test]
fn test_create_ml_literal_string() {
    assert_eq!(
        Value::String("foobar".to_string(), StrType::MLLiteral),
        Value::ml_literal_string("foobar").unwrap()
    );
}

#[test]
fn test_create_ml_literal_string_fail() {
    // the string holds form-feed control characters between foo and bar
    assert!(Value::ml_literal_string("foo\u{c}\u{c}\u{c}\u{c}\u{c}\u{c}bar").is_err());
}
