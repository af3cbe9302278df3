use tomllib::types::{Children, ParseError, ParseResult, StrType, Value};
use tomllib::TOMLParser;

#[test]
fn test_round_trip_identity() {
    let doc = "# heading\n\n[owner] # note\n  name = \"Tom\"\n  dob = 1979-05-27T07:32:00-08:00\n\n[database]\nserver = \"192.168.1.1\"\nports = [ 8001, 8001, 8002 ]\nconnection_max = 5_000\nenabled = true\nmixed_ws =\t{ a =  1, b=2 }\n";
    let parser = TOMLParser::new();
    let (parser, result) = parser.parse(doc);
    assert!(matches!(result, ParseResult::Full));
    assert_eq!(doc, &parser.render());
}

#[test]
fn test_round_trip_multiline_strings() {
    let doc = "a = \"\"\"\nfirst\nsecond\"\"\"\nb = '''raw 'quote' text'''\nc = \"esc\\t\\u0041\"\n";
    let parser = TOMLParser::new();
    let (parser, result) = parser.parse(doc);
    assert!(matches!(result, ParseResult::Full));
    assert_eq!(doc, &parser.render());
}

#[test]
fn test_scalar_mutation_preserves_formatting() {
    let parser = TOMLParser::new();
    let (mut parser, result) = parser.parse("key = 5 # note");
    assert!(matches!(result, ParseResult::Full));
    assert!(parser.set_value("key", Value::integer(9)));
    assert_eq!("key = 9 # note", &parser.render());
}

#[test]
fn test_array_mutation_same_shape() {
    let parser = TOMLParser::new();
    let (mut parser, result) = parser.parse("arr = [ 1 ,2,  3 ] # tail");
    assert!(matches!(result, ParseResult::Full));
    let replacement = Value::Array(vec![
        Value::integer(9),
        Value::integer(8),
        Value::integer(7),
    ]);
    assert!(parser.set_value("arr", replacement));
    assert_eq!("arr = [ 9 ,8,  7 ] # tail", &parser.render());
}

#[test]
fn test_array_mutation_shape_change() {
    let parser = TOMLParser::new();
    let (mut parser, result) = parser.parse("arr = [ 1 ,2,  3 ] # tail\nother = 1");
    assert!(matches!(result, ParseResult::Full));
    let replacement = Value::Array(vec![Value::integer(4), Value::integer(5)]);
    assert!(parser.set_value("arr", replacement));
    // the whole array reverts to canonical formatting and loses its comment;
    // the rest of the document is untouched
    assert_eq!("arr = [4, 5] \nother = 1", &parser.render());
}

#[test]
fn test_inline_table_mutation_same_keys() {
    let parser = TOMLParser::new();
    let (mut parser, result) = parser.parse("t = {a =  1 , b=2}");
    assert!(matches!(result, ParseResult::Full));
    let replacement = Value::InlineTable(vec![
        ("a".to_string(), Value::integer(9)),
        ("b".to_string(), Value::integer(2)),
    ]);
    assert!(parser.set_value("t", replacement));
    assert_eq!("t = {a =  9 , b=2}", &parser.render());
}

#[test]
fn test_inline_table_mutation_renamed_key() {
    let parser = TOMLParser::new();
    let (mut parser, result) = parser.parse("t = {a =  1 , b=2}");
    assert!(matches!(result, ParseResult::Full));
    let replacement = Value::InlineTable(vec![
        ("a".to_string(), Value::integer(9)),
        ("c".to_string(), Value::integer(2)),
    ]);
    assert!(parser.set_value("t", replacement));
    assert_eq!("t = {a = 9, c = 2}", &parser.render());
}

#[test]
fn test_get_after_set() {
    let parser = TOMLParser::new();
    let (mut parser, result) = parser.parse("[table]\nAKey=\"A Value\"");
    assert!(matches!(result, ParseResult::Full));
    assert!(parser.set_value("table.AKey", Value::Integer("5_000".to_string())));
    assert_eq!(Value::int_from_str("5_000").unwrap(), parser.get_value("table.AKey").unwrap());

    let arr = Value::Array(vec![Value::integer(1), Value::bool(true)]);
    assert!(parser.set_value("table.AKey", Value::Array(vec![
        Value::integer(1),
        Value::bool(true),
    ])));
    assert_eq!(arr, parser.get_value("table.AKey").unwrap());
}

#[test]
fn test_set_missing_key() {
    let parser = TOMLParser::new();
    let (mut parser, _) = parser.parse("a = 1");
    assert!(!parser.set_value("missing", Value::integer(2)));
    assert!(!parser.set_value("", Value::integer(2)));
    assert_eq!("a = 1", &parser.render());
}

#[test]
fn test_children_dispatch() {
    let parser = TOMLParser::new();
    let (parser, result) = parser.parse("arr = [1,2,3]\nt = {x=1,y=2}");
    assert!(matches!(result, ParseResult::Full));
    assert_eq!(Children::Count(3), parser.get_children("arr").unwrap());
    assert_eq!(
        Children::Keys(vec!["x".to_string(), "y".to_string()]),
        parser.get_children("t").unwrap()
    );
    assert!(parser.get_children("arr[0]").is_none());
    assert!(parser.get_children("absent").is_none());
}

#[test]
fn test_children_of_tables() {
    let toml_doc = "\n[table]\n\"A Key\" = \"A Value\"\nSomeKey = \"Some Value\"\nAnotherKey = 5\n[[array_of_tables]]\n[[array_of_tables]]\n[[array_of_tables]]\n";
    let parser = TOMLParser::new();
    let (parser, _result) = parser.parse(toml_doc);
    assert_eq!(
        Children::Keys(vec![
            "\"A Key\"".to_string(),
            "SomeKey".to_string(),
            "AnotherKey".to_string()
        ]),
        parser.get_children("table").unwrap()
    );
    assert_eq!(Children::Count(3), parser.get_children("array_of_tables").unwrap());
}

#[test]
fn test_duplicate_key_detection() {
    let parser = TOMLParser::new();
    let (parser, result) = parser.parse("a = 1\na = 2");
    match result {
        ParseResult::FullError(errors) => {
            assert_eq!(1, errors.len());
            match &errors[0] {
                ParseError::DuplicateKey(key, line, col, val) => {
                    assert_eq!("a", key);
                    assert_eq!(2, *line);
                    assert_eq!(0, *col);
                    assert_eq!(Value::integer(1), *val);
                },
                other => panic!("unexpected error: {:?}", other),
            }
        },
        other => panic!("unexpected result: {:?}", other),
    }
    // the first occurrence stays authoritative for lookup
    assert_eq!(Value::integer(1), parser.get_value("a").unwrap());
    assert_eq!("a = 1\na = 2", &parser.render());
}

#[test]
fn test_mixed_array_tolerance() {
    let parser = TOMLParser::new();
    let (parser, result) = parser.parse("x = [1, true]");
    match result {
        ParseResult::FullError(errors) => {
            assert_eq!(1, errors.len());
            match &errors[0] {
                ParseError::MixedArray(key, line, col) => {
                    assert_eq!("x", key);
                    assert_eq!(1, *line);
                    assert_eq!(0, *col);
                },
                other => panic!("unexpected error: {:?}", other),
            }
        },
        other => panic!("unexpected result: {:?}", other),
    }
    // the array still parses and is addressable
    assert_eq!(
        Value::Array(vec![Value::integer(1), Value::bool(true)]),
        parser.get_value("x").unwrap()
    );
}

#[test]
fn test_mixed_array_in_array_of_tables() {
    let toml_doc = "\n[[array_of_tables]]\n  [array_of_tables.has_error]\n  mixed_array = [5, true]\n";
    let parser = TOMLParser::new();
    let (parser, result) = parser.parse(toml_doc);
    match result {
        ParseResult::FullError(errors) => {
            assert_eq!(1, errors.len());
            match &errors[0] {
                ParseError::MixedArray(key, line, col) => {
                    assert_eq!("array_of_tables[0].has_error.mixed_array", key);
                    assert_eq!(4, *line);
                    assert_eq!(0, *col);
                },
                other => panic!("unexpected error: {:?}", other),
            }
        },
        other => panic!("unexpected result: {:?}", other),
    }
    assert_eq!(parser.render(), toml_doc);
}

#[test]
fn test_nested_addressing() {
    let toml_doc = "\"A Key\" = \"A Value\"\n[[tables]]\nSomeKey = 2010-05-18\n[tables.subtable]\nAnotherKey = 5\n";
    let parser = TOMLParser::new();
    let (parser, result) = parser.parse(toml_doc);
    assert!(matches!(result, ParseResult::Full));
    assert_eq!(Value::basic_string("A Value").unwrap(), parser.get_value("\"A Key\"").unwrap());
    assert_eq!(Value::date_from_int(2010, 5, 18).unwrap(), parser.get_value("tables[0].SomeKey").unwrap());
    assert_eq!(Value::integer(5), parser.get_value("tables[0].subtable.AnotherKey").unwrap());
    assert!(parser.get_value("tables[1].SomeKey").is_none());
}

#[test]
fn test_array_element_addressing() {
    let parser = TOMLParser::new();
    let (mut parser, result) = parser.parse("arr = [[1, 2], [3, 4]]
it = {k = 'v', n = {m = 4}}");
    assert!(matches!(result, ParseResult::Full));
    assert_eq!(Value::integer(4), parser.get_value("arr[1][1]").unwrap());
    assert_eq!(Value::literal_string("v").unwrap(), parser.get_value("it.k").unwrap());
    assert_eq!(Value::integer(4), parser.get_value("it.n.m").unwrap());
    assert!(parser.set_value("arr[1][0]", Value::integer(9)));
    assert_eq!("arr = [[1, 2], [9, 4]]
it = {k = 'v', n = {m = 4}}", &parser.render());
}

#[test]
fn test_partial_parse() {
    let parser = TOMLParser::new();
    let (parser, result) = parser.parse("key = 1\n???");
    match result {
        ParseResult::Partial(rem, line, col) => {
            assert_eq!("???", &rem);
            assert_eq!(2, line);
            assert_eq!(0, col);
        },
        other => panic!("unexpected result: {:?}", other),
    }
    assert_eq!("key = 1\n", &parser.render());
    assert_eq!(Value::integer(1), parser.get_value("key").unwrap());
}

#[test]
fn test_failure_parse() {
    let parser = TOMLParser::new();
    let (parser, result) = parser.parse("???");
    assert!(matches!(result, ParseResult::Failure(1, 0)));
    assert_eq!("", &parser.render());
}

#[test]
fn test_empty_document() {
    let parser = TOMLParser::new();
    let (parser, result) = parser.parse("");
    assert!(matches!(result, ParseResult::Full));
    assert_eq!("", &parser.render());
}

#[test]
fn test_invalid_datetime_error() {
    let parser = TOMLParser::new();
    let (parser, result) = parser.parse("d = 2016-02-30");
    match result {
        ParseResult::FullError(errors) => {
            assert_eq!(1, errors.len());
            match &errors[0] {
                ParseError::InvalidDateTime(key, line, _col, text) => {
                    assert_eq!("d", key);
                    assert_eq!(1, *line);
                    assert_eq!("2016-02-30", text);
                },
                other => panic!("unexpected error: {:?}", other),
            }
        },
        other => panic!("unexpected result: {:?}", other),
    }
    assert_eq!("d = 2016-02-30", &parser.render());
}

#[test]
fn test_invalid_table_error() {
    let parser = TOMLParser::new();
    let (_parser, result) = parser.parse("[a]\nx = 1\n[a]\ny = 2");
    match result {
        ParseResult::FullError(errors) => {
            assert_eq!(1, errors.len());
            match &errors[0] {
                ParseError::InvalidTable(key, line, _col, seen) => {
                    assert_eq!("a", key);
                    assert_eq!(3, *line);
                    assert_eq!(1, seen.len());
                    assert_eq!("x", &seen[0].0);
                    assert_eq!(Value::integer(1), seen[0].1);
                },
                other => panic!("unexpected error: {:?}", other),
            }
        },
        other => panic!("unexpected result: {:?}", other),
    }
}

#[test]
fn test_date_validity_boundary() {
    assert!(Value::date_from_int(2000, 2, 29).is_ok());
    assert!(Value::date_from_int(1900, 2, 29).is_err());
    assert!(Value::date_from_int(2016, 2, 30).is_err());
    assert!(Value::date_from_int(2016, 2, 29).is_ok());
    assert!(Value::date_from_int(2016, 12, 31).is_ok());
}

#[test]
fn test_set_value_quoted_key_and_bool() {
    let toml_doc = "\n[table] # This is a comment\n  \"A Key\" = \"A Value\" # This line is indented\n    SomeKey = \"Some Value\" # This line is indented twice\n";
    let parser = TOMLParser::new();
    let (mut parser, result) = parser.parse(toml_doc);
    assert!(matches!(result, ParseResult::Full));
    assert!(parser.set_value("table.\"A Key\"", Value::integer(9)));
    assert!(parser.set_value("table.SomeKey", Value::bool(false)));
    assert_eq!(
        "\n[table] # This is a comment\n  \"A Key\" = 9 # This line is indented\n    SomeKey = false # This line is indented twice\n",
        &parser.render()
    );
}

#[test]
fn test_string_styles_round_trip() {
    let doc = "a = \"basic\"\nb = 'literal'\nc = \"\"\"ml \"basic\" ok\"\"\"\nd = '''ml 'literal' text'''";
    let parser = TOMLParser::new();
    let (parser, result) = parser.parse(doc);
    assert!(matches!(result, ParseResult::Full));
    assert_eq!(doc, &parser.render());
    assert_eq!(Value::String("basic".to_string(), StrType::Basic), parser.get_value("a").unwrap());
    assert_eq!(Value::String("literal".to_string(), StrType::Literal), parser.get_value("b").unwrap());
}

#[test]
fn test_empty_and_trailing_comma_arrays() {
    let doc = "a = []\nb = [1, 2, ]\nc = [ ]";
    let parser = TOMLParser::new();
    let (parser, result) = parser.parse(doc);
    assert!(matches!(result, ParseResult::Full));
    assert_eq!(doc, &parser.render());
    assert_eq!(Value::Array(vec![]), parser.get_value("a").unwrap());
    assert_eq!(
        Value::Array(vec![Value::integer(1), Value::integer(2)]),
        parser.get_value("b").unwrap()
    );
    assert_eq!(Children::Count(0), parser.get_children("a").unwrap());
    assert_eq!(Children::Count(2), parser.get_children("b").unwrap());
}

#[test]
fn test_crlf_round_trip() {
    let doc = "a = 1\r\nb = 2\r\n";
    let parser = TOMLParser::new();
    let (parser, result) = parser.parse(doc);
    assert!(matches!(result, ParseResult::Full));
    assert_eq!(doc, &parser.render());
}

#[test]
fn test_comment_only_document() {
    let doc = "# nothing but a comment";
    let parser = TOMLParser::new();
    let (parser, result) = parser.parse(doc);
    assert!(matches!(result, ParseResult::Full));
    assert_eq!(doc, &parser.render());
}

#[test]
fn test_array_with_inner_comments() {
    let doc = "a = [ 1, # one\n      2 ] # list";
    let parser = TOMLParser::new();
    let (mut parser, result) = parser.parse(doc);
    assert!(matches!(result, ParseResult::Full));
    assert_eq!(doc, &parser.render());
    assert!(parser.set_value("a", Value::Array(vec![Value::integer(7), Value::integer(8)])));
    assert_eq!("a = [ 7, # one\n      8 ] # list", &parser.render());
}

#[test]
fn test_set_scalar_to_container() {
    let parser = TOMLParser::new();
    let (mut parser, result) = parser.parse("x = 1 # gone");
    assert!(matches!(result, ParseResult::Full));
    let t = Value::InlineTable(vec![("a".to_string(), Value::integer(1))]);
    assert!(parser.set_value("x", t));
    assert_eq!("x = {a = 1} ", &parser.render());
    assert_eq!(Value::integer(1), parser.get_value("x.a").unwrap());
    assert_eq!(
        Children::Keys(vec!["a".to_string()]),
        parser.get_children("x").unwrap()
    );
}

#[test]
fn test_datetime_value_round_trip() {
    let doc = "dob = 1979-05-27T07:32:00-08:00";
    let parser = TOMLParser::new();
    let (parser, result) = parser.parse(doc);
    assert!(matches!(result, ParseResult::Full));
    assert_eq!(doc, &parser.render());
    assert_eq!(
        Value::datetime_offset_from_int(1979, 5, 27, 7, 32, 0, '-', 8, 0).unwrap(),
        parser.get_value("dob").unwrap()
    );
}

#[test]
fn test_unicode_round_trip() {
    let doc = "# Tλïƨ ïƨ á TÓM£ δôçú₥èñƭ.\n\ntitle = \"TÓM£ Éжá₥ƥℓè\"\n[\"δřá\"]#Mèƨsaϱè\nkey=\"value\"#wλïƭeƨƥáçè\n";
    let parser = TOMLParser::new();
    let (parser, result) = parser.parse(doc);
    assert!(matches!(result, ParseResult::Full));
    assert_eq!(doc, &parser.render());
    assert_eq!(Value::basic_string("TÓM£ Éжá₥ƥℓè").unwrap(), parser.get_value("title").unwrap());
    assert_eq!(Value::basic_string("value").unwrap(), parser.get_value("\"δřá\".key").unwrap());
}

#[test]
fn test_shape_change_leaves_unrelated_keys() {
    let parser = TOMLParser::new();
    let (mut parser, result) = parser.parse("a = 1\nb = [1, 2]\nc = 'x'");
    assert!(matches!(result, ParseResult::Full));
    // replacing b with a different shape must not disturb a or c
    let t = Value::InlineTable(vec![("k".to_string(), Value::integer(7))]);
    assert!(parser.set_value("b", t));
    assert_eq!(Value::integer(1), parser.get_value("a").unwrap());
    assert_eq!(Value::literal_string("x").unwrap(), parser.get_value("c").unwrap());
    assert_eq!(Value::integer(7), parser.get_value("b.k").unwrap());
    assert_eq!(
        Children::Keys(vec!["k".to_string()]),
        parser.get_children("b").unwrap()
    );
    assert!(parser.get_value("b[0]").is_none());
    assert_eq!("a = 1\nb = {k = 7}\nc = 'x'", &parser.render());
}

#[test]
fn test_partial_line_counts_newlines() {
    let parser = TOMLParser::new();
    let (_parser, result) = parser.parse("a = 1\nb = 2\n\n???rest");
    match result {
        ParseResult::Partial(rem, line, col) => {
            assert_eq!("???rest", &rem);
            assert_eq!(4, line);
            assert_eq!(0, col);
        },
        other => panic!("unexpected result: {:?}", other),
    }
}

#[test]
fn test_error_messages_name_the_input() {
    let msg = Value::int_from_str("not-a-number").unwrap_err();
    assert!(msg.message().ends_with("not-a-number"));
    let msg = Value::basic_string("bad\nstring").unwrap_err();
    assert!(msg.message().ends_with("bad\nstring"));
}

#[test]
fn test_get_value_missing() {
    let parser = TOMLParser::new();
    let (parser, _) = parser.parse("a = 1");
    assert!(parser.get_value("b").is_none());
    assert!(parser.get_value("a.b").is_none());
    assert!(parser.get_value("").is_none());
    // a table header addresses no value of its own
    let parser2 = TOMLParser::new();
    let (parser2, _) = parser2.parse("[t]\nx = 1");
    assert!(parser2.get_value("t").is_none());
    assert_eq!(Value::integer(1), parser2.get_value("t.x").unwrap());
}
