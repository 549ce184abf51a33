use cardtoml::{chars_of, parse_multiline_str, parse_toml, parse_toml_table_entry, parse_toml_value, string_from_chars, toml_get, TomlError, TomlItem, TomlType};

fn get<'a>(table: &'a Vec<(String, TomlType)>, key: &str) -> &'a TomlType {
    toml_get(table, key).expect("key missing")
}

#[test]
fn roundtrip_integer_scalars() {
    for n in [0i64, 1, -1, 7, 42, -42, 1000000, i64::MAX, i64::MIN] {
        let text = format!("k = {}", n);
        let doc = parse_toml(&text).unwrap();
        match get(&doc, "k") {
            TomlType::Integer(v) => assert_eq!(*v, n),
            other => panic!("expected integer, got {:?}", other),
        }
    }
}

#[test]
fn integer_overflow_is_invalid() {
    let t = parse_toml("k = 9223372036854775808");
    assert!(matches!(t, Err(TomlError::InvalidToml)));
    let t = parse_toml("k = -9223372036854775809");
    assert!(matches!(t, Err(TomlError::InvalidToml)));
}

#[test]
fn integer_leading_zero_is_not_an_integer() {
    // a leading zero falls through the integer rule; it is no float either
    let t = parse_toml("k = 007");
    assert!(matches!(t, Err(TomlError::ParsingError)));
}

#[test]
fn float_scalars_keep_their_text() {
    let doc = parse_toml("k = 1.5").unwrap();
    match get(&doc, "k") {
        TomlType::Float(f) => assert_eq!(f, "1.5"),
        other => panic!("expected float, got {:?}", other),
    }
    let doc = parse_toml("k = -0.25").unwrap();
    match get(&doc, "k") {
        TomlType::Float(f) => assert_eq!(f, "-0.25"),
        other => panic!("expected float, got {:?}", other),
    }
}

#[test]
fn string_identity() {
    let doc = parse_toml("k = \"abc\"").unwrap();
    match get(&doc, "k") {
        TomlType::String(s) => assert_eq!(s, "abc"),
        other => panic!("expected string, got {:?}", other),
    }
    let doc = parse_toml("k = \"\"").unwrap();
    match get(&doc, "k") {
        TomlType::String(s) => assert_eq!(s, ""),
        other => panic!("expected string, got {:?}", other),
    }
}

#[test]
fn multiline_join() {
    let text = "k = \"\"\"\nline1 \\\nline2\n\"\"\"";
    let doc = parse_toml(text).unwrap();
    match get(&doc, "k") {
        TomlType::String(s) => assert_eq!(s, "line1 line2"),
        other => panic!("expected string, got {:?}", other),
    }
}

#[test]
fn multiline_preserves_inner_blank_lines() {
    let text = "t4 = \"\"\"\n\ntest\n\n\"\"\"";
    let doc = parse_toml(text).unwrap();
    match get(&doc, "t4") {
        TomlType::String(s) => assert_eq!(s, "\ntest\n"),
        other => panic!("expected string, got {:?}", other),
    }
}

#[test]
fn multiline_single_line_form() {
    let doc = parse_toml("k = \"\"\"test\"\"\"").unwrap();
    match get(&doc, "k") {
        TomlType::String(s) => assert_eq!(s, "test"),
        other => panic!("expected string, got {:?}", other),
    }
}

#[test]
fn array_nesting() {
    let doc = parse_toml("k = [1, 2, [3, 4]]").unwrap();
    match get(&doc, "k") {
        TomlType::Array(items) => {
            assert_eq!(items.len(), 3);
            assert!(matches!(items[0], TomlType::Integer(1)));
            assert!(matches!(items[1], TomlType::Integer(2)));
            match &items[2] {
                TomlType::Array(inner) => {
                    assert_eq!(inner.len(), 2);
                    assert!(matches!(inner[0], TomlType::Integer(3)));
                    assert!(matches!(inner[1], TomlType::Integer(4)));
                },
                other => panic!("expected nested array, got {:?}", other),
            }
        },
        other => panic!("expected array, got {:?}", other),
    }
}

#[test]
fn empty_array() {
    let doc = parse_toml("k = [ ]").unwrap();
    match get(&doc, "k") {
        TomlType::Array(items) => assert_eq!(items.len(), 0),
        other => panic!("expected array, got {:?}", other),
    }
}

#[test]
fn inline_table() {
    let doc = parse_toml("k = { a = 1, b = \"x\" }").unwrap();
    match get(&doc, "k") {
        TomlType::Table(entries) => {
            assert_eq!(entries.len(), 2);
            match get(entries, "a") {
                TomlType::Integer(v) => assert_eq!(*v, 1),
                other => panic!("expected integer, got {:?}", other),
            }
            match get(entries, "b") {
                TomlType::String(s) => assert_eq!(s, "x"),
                other => panic!("expected string, got {:?}", other),
            }
        },
        other => panic!("expected table, got {:?}", other),
    }
}

#[test]
fn inline_table_duplicate_key() {
    let t = parse_toml("k = { a = 1, a = 2 }");
    assert!(matches!(t, Err(TomlError::InvalidToml)));
}

#[test]
fn section_scoping() {
    let text = "a = 1\n[sec]\na = 2";
    let doc = parse_toml(text).unwrap();
    match get(&doc, "a") {
        TomlType::Integer(v) => assert_eq!(*v, 1),
        other => panic!("expected integer, got {:?}", other),
    }
    match get(&doc, "sec") {
        TomlType::Table(entries) => match get(entries, "a") {
            TomlType::Integer(v) => assert_eq!(*v, 2),
            other => panic!("expected integer, got {:?}", other),
        },
        other => panic!("expected table, got {:?}", other),
    }
}

#[test]
fn duplicate_key_rejected() {
    let t = parse_toml("k = 1\nk = 2");
    assert!(matches!(t, Err(TomlError::InvalidToml)));
    let t = parse_toml("[s]\nk = 1\nk = 2");
    assert!(matches!(t, Err(TomlError::InvalidToml)));
    let t = parse_toml("k = 1\n[k]\na = 2");
    assert!(matches!(t, Err(TomlError::InvalidToml)));
}

#[test]
fn unterminated_value_rejected() {
    let t = parse_toml("k = \"abc");
    assert!(matches!(t, Err(TomlError::InvalidToml)));
    let t = parse_toml("k = [1, 2");
    assert!(matches!(t, Err(TomlError::InvalidToml)));
    let t = parse_toml("k = \"\"\"abc");
    assert!(matches!(t, Err(TomlError::InvalidToml)));
}

#[test]
fn mismatched_closer_rejected() {
    let t = parse_toml("k = [1}\n");
    assert!(matches!(t, Err(TomlError::InvalidToml)));
}

#[test]
fn missing_equals_rejected() {
    let t = parse_toml("just some words");
    assert!(matches!(t, Err(TomlError::InvalidToml)));
}

#[test]
fn unrecognised_value_is_parsing_error() {
    let t = parse_toml("k = @nonsense");
    assert!(matches!(t, Err(TomlError::ParsingError)));
    let t = parse_toml("k =");
    assert!(matches!(t, Err(TomlError::ParsingError)));
}

#[test]
fn comment_skipping() {
    let text = "# a comment with = and [ and \" inside\nk = 1\n  # another\n";
    let doc = parse_toml(text).unwrap();
    assert_eq!(doc.len(), 1);
    match get(&doc, "k") {
        TomlType::Integer(v) => assert_eq!(*v, 1),
        other => panic!("expected integer, got {:?}", other),
    }
}

#[test]
fn empty_document() {
    let doc = parse_toml("").unwrap();
    assert_eq!(doc.len(), 0);
    let doc = parse_toml("   \n\n  ").unwrap();
    assert_eq!(doc.len(), 0);
}

#[test]
fn multiline_value_spans_lines_in_arrays() {
    let text = "k = [1,\n2]\nm = 3";
    let doc = parse_toml(text).unwrap();
    match get(&doc, "k") {
        TomlType::Array(items) => assert_eq!(items.len(), 2),
        other => panic!("expected array, got {:?}", other),
    }
    match get(&doc, "m") {
        TomlType::Integer(v) => assert_eq!(*v, 3),
        other => panic!("expected integer, got {:?}", other),
    }
}

#[test]
fn toml_test_wrong_templates() {
    // structurally broken documents, each of which must fail to parse
    let broken = [
        "k = \"abc",
        "no equals sign here",
        "[section\nk = 1",
        "k = [1, 2",
        "k = {a = 1",
        "k = 1\nk = 2",
    ];
    for text in broken {
        let t = parse_toml(text);
        println!("{t:?}");
        assert!(t.is_err());
    }
}

#[test]
fn toml_test_string_templates() {
    let content = "t1 = \"\"\nt2 = \"1\"\nt3 = \"test\"\nt4 = \"\"\"\n\ntest\n\n\"\"\"\nt5 = \"\"\"test\"\"\"\n";
    let toml = parse_toml(content).unwrap();

    let TomlType::String(t) = get(&toml, "t1") else {
        return assert!(false);
    };
    assert_eq!("", t);

    let TomlType::String(t) = get(&toml, "t2") else {
        return assert!(false);
    };
    assert_eq!("1", t);

    let TomlType::String(t) = get(&toml, "t3") else {
        return assert!(false);
    };
    assert_eq!("test", t);

    let TomlType::String(t) = get(&toml, "t4") else {
        return assert!(false);
    };
    assert_eq!("\ntest\n", t);

    let TomlType::String(t) = get(&toml, "t5") else {
        return assert!(false);
    };
    assert_eq!("test", t);
}

#[test]
fn conversions_preserve_characters() {
    // chars_of and string_from_chars must transport the exact characters
    let v = cardtoml::chars_of("héllo, wörld");
    assert_eq!(v.len(), 12);
    assert_eq!(v[1], 'é');
    let s = cardtoml::string_from_chars(&v);
    assert_eq!(s, "héllo, wörld");
    assert!(cardtoml::str_eq(&s, "héllo, wörld"));
    assert!(!cardtoml::str_eq(&s, "hello, world"));
}

#[test]
fn pair_matcher_tracks_balance() {
    let mut pm = cardtoml::PairMatcher::new();
    assert!(pm.valid());
    assert!(pm.add_char('[').is_ok());
    assert!(!pm.valid());
    assert!(pm.add_char('"').is_ok());
    // inside a quote a bracket is literal
    assert!(pm.add_char('}').is_ok());
    assert!(pm.add_char('"').is_ok());
    assert!(pm.add_char(']').is_ok());
    assert!(pm.valid());
    // a closer that matches nothing is malformed
    let mut pm2 = cardtoml::PairMatcher::new();
    assert!(pm2.add_char('}').is_err());
}

#[test]
fn iterator_yields_entries_and_sections() {
    let mut iter = cardtoml::TomlIterator::new("a = 1\n[s]\nb = 2\n");
    match iter.next() {
        Some(Ok(cardtoml::TomlItem::KeyValue(k, v))) => {
            assert_eq!(k, "a");
            assert_eq!(v, "1");
        },
        other => panic!("expected entry, got {:?}", other),
    }
    match iter.next() {
        Some(Ok(cardtoml::TomlItem::Section(name, body))) => {
            assert_eq!(name, "s");
            assert_eq!(body, "b = 2\n");
        },
        other => panic!("expected section, got {:?}", other),
    }
    assert!(iter.next().is_none());
}

#[test]
fn serialized_documents_reparse_deep_equal() {
    // idempotence of structure: re-serializing a parsed document and parsing
    // the text again yields a deep-equal document
    let text = "title = \"aria\"\ncount = 42\nweight = -3.25\nempty = \"\"\nlow = -9223372036854775808\n";
    let doc = parse_toml(text).unwrap();
    let again = cardtoml::serialize_document(&doc);
    let doc2 = parse_toml(&again).unwrap();
    assert_eq!(doc, doc2);
}

#[test]
fn serializer_renders_compound_values() {
    let doc = parse_toml("k = [1, 2, [3, 4]]\nt = { a = 1, b = \"x\" }\n").unwrap();
    let text = cardtoml::serialize_document(&doc);
    assert_eq!(text, "k = [1, 2, [3, 4]]\nt = {a = 1, b = \"x\"}\n");
}

#[test]
fn error_messages() {
    assert_eq!(
        TomlError::InvalidToml.message(),
        "Error in TOML: wrong syntax or unimplemented features."
    );
    assert_eq!(
        TomlError::ParsingError.message(),
        "Error in TOML: wrong syntax or unimplemented features."
    );
}

#[test]
fn value_grammar_direct() {
    match parse_toml_value(&chars_of("\"hi\"")) {
        Ok(TomlType::String(s)) => assert_eq!(s, "hi"),
        other => panic!("expected string, got {:?}", other),
    }
    match parse_toml_value(&chars_of("-7")) {
        Ok(TomlType::Integer(v)) => assert_eq!(v, -7),
        other => panic!("expected integer, got {:?}", other),
    }
    assert!(parse_toml_value(&chars_of("\"")).is_err());
    assert!(parse_toml_value(&chars_of("")).is_err());
}

#[test]
fn multiline_reconstruction_direct() {
    // the interior of """\nabc \\\ndef\n""" joins into one line
    let interior = chars_of("\nabc \\\ndef\n");
    let joined = string_from_chars(&parse_multiline_str(&interior));
    assert_eq!(joined, "abc def");
}

#[test]
fn table_entry_direct() {
    let entry = parse_toml_table_entry(TomlItem::KeyValue("k".to_string(), "5".to_string()));
    match entry {
        Ok((key, TomlType::Integer(5))) => assert_eq!(key, "k"),
        other => panic!("expected integer entry, got {:?}", other),
    }
    let section = parse_toml_table_entry(TomlItem::Section("s".to_string(), "a = 1\n".to_string()));
    match section {
        Ok((name, TomlType::Table(entries))) => {
            assert_eq!(name, "s");
            assert_eq!(entries.len(), 1);
        },
        other => panic!("expected section table, got {:?}", other),
    }
}
