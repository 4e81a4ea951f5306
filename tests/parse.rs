use vmf_vmt::grammar::ParseError;
use vmf_vmt::model::Valve;
use vmf_vmt::parse::parse_vmf_vmt;
use vmf_vmt::serialize::build_vmf_vmt;

fn class(name: &str, data: Vec<Valve>) -> Valve {
    Valve::Class { class_name: name.to_string(), data }
}

fn prop(key: &str, value: &str) -> Valve {
    Valve::PropertyValue(key.to_string(), value.to_string())
}

#[test]
fn minimal_document() {
    let (rest, doc) = parse_vmf_vmt("X{}").unwrap();
    assert_eq!(rest, "");
    assert_eq!(doc, vec![class("X", vec![])]);
}

#[test]
fn empty_input_is_rejected() {
    assert_eq!(parse_vmf_vmt(""), Err(ParseError::EmptyInput));
    assert_eq!(parse_vmf_vmt("   \n\t"), Err(ParseError::EmptyInput));
}

#[test]
fn unmatched_brace_is_rejected() {
    assert_eq!(parse_vmf_vmt("X{"), Err(ParseError::Syntax { offset: 2 }));
}

#[test]
fn missing_value_is_rejected() {
    assert_eq!(parse_vmf_vmt("X{ a }"), Err(ParseError::Syntax { offset: 3 }));
}

#[test]
fn unterminated_quote_is_rejected() {
    assert_eq!(parse_vmf_vmt("X{ \"a }"), Err(ParseError::Syntax { offset: 3 }));
}

#[test]
fn top_level_entry_is_rejected() {
    assert_eq!(parse_vmf_vmt("\"a\" \"b\""), Err(ParseError::Syntax { offset: 4 }));
}

#[test]
fn quoted_and_unquoted_are_equivalent() {
    let quoted = parse_vmf_vmt("\"Foo\" { \"a\" \"b\" }").unwrap();
    let bare = parse_vmf_vmt("Foo { a b }").unwrap();
    assert_eq!(quoted, bare);
    assert_eq!(bare.1, vec![class("Foo", vec![prop("a", "b")])]);
}

#[test]
fn whitespace_between_tokens_is_ignored() {
    let tight = parse_vmf_vmt("A{B{\"k\"\"v\"}c d}").unwrap();
    let loose = parse_vmf_vmt(" \r\n A \t{\n\n B {  \"k\"\t\t\"v\" \n}\r\n c   d \n}\n\t ").unwrap();
    assert_eq!(tight.1, loose.1);
    assert_eq!(
        tight.1,
        vec![class("A", vec![class("B", vec![prop("k", "v")]), prop("c", "d")])]
    );
}

#[test]
fn nested_round_trip() {
    let (_, doc) = parse_vmf_vmt("A { B { \"k\" \"v\" } }").unwrap();
    let text = build_vmf_vmt(doc);
    let (rest, again) = parse_vmf_vmt(&text).unwrap();
    assert_eq!(rest, "");
    assert_eq!(again, vec![class("A", vec![class("B", vec![prop("k", "v")])])]);
}

#[test]
fn build_after_parse_is_stable() {
    let source = "world { \"id\" \"1\" solid{side{plane \"(0 0 0)\"}} } entity{ classname light }";
    let first = build_vmf_vmt(parse_vmf_vmt(source).unwrap().1);
    let second = build_vmf_vmt(parse_vmf_vmt(&first).unwrap().1);
    assert_eq!(first, second);
}

#[test]
fn round_trip_of_built_document() {
    let doc = vec![
        class("one", vec![prop("a b", "c d"), class("two", vec![])]),
        class("three", vec![prop("", "x")]),
    ];
    let text = build_vmf_vmt(doc);
    let (rest, back) = parse_vmf_vmt(&text).unwrap();
    assert_eq!(rest, "");
    assert_eq!(build_vmf_vmt(back), text);
}

#[test]
fn trailing_text_is_left_over() {
    let (rest, doc) = parse_vmf_vmt("X{} rest").unwrap();
    assert_eq!(rest, "rest");
    assert_eq!(doc, vec![class("X", vec![])]);
}

#[test]
fn several_top_level_blocks() {
    let (rest, doc) = parse_vmf_vmt("A{}\nB{ k v }\n").unwrap();
    assert_eq!(rest, "");
    assert_eq!(doc, vec![class("A", vec![]), class("B", vec![prop("k", "v")])]);
}

#[test]
fn quoted_block_name_and_empty_strings() {
    let (_, doc) = parse_vmf_vmt("\"a b\" { \"\" \"\" }").unwrap();
    assert_eq!(doc, vec![class("a b", vec![prop("", "")])]);
}

#[test]
fn offsets_count_chars() {
    assert_eq!(parse_vmf_vmt("é{"), Err(ParseError::Syntax { offset: 2 }));
    let (_, doc) = parse_vmf_vmt("é{ ключ значение }").unwrap();
    assert_eq!(doc, vec![class("é", vec![prop("ключ", "значение")])]);
}

#[test]
fn adjacent_tokens_split_at_quotes() {
    let (rest, doc) = parse_vmf_vmt("X{a\"b\"\"c\"d}").unwrap();
    assert_eq!(rest, "");
    assert_eq!(doc, vec![class("X", vec![prop("a", "b"), prop("c", "d")])]);
}

#[test]
fn string_where_none_can_start() {
    assert_eq!(parse_vmf_vmt("{}"), Err(ParseError::Syntax { offset: 0 }));
    assert_eq!(parse_vmf_vmt("}"), Err(ParseError::Syntax { offset: 0 }));
}
