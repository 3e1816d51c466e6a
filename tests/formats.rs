use stilts::{
    CommaSeparatedParser, CommaSeparatedSerializer, FormatError, JsonParser, JsonSerializer,
    SpaceSeparatedParser, SpaceSeparatedSerializer, TagParser, TagSerializer,
};

fn owned(v: &[&str]) -> Vec<String> {
    v.iter().map(|s| s.to_string()).collect()
}

#[test]
fn test_space_separated() {
    let parser = SpaceSeparatedParser::new();
    let tags = parser.parse("tag1 tag2 tag3").unwrap();
    assert_eq!(tags, vec!["tag1", "tag2", "tag3"]);
}

#[test]
fn test_comma_separated() {
    let parser = CommaSeparatedParser::new();
    let tags = parser.parse("tag1,tag2,tag3").unwrap();
    assert_eq!(tags, vec!["tag1", "tag2", "tag3"]);
}

#[test]
fn test_json() {
    let parser = JsonParser::new();
    let tags = parser.parse(r#"["tag1","tag2","tag3"]"#).unwrap();
    assert_eq!(tags, vec!["tag1", "tag2", "tag3"]);
}

#[test]
fn space_parser_collapses_runs_of_whitespace() {
    let tags = SpaceSeparatedParser::new().parse("  a\t\tb \n c  ").unwrap();
    assert_eq!(tags, vec!["a", "b", "c"]);
    assert_eq!(SpaceSeparatedParser::new().parse("   ").unwrap(), Vec::<String>::new());
}

#[test]
fn comma_parser_trims_and_drops_empty_pieces() {
    let tags = CommaSeparatedParser::new().parse(" a , b,,  c ,").unwrap();
    assert_eq!(tags, vec!["a", "b", "c"]);
    assert_eq!(CommaSeparatedParser::new().parse("").unwrap(), Vec::<String>::new());
}

#[test]
fn json_parser_rejects_non_arrays() {
    assert_eq!(JsonParser::new().parse("tag1 tag2"), Err(FormatError::InvalidInput));
    assert_eq!(JsonParser::new().parse(r#"[1, 2]"#), Err(FormatError::InvalidInput));
    assert_eq!(JsonParser::new().parse("[]").unwrap(), Vec::<String>::new());
}

#[test]
fn serializers_write_each_format() {
    let tags = owned(&["a", "b c", "d"]);
    assert_eq!(SpaceSeparatedSerializer::new().serialize(&tags).unwrap(), "a b c d");
    assert_eq!(CommaSeparatedSerializer::new().serialize(&tags).unwrap(), "a,b c,d");
    assert_eq!(JsonSerializer::new().serialize(&tags).unwrap(), r#"["a","b c","d"]"#);
    assert_eq!(SpaceSeparatedSerializer::new().serialize(&[]).unwrap(), "");
}

#[test]
fn json_serializer_and_parser_agree() {
    let tags = owned(&["quote\"d", "back\\slash", "caf\u{e9}"]);
    let text = JsonSerializer::new().serialize(&tags).unwrap();
    assert_eq!(JsonParser::new().parse(&text).unwrap(), tags);
}

#[test]
fn format_names() {
    assert_eq!(SpaceSeparatedParser::new().format_name(), "space-separated");
    assert_eq!(CommaSeparatedParser::new().format_name(), "comma-separated");
    assert_eq!(JsonParser::new().format_name(), "json");
    assert_eq!(SpaceSeparatedSerializer::new().format_name(), "space-separated");
    assert_eq!(CommaSeparatedSerializer::new().format_name(), "comma-separated");
    assert_eq!(JsonSerializer::new().format_name(), "json");
}

#[test]
fn parsers_handle_unicode_whitespace() {
    let tags = SpaceSeparatedParser::new().parse("\u{3000}caf\u{e9}\u{a0}na\u{ef}ve\u{2003}x").unwrap();
    assert_eq!(tags, vec!["caf\u{e9}", "na\u{ef}ve", "x"]);
    let tags = CommaSeparatedParser::new().parse("\u{3000} \u{65e5}\u{672c} ,\u{85}b\u{2028},\u{a0}").unwrap();
    assert_eq!(tags, vec!["\u{65e5}\u{672c}", "b"]);
    let joined = CommaSeparatedSerializer::new().serialize(&owned(&["\u{e9}", "", "z"])).unwrap();
    assert_eq!(joined, "\u{e9},,z");
}
