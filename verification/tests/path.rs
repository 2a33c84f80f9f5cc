use gudf::path::{append_index, append_key, build_path, parse_path, to_json_pointer, PathSegment};

#[test]
fn test_parse_simple_path() {
    assert_eq!(
        parse_path("a.b.c"),
        vec![
            PathSegment::Key("a".into()),
            PathSegment::Key("b".into()),
            PathSegment::Key("c".into()),
        ]
    );
}

#[test]
fn test_parse_array_index() {
    assert_eq!(
        parse_path("items[0].name"),
        vec![
            PathSegment::Key("items".into()),
            PathSegment::Index(0),
            PathSegment::Key("name".into()),
        ]
    );
}

#[test]
fn test_parse_bracket_quoted_key() {
    assert_eq!(
        parse_path(r#"obj["my.key"][0].name"#),
        vec![
            PathSegment::Key("obj".into()),
            PathSegment::Key("my.key".into()),
            PathSegment::Index(0),
            PathSegment::Key("name".into()),
        ]
    );
}

#[test]
fn test_parse_root_array() {
    assert_eq!(
        parse_path("[0]"),
        vec![PathSegment::Index(0)]
    );
}

#[test]
fn test_parse_multiple_indices() {
    assert_eq!(
        parse_path("matrix[0][1]"),
        vec![
            PathSegment::Key("matrix".into()),
            PathSegment::Index(0),
            PathSegment::Index(1),
        ]
    );
}

#[test]
fn test_to_json_pointer() {
    assert_eq!(to_json_pointer("items[0].name"), "/items/0/name");
    assert_eq!(to_json_pointer("a.b.c"), "/a/b/c");
    assert_eq!(to_json_pointer(""), "");
    assert_eq!(to_json_pointer("$"), "");
    assert_eq!(to_json_pointer(r#"obj["my.key"][0]"#), "/obj/my.key/0");
}

#[test]
fn test_to_json_pointer_rfc6901_escaping() {
    // Keys containing / or ~ need escaping per RFC 6901
    assert_eq!(to_json_pointer(r#"["a/b"]"#), "/a~1b");
    assert_eq!(to_json_pointer(r#"["a~b"]"#), "/a~0b");
}

#[test]
fn test_build_path() {
    let segs = vec![
        PathSegment::Key("obj".into()),
        PathSegment::Key("my.key".into()),
        PathSegment::Index(0),
        PathSegment::Key("name".into()),
    ];
    assert_eq!(build_path(&segs), r#"obj["my.key"][0].name"#);
}

#[test]
fn test_append_key_simple() {
    assert_eq!(append_key("obj", "name"), "obj.name");
    assert_eq!(append_key("", "name"), "name");
}

#[test]
fn test_append_key_dotted() {
    assert_eq!(append_key("obj", "my.key"), r#"obj["my.key"]"#);
}

#[test]
fn test_append_index() {
    assert_eq!(append_index("items", 0), "items[0]");
    assert_eq!(append_index("", 0), "[0]");
}

