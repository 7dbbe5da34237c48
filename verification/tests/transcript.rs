use cch::transcript::{Event, Part, Role};

#[test]
fn parses_role_variants() {
    assert_eq!(Role::parse("user"), Role::User);
    assert_eq!(Role::parse("assistant"), Role::Assistant);
    assert_eq!(Role::parse("system"), Role::System);
    assert_eq!(Role::parse("summary"), Role::Other);
    assert_eq!(Role::parse(""), Role::Other);
}

#[test]
fn is_tool_only_requires_nonempty() {
    let ev = Event {
        role: Role::User,
        is_sidechain: false,
        timestamp: None,
        parts: vec![],
    };
    assert!(!ev.is_tool_only());
}

#[test]
fn is_tool_only_mixed_returns_false() {
    let ev = Event {
        role: Role::User,
        is_sidechain: false,
        timestamp: None,
        parts: vec![Part::ToolResult("r".into()), Part::Text("t".into())],
    };
    assert!(!ev.is_tool_only());
}

#[test]
fn as_search_text_excludes_tool_use() {
    let p = Part::ToolUse {
        name: "X".into(),
        summary: "file_path=/a".into(),
        file_path: Some("/a".into()),
    };
    assert_eq!(p.as_search_text(), "");
    let p = Part::Text("hello".into());
    assert_eq!(p.as_search_text(), "hello");
    let p = Part::ToolResult("res".into());
    assert_eq!(p.as_search_text(), "res");
}

#[test]
fn role_label_roundtrip() {
    assert_eq!(Role::User.label(), "user");
    assert_eq!(Role::Assistant.label(), "assistant");
    assert_eq!(Role::System.label(), "system");
    assert_eq!(Role::Other.label(), "other");
}
