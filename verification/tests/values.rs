use deentry::{
    DesktopEntryGroup, DesktopEntryGroupEntry, EntryValue, ValueBoolError, ValueStringError,
};

fn value(s: &str) -> EntryValue {
    EntryValue { content: s.to_string() }
}

#[test]
fn boolean_values() {
    assert_eq!(value("true").as_boolean(), Ok(true));
    assert_eq!(value("false").as_boolean(), Ok(false));
    assert_eq!(value("  true \t").as_boolean(), Ok(true));
    assert_eq!(value("\u{3000}false\u{85}").as_boolean(), Ok(false));
    assert_eq!(value("True").as_boolean(), Err(ValueBoolError::NotABoolean));
    assert_eq!(value("1").as_boolean(), Err(ValueBoolError::NotABoolean));
    assert_eq!(value("").as_boolean(), Err(ValueBoolError::NotABoolean));
    assert_eq!(value("tru e").as_boolean(), Err(ValueBoolError::NotABoolean));
}

#[test]
fn string_values() {
    assert_eq!(value("  hello world ").as_string(), Ok("hello world".to_string()));
    assert_eq!(value("").as_string(), Ok(String::new()));
    assert_eq!(value("héllo").as_string(), Err(ValueStringError::NotASCII));
    assert_eq!(value("a\u{7}b").as_string(), Err(ValueStringError::ControlCharacters));
    assert_eq!(value("a\u{7f}").as_string(), Err(ValueStringError::ControlCharacters));
    // Whitespace at the ends is not a control character once trimmed.
    assert_eq!(value("\tabc\t").as_string(), Ok("abc".to_string()));
    // ASCII is checked before control characters.
    assert_eq!(value("\u{1}é").as_string(), Err(ValueStringError::NotASCII));
}

#[test]
fn locale_string_values() {
    assert_eq!(value("  héllo wörld\u{2003}").as_localestring(), "héllo wörld");
    assert_eq!(value(" \u{a0} ").as_localestring(), "");
    assert_eq!(value("a\u{7}b").as_localestring(), "a\u{7}b");
}

#[test]
fn string_value_is_trimmed_locale_string() {
    for s in ["  abc  ", "x", "", " Exec=/usr/bin/x "] {
        assert_eq!(value(s).as_string().unwrap(), value(s).as_localestring());
    }
}

fn group() -> DesktopEntryGroup {
    DesktopEntryGroup {
        group_name: "Desktop Entry".to_string(),
        entries: vec![
            DesktopEntryGroupEntry {
                locale: None,
                key: "Name".to_string(),
                value: value("First"),
            },
            DesktopEntryGroupEntry {
                locale: Some("de".to_string()),
                key: "Name".to_string(),
                value: value("Zweiter"),
            },
            DesktopEntryGroupEntry {
                locale: None,
                key: "Exec".to_string(),
                value: value("/usr/bin/app"),
            },
        ],
    }
}

#[test]
fn get_finds_first_entry_with_key() {
    let g = group();
    assert_eq!(g.get("Name").unwrap().value.content, "First");
    assert_eq!(g.get("Exec").unwrap().value.content, "/usr/bin/app");
    assert!(g.get("Icon").is_none());
    assert!(g.get("name").is_none());
    assert!(g.get("").is_none());
}

#[test]
fn contains_agrees_with_get() {
    let g = group();
    for key in ["Name", "Exec", "Icon", "", "Name[de]"] {
        assert_eq!(g.contains(key), g.get(key).is_some());
    }
    assert!(g.contains("Name"));
    assert!(!g.contains("Icon"));
}
