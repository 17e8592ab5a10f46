use deentry::{
    group_header_from_line, DesktopEntry, DesktopEntryGroup, DesktopEntryGroupEntry,
    EntryParseError, GroupHeaderParseError, GroupParseError, Lines,
};

fn assert_entry_ok(text: &str, key: &str, value: &str, locale: Option<&str>) {
    let mut lines = Lines::new(text);
    let entry = DesktopEntryGroupEntry::from_lines(&mut lines, &mut 0);
    assert!(entry.is_ok(), "Entry formed from '{}' is Err", text);
    let entry = entry.unwrap();
    assert_eq!(&entry.key, &key);
    assert_eq!(&entry.value.content, &value);
    if let Some(locale) = locale {
        assert_eq!(entry.locale.unwrap(), locale);
    }
}

fn assert_entry_err(text: &str, err: EntryParseError) {
    let mut lines = Lines::new(text);
    let entry = DesktopEntryGroupEntry::from_lines(&mut lines, &mut 0);
    assert!(entry.is_err(), "Entry formed from '{}' is Ok", text);
    assert_eq!(entry.unwrap_err(), err);
}

#[test]
fn desktop_entry_group_entry_from_line() {
    assert_entry_err("", EntryParseError::Empty);
    assert_entry_err("   ", EntryParseError::Empty);

    assert_entry_err("#", EntryParseError::Comment);
    assert_entry_err("#test", EntryParseError::Comment);
    assert_entry_err(" #test", EntryParseError::Comment);

    assert_entry_err("test", EntryParseError::NoEquals);

    assert_entry_err("*=", EntryParseError::InvalidKey);
    assert_entry_err("a*=", EntryParseError::InvalidKey);
    assert_entry_err("*=c", EntryParseError::InvalidKey);

    assert_entry_err("a=b\\", EntryParseError::EscapedIntoNonExistant);
    assert_entry_err("a=b\\\n[", EntryParseError::EscapedIntoHeader);

    assert_entry_ok("a=b", "a", "b", None);
    assert_entry_ok("a=b\\\nc", "a", "b c", None);
    assert_entry_ok("a=b\\\nc\\\nd", "a", "b c d", None);

    assert_entry_ok("a = b", "a", "b", None);
    assert_entry_ok("abc=def", "abc", "def", None);
    assert_entry_ok("Exec=/usr/bin/lemurs", "Exec", "/usr/bin/lemurs", None);

    assert_entry_ok("Name[abc]=xyz", "Name", "xyz", Some("abc"));
}

fn assert_groupheader_ok(line: &str, value: &str) {
    let group_name = group_header_from_line(line);
    assert!(group_name.is_ok(), "Group header formed from '{}' is Err", line);
    let group_name = group_name.unwrap();
    assert_eq!(&group_name, &value);
}

fn assert_groupheader_err(line: &str, err: GroupHeaderParseError) {
    let group_name = group_header_from_line(line);
    assert!(group_name.is_err(), "Group header formed from '{}' is Ok", line);
    assert_eq!(group_name.unwrap_err(), err);
}

#[test]
fn grp_header_from_line() {
    assert_groupheader_err("", GroupHeaderParseError::InvalidStart);
    assert_groupheader_err("[", GroupHeaderParseError::InvalidEnd);

    assert_groupheader_err("[[]", GroupHeaderParseError::ContainsBrackets);
    assert_groupheader_err("[]]", GroupHeaderParseError::ContainsBrackets);

    assert_groupheader_err("[\x07]", GroupHeaderParseError::ContainsControlCharacters);
    assert_groupheader_err("[\0]", GroupHeaderParseError::ContainsControlCharacters);

    assert_groupheader_err("[🐒]", GroupHeaderParseError::NotASCII);

    assert_groupheader_ok("[]", "");
    assert_groupheader_ok("  []", "");
    assert_groupheader_ok("[]   ", "");

    assert_groupheader_ok("[abc]", "abc");
    assert_groupheader_ok("[abc xyz]", "abc xyz");
    assert_groupheader_ok("[Desktop Entry]", "Desktop Entry");
}

fn assert_group_ok(text: &str, name: &str, end: usize, expected_entries: &[(&str, &str)]) {
    let mut lines = Lines::new(text);
    let group = DesktopEntryGroup::from_lines(&mut lines, 0);
    assert!(group.is_ok(), "Group formed from '{}' is Err({err:?})", text, err = group.unwrap_err());

    let (group, line_range) = group.unwrap();

    assert_eq!(group.group_name, name);
    assert_eq!(line_range.end, end);
    assert_eq!(expected_entries.len(), group.entries.len());

    for i in 0..expected_entries.len() {
        assert_eq!(expected_entries[i].1, group.entries.get(i).unwrap().value.content);
    }
}

fn assert_group_err(text: &str, err: GroupParseError) {
    let mut lines = Lines::new(text);
    let group = DesktopEntryGroup::from_lines(&mut lines, 0);
    assert!(group.is_err(), "Group formed from '{}' is Ok", text);
    assert_eq!(group.unwrap_err().error, err);
}

#[test]
fn group_from_lines() {
    assert_group_err("", GroupParseError::Empty);
    assert_group_err("abc = xyz", GroupParseError::NoHeader);
    assert_group_err(
        "[[]",
        GroupParseError::HeaderError(GroupHeaderParseError::ContainsBrackets),
    );
    assert_group_err("[abc]\n*=", GroupParseError::EntryError(EntryParseError::InvalidKey));

    assert_group_ok("[]", "", 1, &[]);
    assert_group_ok("  []", "", 1, &[]);
    assert_group_ok("[]   ", "", 1, &[]);

    assert_group_ok("[abc]", "abc", 1, &[]);
    assert_group_ok("[abc xyz]", "abc xyz", 1, &[]);
    assert_group_ok("[Desktop Entry]", "Desktop Entry", 1, &[]);

    assert_group_ok(
        r#"
[Desktop Entry]
abc = xyz
Exec=/usr/bin/lemurs

[Other Group]
key = value
            "#,
        "Desktop Entry",
        5,
        &[("abc", "xyz"), ("Exec", "/usr/bin/lemurs")],
    );
}

#[test]
fn file_from_lines() {
    let desktop_entry_str = r#"
[Desktop Entry]
abc = xyz
Exec=/usr/bin/lemurs

[Other Group]
key = value
"#;
    let desktop_entry = DesktopEntry::try_from(String::from(desktop_entry_str));
    assert!(desktop_entry.is_ok(), "{err:?}", err = desktop_entry.unwrap_err());
}
