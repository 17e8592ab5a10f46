use deentry::{
    DesktopEntry, DesktopEntryGroup, DesktopEntryGroupEntry, EntryParseError, EntryValue,
    GroupHeaderParseError, GroupParseError, Lines,
};

fn parse(s: &str) -> Result<DesktopEntry, deentry::LinedError<GroupParseError>> {
    DesktopEntry::try_from(s.to_string())
}

#[test]
fn reads_groups_and_entries() {
    let d = parse("[Desktop Entry]\nName=App\nName[de]=Anw\n# comment\n\nExec=/bin/app\n[Other]\nk=v\n")
        .unwrap();
    assert_eq!(d.groups.len(), 2);
    let g = &d.groups[0];
    assert_eq!(g.group_name, "Desktop Entry");
    assert_eq!(g.entries.len(), 3);
    assert_eq!(g.entries[0].key, "Name");
    assert_eq!(g.entries[0].locale, None);
    assert_eq!(g.entries[1].key, "Name");
    assert_eq!(g.entries[1].locale, Some("de".to_string()));
    assert_eq!(g.entries[1].value.content, "Anw");
    assert_eq!(g.entries[2].value.content, "/bin/app");
    assert_eq!(d.groups[1].group_name, "Other");
    assert_eq!(d.groups[1].entries[0].value.content, "v");
}

#[test]
fn carriage_returns_end_lines() {
    let d = parse("[A]\r\nk=v\r\nl = w \r\n").unwrap();
    assert_eq!(d.groups[0].group_name, "A");
    assert_eq!(d.groups[0].entries[0].value.content, "v");
    assert_eq!(d.groups[0].entries[1].value.content, "w ");
}

#[test]
fn errors_carry_line_numbers() {
    let e = parse("").unwrap_err();
    assert_eq!((e.error, e.line_nr), (GroupParseError::Empty, 0));
    let e = parse("\n# only a comment\n   \n").unwrap_err();
    assert_eq!((e.error, e.line_nr), (GroupParseError::Empty, 3));
    let e = parse("\n\nk=v").unwrap_err();
    assert_eq!((e.error, e.line_nr), (GroupParseError::NoHeader, 3));
    let e = parse("[A]\nk=v\n\nbad line\n").unwrap_err();
    assert_eq!((e.error, e.line_nr), (GroupParseError::EntryError(EntryParseError::NoEquals), 4));
    let e = parse("[A]\nk=v\n[B]\n[C\n").unwrap_err();
    assert_eq!((e.error, e.line_nr), (GroupParseError::NoHeader, 4));
    let e = parse("[A]\nk=v\n[B]]\n").unwrap_err();
    assert_eq!(
        (e.error, e.line_nr),
        (GroupParseError::HeaderError(GroupHeaderParseError::ContainsBrackets), 3)
    );
    let e = parse("[A]\nk=a\\\nb\\\n").unwrap_err();
    assert_eq!(
        (e.error, e.line_nr),
        (GroupParseError::EntryError(EntryParseError::EscapedIntoNonExistant), 3)
    );
    let e = parse("[A]\nk=a\\\n[B]\n").unwrap_err();
    assert_eq!(
        (e.error, e.line_nr),
        (GroupParseError::EntryError(EntryParseError::EscapedIntoHeader), 3)
    );
    let e = parse("[A]\nk[de=v\n").unwrap_err();
    assert_eq!((e.error, e.line_nr), (GroupParseError::EntryError(EntryParseError::InvalidKey), 2));
    let e = parse("[A]\nk]=v\n").unwrap_err();
    assert_eq!((e.error, e.line_nr), (GroupParseError::EntryError(EntryParseError::InvalidKey), 2));
    let e = parse("[A]\nx/é=v\n").unwrap_err();
    assert_eq!((e.error, e.line_nr), (GroupParseError::EntryError(EntryParseError::InvalidKey), 2));
    let e = parse("[A\u{1}]\n").unwrap_err();
    assert_eq!(
        (e.error, e.line_nr),
        (GroupParseError::HeaderError(GroupHeaderParseError::ContainsControlCharacters), 1)
    );
    let e = parse("[Ä]\n").unwrap_err();
    assert_eq!(
        (e.error, e.line_nr),
        (GroupParseError::HeaderError(GroupHeaderParseError::NotASCII), 1)
    );
}

#[test]
fn keys_with_categories() {
    let d = parse("[A]\nX-KDE/Some Thing=1\n").unwrap();
    assert_eq!(d.groups[0].entries[0].key, "X-KDE/Some Thing");
    let e = parse("[A]\nX_KDE/a=1\n").unwrap_err();
    assert_eq!(e.error, GroupParseError::EntryError(EntryParseError::InvalidKey));
}

#[test]
fn continued_values() {
    let d = parse("[A]\nk=one\\\n    two\\\nthree\nl=x\n").unwrap();
    assert_eq!(d.groups[0].entries[0].value.content, "one two three");
    assert_eq!(d.groups[0].entries[1].value.content, "x");
    // The continuation of a value is taken as it is, even where it looks like an entry.
    let d = parse("[A]\nk=one\\\n#two\n").unwrap();
    assert_eq!(d.groups[0].entries[0].value.content, "one #two");
}

#[test]
fn group_line_ranges() {
    let mut lines = Lines::new("\n# c\n[A]\nk=v\n\n[B]\n");
    let (g, range) = DesktopEntryGroup::from_lines(&mut lines, 10).unwrap();
    assert_eq!(g.group_name, "A");
    assert_eq!((range.start, range.end), (10, 15));
    let (g, range) = DesktopEntryGroup::from_lines(&mut lines, range.end).unwrap();
    assert_eq!(g.group_name, "B");
    assert_eq!((range.start, range.end), (15, 16));
    assert!(lines.is_empty());
    let e = DesktopEntryGroup::from_lines(&mut lines, 16).unwrap_err();
    assert_eq!((e.error, e.line_nr), (GroupParseError::Empty, 16));
}

#[test]
fn lines_split_like_str_lines() {
    for text in ["", "a", "a\n", "a\nb", "a\r\nb\r\n", "\n\n", "a\rb\n", "x\r", "\r\n\r\n"] {
        let mut lines = Lines::new(text);
        let mut got: Vec<String> = Vec::new();
        while !lines.is_empty() {
            got.push(lines.peek().iter().collect());
            lines.advance();
        }
        let expected: Vec<String> = text.lines().map(|l| l.to_string()).collect();
        assert_eq!(got, expected, "lines of {:?}", text);
    }
}

#[test]
fn entry_takes_its_lines() {
    let mut lines = Lines::new("a=b\\\nc\nnext=1\n");
    let mut line_nr = 5;
    let e = DesktopEntryGroupEntry::from_lines(&mut lines, &mut line_nr).unwrap();
    assert_eq!(e.value.content, "b c");
    assert_eq!(line_nr, 7);
    assert_eq!(lines.len(), 1);
    let mut lines = Lines::new("[Header]\nx=y");
    let mut line_nr = 0;
    let e = DesktopEntryGroupEntry::from_lines(&mut lines, &mut line_nr).unwrap_err();
    assert_eq!(e, EntryParseError::Header);
    assert_eq!(line_nr, 1);
    assert_eq!(lines.len(), 1);
}

fn entry(locale: Option<&str>, key: &str, value: &str) -> DesktopEntryGroupEntry {
    DesktopEntryGroupEntry {
        locale: locale.map(|l| l.to_string()),
        key: key.to_string(),
        value: EntryValue { content: value.to_string() },
    }
}

#[test]
fn written_file_reads_back() {
    let d = DesktopEntry {
        groups: vec![
            DesktopEntryGroup {
                group_name: "Desktop Entry".to_string(),
                entries: vec![
                    entry(None, "Name", "Cool App"),
                    entry(Some("de"), "Name", "Tolle Anwendung"),
                    entry(None, "X-Vendor/Odd Key", "a = b [c]"),
                    entry(None, "", "no key"),
                    entry(None, "Empty", ""),
                ],
            },
            DesktopEntryGroup { group_name: "Nothing here".to_string(), entries: vec![] },
            DesktopEntryGroup {
                group_name: "Last".to_string(),
                entries: vec![entry(Some("he_IL"), "food", "אני אוהב פיצה")],
            },
        ],
    };
    let text = d.to_string();
    let back = DesktopEntry::try_from(text).unwrap();
    assert_eq!(back.groups, d.groups);
}

#[test]
fn group_text_is_trimmed() {
    let g = DesktopEntryGroup {
        group_name: "G".to_string(),
        entries: vec![entry(None, "k", "v  ")],
    };
    assert_eq!(g.to_string(), "k=v");
    let g = DesktopEntryGroup { group_name: "G".to_string(), entries: vec![] };
    assert_eq!(g.to_string(), "");
    let d = DesktopEntry { groups: vec![g] };
    assert_eq!(d.to_string(), "[G]\n\n\n");
    assert_eq!(DesktopEntry { groups: vec![] }.to_string(), "");
}

#[test]
fn space_around_equals_is_ignored() {
    for line in ["Key=Value x", "Key =Value x", "Key= Value x", "Key \t=\u{2009} Value x"] {
        let mut lines = Lines::new(line);
        let e = DesktopEntryGroupEntry::from_lines(&mut lines, &mut 0).unwrap();
        assert_eq!(e.key, "Key");
        assert_eq!(e.value.content, "Value x");
    }
    for line in ["K*=v", "K* \t= v"] {
        let mut lines = Lines::new(line);
        let e = DesktopEntryGroupEntry::from_lines(&mut lines, &mut 0).unwrap_err();
        assert_eq!(e, EntryParseError::InvalidKey);
    }
}
