use deentry::{
    Describe, EntryParseError, GroupHeaderParseError, GroupParseError, LinedError,
    ValueBoolError, ValueStringError,
};

#[test]
fn at_line_keeps_error() {
    let e = GroupParseError::NoHeader.at_line(7);
    assert_eq!(e, LinedError { line_nr: 7, error: GroupParseError::NoHeader });
    let e = GroupHeaderParseError::InvalidEnd.at_line(0);
    assert_eq!(e.line_nr, 0);
    assert_eq!(e.error, GroupHeaderParseError::InvalidEnd);
    let e = EntryParseError::NoEquals.at_line(12);
    assert_eq!(e.line_nr, 12);
    assert_eq!(e.error, EntryParseError::NoEquals);
}

#[test]
fn empty_lines_are_blank_or_comment() {
    assert!(EntryParseError::Empty.is_empty_line());
    assert!(EntryParseError::Comment.is_empty_line());
    assert!(!EntryParseError::Header.is_empty_line());
    assert!(!EntryParseError::NoEquals.is_empty_line());
    assert!(!EntryParseError::InvalidKey.is_empty_line());
    assert!(!EntryParseError::EscapedIntoNonExistant.is_empty_line());
    assert!(!EntryParseError::EscapedIntoHeader.is_empty_line());
}

#[test]
fn messages() {
    assert_eq!(
        GroupParseError::Empty.describe(),
        "DesktopEntry failed to parse. String is empty."
    );
    assert_eq!(
        GroupParseError::NoHeader.describe(),
        "DesktopEntry failed to parse. String does not contain Group Header."
    );
    assert_eq!(
        GroupParseError::HeaderError(GroupHeaderParseError::InvalidStart).describe(),
        "DesktopEntry failed to parse. Invalid Group Header. Reason: Line does not start with '['."
    );
    assert_eq!(
        GroupParseError::EntryError(EntryParseError::InvalidKey).describe(),
        "DesktopEntry failed to parse. Invalid Entry pair. Reason: Entry Key contains invalid characters.."
    );
    assert_eq!(GroupHeaderParseError::InvalidEnd.describe(), "Line does not end with ']'");
    assert_eq!(GroupHeaderParseError::NotASCII.describe(), "Group Name does not consist of ASCII");
    assert_eq!(GroupHeaderParseError::ContainsBrackets.describe(), "Group Name contains brackets");
    assert_eq!(
        GroupHeaderParseError::ContainsControlCharacters.describe(),
        "Group Name contains ASCII control characters"
    );
    assert_eq!(EntryParseError::Empty.describe(), "Line is empty.");
    assert_eq!(EntryParseError::Comment.describe(), "Line contains a comment.");
    assert_eq!(EntryParseError::Header.describe(), "Line contains a Group Header.");
    assert_eq!(EntryParseError::NoEquals.describe(), "Line does not contain a '='.");
    assert_eq!(
        EntryParseError::EscapedIntoNonExistant.describe(),
        "Entry Value escapes end of line, but there is no next line"
    );
    assert_eq!(
        EntryParseError::EscapedIntoHeader.describe(),
        "Entry Value escapes end of line, but next line is a header"
    );
    assert_eq!(
        ValueStringError::NotASCII.describe(),
        "Value cannot be converted into a string, because it is not valid ASCII"
    );
    assert_eq!(
        ValueStringError::ControlCharacters.describe(),
        "Value cannot be converted into a string, because it contains control characters"
    );
    assert_eq!(
        ValueBoolError::NotABoolean.describe(),
        "Value cannot be converted into a boolean, because it is not 'true' or 'false'"
    );
}

#[test]
fn lined_messages() {
    assert_eq!(
        GroupParseError::NoHeader.at_line(0).describe(),
        "Line 0: DesktopEntry failed to parse. String does not contain Group Header."
    );
    assert_eq!(
        EntryParseError::NoEquals.at_line(1234567).describe(),
        "Line 1234567: Line does not contain a '='."
    );
    assert_eq!(
        GroupHeaderParseError::NotASCII.at_line(10).describe(),
        "Line 10: Group Name does not consist of ASCII"
    );
    assert_eq!(
        LinedError { line_nr: usize::MAX, error: ValueBoolError::NotABoolean }.describe(),
        format!("Line {}: Value cannot be converted into a boolean, because it is not 'true' or 'false'", usize::MAX)
    );
}
