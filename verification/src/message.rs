//! Human-readable messages for the errors.
use vstd::prelude::*;

use crate::error::{
    EntryParseError, GroupHeaderParseError, GroupParseError, LinedError, ValueBoolError,
    ValueStringError,
};

verus! {

/// Values that can say what they are in words.
pub trait Describe {
    spec fn spec_describe(&self) -> Seq<char>;

    fn describe(&self) -> (s: String)
        ensures
            s@ == self.spec_describe(),
    ;
}

/// `a` followed by `b`.
fn join(a: &str, b: &str) -> (s: String)
    ensures
        s@ == a@ + b@,
{
    let mut s = a.to_owned();
    s.append(b);
    s
}

impl Describe for GroupHeaderParseError {
    open spec fn spec_describe(&self) -> Seq<char> {
        match self {
            GroupHeaderParseError::InvalidStart => "Line does not start with '['"@,
            GroupHeaderParseError::InvalidEnd => "Line does not end with ']'"@,
            GroupHeaderParseError::NotASCII => "Group Name does not consist of ASCII"@,
            GroupHeaderParseError::ContainsBrackets => "Group Name contains brackets"@,
            GroupHeaderParseError::ContainsControlCharacters => "Group Name contains ASCII control characters"@,
        }
    }

    fn describe(&self) -> (s: String) {
        match self {
            GroupHeaderParseError::InvalidStart => "Line does not start with '['".to_owned(),
            GroupHeaderParseError::InvalidEnd => "Line does not end with ']'".to_owned(),
            GroupHeaderParseError::NotASCII => "Group Name does not consist of ASCII".to_owned(),
            GroupHeaderParseError::ContainsBrackets => "Group Name contains brackets".to_owned(),
            GroupHeaderParseError::ContainsControlCharacters => "Group Name contains ASCII control characters".to_owned(),
        }
    }
}

impl Describe for EntryParseError {
    open spec fn spec_describe(&self) -> Seq<char> {
        match self {
            EntryParseError::Empty => "Line is empty."@,
            EntryParseError::Comment => "Line contains a comment."@,
            EntryParseError::Header => "Line contains a Group Header."@,
            EntryParseError::NoEquals => "Line does not contain a '='."@,
            EntryParseError::InvalidKey => "Entry Key contains invalid characters."@,
            EntryParseError::EscapedIntoNonExistant => "Entry Value escapes end of line, but there is no next line"@,
            EntryParseError::EscapedIntoHeader => "Entry Value escapes end of line, but next line is a header"@,
        }
    }

    fn describe(&self) -> (s: String) {
        match self {
            EntryParseError::Empty => "Line is empty.".to_owned(),
            EntryParseError::Comment => "Line contains a comment.".to_owned(),
            EntryParseError::Header => "Line contains a Group Header.".to_owned(),
            EntryParseError::NoEquals => "Line does not contain a '='.".to_owned(),
            EntryParseError::InvalidKey => "Entry Key contains invalid characters.".to_owned(),
            EntryParseError::EscapedIntoNonExistant => "Entry Value escapes end of line, but there is no next line".to_owned(),
            EntryParseError::EscapedIntoHeader => "Entry Value escapes end of line, but next line is a header".to_owned(),
        }
    }
}

impl Describe for GroupParseError {
    open spec fn spec_describe(&self) -> Seq<char> {
        "DesktopEntry failed to parse. "@ + match self {
            GroupParseError::Empty => "String is empty."@,
            GroupParseError::NoHeader => "String does not contain Group Header."@,
            GroupParseError::HeaderError(err) => "Invalid Group Header. Reason: "@
                + err.spec_describe() + "."@,
            GroupParseError::EntryError(err) => "Invalid Entry pair. Reason: "@
                + err.spec_describe() + "."@,
        }
    }

    fn describe(&self) -> (s: String) {
        let reason = match self {
            GroupParseError::Empty => "String is empty.".to_owned(),
            GroupParseError::NoHeader => "String does not contain Group Header.".to_owned(),
            GroupParseError::HeaderError(err) => {
                let inner = join("Invalid Group Header. Reason: ", err.describe().as_str());
                join(inner.as_str(), ".")
            },
            GroupParseError::EntryError(err) => {
                let inner = join("Invalid Entry pair. Reason: ", err.describe().as_str());
                join(inner.as_str(), ".")
            },
        };
        join("DesktopEntry failed to parse. ", reason.as_str())
    }
}

impl Describe for ValueStringError {
    open spec fn spec_describe(&self) -> Seq<char> {
        match self {
            ValueStringError::NotASCII => "Value cannot be converted into a string, because it is not valid ASCII"@,
            ValueStringError::ControlCharacters => "Value cannot be converted into a string, because it contains control characters"@,
        }
    }

    fn describe(&self) -> (s: String) {
        match self {
            ValueStringError::NotASCII => "Value cannot be converted into a string, because it is not valid ASCII".to_owned(),
            ValueStringError::ControlCharacters => "Value cannot be converted into a string, because it contains control characters".to_owned(),
        }
    }
}

impl Describe for ValueBoolError {
    open spec fn spec_describe(&self) -> Seq<char> {
        "Value cannot be converted into a boolean, because it is not 'true' or 'false'"@
    }

    fn describe(&self) -> (s: String) {
        "Value cannot be converted into a boolean, because it is not 'true' or 'false'".to_owned()
    }
}

/// The decimal digit `d`.
pub open spec fn digit(d: nat) -> char {
    seq!['0', '1', '2', '3', '4', '5', '6', '7', '8', '9'][d as int]
}

/// `n` written in decimal.
pub open spec fn decimal(n: nat) -> Seq<char>
    decreases n,
{
    if n < 10 {
        seq![digit(n)]
    } else {
        decimal(n / 10).push(digit(n % 10))
    }
}

fn digit_char(d: usize) -> (c: char)
    requires
        d < 10,
    ensures
        c == digit(d as nat),
{
    let digits = ['0', '1', '2', '3', '4', '5', '6', '7', '8', '9'];
    assert(digits@ =~= seq!['0', '1', '2', '3', '4', '5', '6', '7', '8', '9']);
    digits[d]
}

/// Appends `n` in decimal to `out`.
fn push_decimal(out: &mut Vec<char>, n: usize)
    ensures
        final(out)@ == old(out)@ + decimal(n as nat),
    decreases n,
{
    if n >= 10 {
        push_decimal(out, n / 10);
    }
    out.push(digit_char(n % 10));
    if n >= 10 {
        assert(out@ =~= old(out)@ + decimal(n as nat));
    } else {
        assert(out@ =~= old(out)@ + decimal(n as nat));
    }
}

impl<E: Describe> Describe for LinedError<E> {
    open spec fn spec_describe(&self) -> Seq<char> {
        "Line "@ + decimal(self.line_nr as nat) + ": "@ + self.error.spec_describe()
    }

    fn describe(&self) -> (s: String) {
        let mut number: Vec<char> = Vec::new();
        push_decimal(&mut number, self.line_nr);
        assert(number@ =~= decimal(self.line_nr as nat));
        let number = crate::text::string_of(&number, 0, number.len());
        assert(number@ =~= decimal(self.line_nr as nat));
        let head = join("Line ", number.as_str());
        let head = join(head.as_str(), ": ");
        join(head.as_str(), self.error.describe().as_str())
    }
}

} // verus!
