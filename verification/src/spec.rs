//! What a desktop entry file means: the parser's behaviour as mathematical functions
//! over the lines of the text.
use vstd::prelude::*;

use crate::entry::{EntryModel, GroupModel};
use crate::error::{EntryParseError, GroupHeaderParseError, GroupParseError};
use crate::lines::spec_lines;
use crate::text::{
    all_ascii, any_control, ends_with, first_index_of, is_alnum_char, starts_with, trim,
    trim_end, trim_start,
};

verus! {

/// A character that may stand in the category part of a key.
pub open spec fn is_key_char(c: char) -> bool {
    is_alnum_char(c) || c == '-'
}

/// The name of a group header line: the text between the brackets of the trimmed line.
pub open spec fn spec_group_header(l: Seq<char>) -> Result<Seq<char>, GroupHeaderParseError> {
    let t = trim(l);
    if !starts_with(t, '[') {
        Err(GroupHeaderParseError::InvalidStart)
    } else if !ends_with(t, ']') {
        Err(GroupHeaderParseError::InvalidEnd)
    } else {
        let name = t.subrange(1, t.len() - 1);
        if !all_ascii(name) {
            Err(GroupHeaderParseError::NotASCII)
        } else if name.contains('[') || name.contains(']') {
            Err(GroupHeaderParseError::ContainsBrackets)
        } else if any_control(name) {
            Err(GroupHeaderParseError::ContainsControlCharacters)
        } else {
            Ok(name)
        }
    }
}

/// A key with a `[locale]` suffix split into the key and the locale; `None` when the
/// key ends with `]` but has no `[`.
pub open spec fn split_locale(k: Seq<char>) -> Option<(Seq<char>, Option<Seq<char>>)> {
    if ends_with(k, ']') {
        let lb = first_index_of(k, '[');
        if lb >= k.len() {
            None
        } else {
            Some((trim_end(k.take(lb)), Some(k.subrange(lb + 1, k.len() - 1))))
        }
    } else {
        Some((k, None))
    }
}

/// A key is valid when the part before its first `/` consists of ASCII letters, digits
/// and `-`, and what follows that `/` is ASCII.
pub open spec fn valid_key(key: Seq<char>) -> bool {
    let sl = first_index_of(key, '/');
    &&& sl < key.len() ==> all_ascii(key.skip(sl + 1))
    &&& forall|i: int| 0 <= i < sl ==> is_key_char(#[trigger] key[i])
}

/// The first line of an entry: its locale, key and (not yet continued) value.
pub open spec fn spec_entry_line(l: Seq<char>) -> Result<
    (Option<Seq<char>>, Seq<char>, Seq<char>),
    EntryParseError,
> {
    let t = trim_start(l);
    if t.len() == 0 {
        Err(EntryParseError::Empty)
    } else if t[0] == '#' {
        Err(EntryParseError::Comment)
    } else if t[0] == '[' {
        Err(EntryParseError::Header)
    } else {
        let eq = first_index_of(l, '=');
        if eq >= l.len() {
            Err(EntryParseError::NoEquals)
        } else {
            let value = trim_start(l.skip(eq + 1));
            match split_locale(trim_end(l.take(eq))) {
                None => Err(EntryParseError::InvalidKey),
                Some((key, locale)) => if valid_key(key) {
                    Ok((locale, key, value))
                } else {
                    Err(EntryParseError::InvalidKey)
                },
            }
        }
    }
}

/// A value that ends with `\` goes on in the next line: the `\` becomes a space and the
/// next line, without its leading whitespace, is appended. The result comes with the
/// number of lines of `rest` that were used.
pub open spec fn continue_value(v: Seq<char>, rest: Seq<Seq<char>>) -> (
    Result<Seq<char>, EntryParseError>,
    nat,
)
    decreases rest.len(),
{
    if !ends_with(v, '\\') {
        (Ok(v), 0)
    } else if rest.len() == 0 {
        (Err(EntryParseError::EscapedIntoNonExistant), 0)
    } else if starts_with(rest[0], '[') {
        (Err(EntryParseError::EscapedIntoHeader), 1)
    } else {
        let (r, n) = continue_value(
            v.drop_last().push(' ') + trim_start(rest[0]),
            rest.drop_first(),
        );
        (r, n + 1)
    }
}

/// One entry read from the start of `lines`, with the number of lines it took (those
/// of a failed attempt included).
pub open spec fn spec_parse_entry(lines: Seq<Seq<char>>) -> (
    Result<EntryModel, EntryParseError>,
    nat,
) {
    if lines.len() == 0 {
        (Err(EntryParseError::Empty), 0)
    } else {
        match spec_entry_line(lines[0]) {
            Err(e) => (Err(e), 1),
            Ok((locale, key, value)) => {
                let (r, n) = continue_value(value, lines.drop_first());
                match r {
                    Ok(v) => (Ok(EntryModel { locale, key, value: v }), n + 1),
                    Err(e) => (Err(e), n + 1),
                }
            },
        }
    }
}

pub proof fn lemma_continue_value_len(v: Seq<char>, rest: Seq<Seq<char>>)
    ensures
        continue_value(v, rest).1 <= rest.len(),
    decreases rest.len(),
{
    if ends_with(v, '\\') && rest.len() > 0 && !starts_with(rest[0], '[') {
        lemma_continue_value_len(v.drop_last().push(' ') + trim_start(rest[0]), rest.drop_first());
    }
}

pub proof fn lemma_continue_value_errors(v: Seq<char>, rest: Seq<Seq<char>>)
    ensures
        continue_value(v, rest).0 matches Err(e) ==> (e is EscapedIntoNonExistant
            || e is EscapedIntoHeader),
    decreases rest.len(),
{
    if ends_with(v, '\\') && rest.len() > 0 && !starts_with(rest[0], '[') {
        lemma_continue_value_errors(v.drop_last().push(' ') + trim_start(rest[0]), rest.drop_first());
    }
}

pub proof fn lemma_parse_entry_len(lines: Seq<Seq<char>>)
    ensures
        lines.len() == 0 ==> spec_parse_entry(lines).1 == 0,
        lines.len() > 0 ==> 1 <= spec_parse_entry(lines).1 <= lines.len(),
        spec_parse_entry(lines).0 matches Err(e) && (e is Header || e is Empty || e is Comment
            || e is NoEquals || e is InvalidKey) ==> spec_parse_entry(lines).1 == if lines.len()
            == 0 {
            0nat
        } else {
            1nat
        },
{
    if lines.len() > 0 {
        if let Ok((locale, key, value)) = spec_entry_line(lines[0]) {
            lemma_continue_value_len(value, lines.drop_first());
            lemma_continue_value_errors(value, lines.drop_first());
        }
    }
}

/// Places the result of reading later entries after `done`, entries that were read
/// from `c` lines.
pub open spec fn after(
    done: Seq<EntryModel>,
    c: nat,
    later: (Result<Seq<EntryModel>, (EntryParseError, nat)>, nat),
) -> (Result<Seq<EntryModel>, (EntryParseError, nat)>, nat) {
    (
        match later.0 {
            Ok(es) => Ok(done + es),
            Err((x, off)) => Err((x, off + c)),
        },
        later.1 + c,
    )
}

pub proof fn lemma_after_after(
    d1: Seq<EntryModel>,
    c1: nat,
    d2: Seq<EntryModel>,
    c2: nat,
    x: (Result<Seq<EntryModel>, (EntryParseError, nat)>, nat),
)
    ensures
        after(d1, c1, after(d2, c2, x)) == after(d1 + d2, c1 + c2, x),
{
    match x.0 {
        Ok(es) => {
            assert(d1 + (d2 + es) =~= (d1 + d2) + es);
        },
        Err(_) => {},
    }
}

pub proof fn lemma_after_nothing(x: (Result<Seq<EntryModel>, (EntryParseError, nat)>, nat))
    ensures
        after(seq![], 0, x) == x,
{
    match x.0 {
        Ok(es) => {
            assert(Seq::<EntryModel>::empty() + es =~= es);
        },
        Err(_) => {},
    }
}

/// The entries of a group, read from the line after its header up to the next header
/// or the end. The result is the entries, or the error of the first faulty entry with
/// the number of lines up to and including it; with it comes the number of lines taken
/// (on an error, those before the faulty entry).
pub open spec fn spec_parse_entries(rest: Seq<Seq<char>>) -> (
    Result<Seq<EntryModel>, (EntryParseError, nat)>,
    nat,
)
    decreases rest.len(),
{
    if rest.len() == 0 {
        (Ok(seq![]), 0)
    } else {
        let (er, c) = spec_parse_entry(rest);
        proof {
            lemma_parse_entry_len(rest);
        }
        match er {
            Ok(e) => after(seq![e], c, spec_parse_entries(rest.skip(c as int))),
            Err(x) => if x is Header {
                (Ok(seq![]), 0)
            } else if x.spec_is_empty_line() {
                after(seq![], c, spec_parse_entries(rest.skip(c as int)))
            } else {
                (Err((x, c)), 0)
            },
        }
    }
}

/// A line that holds nothing, or only a comment.
pub open spec fn is_blank(l: Seq<char>) -> bool {
    trim_start(l).len() == 0 || starts_with(trim_start(l), '#')
}

/// The number of blank lines at the start of `lines`.
pub open spec fn leading_blank(lines: Seq<Seq<char>>) -> nat
    decreases lines.len(),
{
    if lines.len() > 0 && is_blank(lines[0]) {
        1 + leading_blank(lines.drop_first())
    } else {
        0
    }
}

pub proof fn lemma_leading_blank(lines: Seq<Seq<char>>, i: int)
    requires
        0 <= i <= lines.len(),
        forall|j: int| 0 <= j < i ==> is_blank(#[trigger] lines[j]),
        i == lines.len() || !is_blank(lines[i]),
    ensures
        leading_blank(lines) == i,
    decreases i,
{
    if i > 0 {
        assert(is_blank(lines[0]));
        assert forall|j: int| 0 <= j < i - 1 implies is_blank(#[trigger] lines.drop_first()[j]) by {
            assert(lines.drop_first()[j] == lines[j + 1]);
        }
        lemma_leading_blank(lines.drop_first(), i - 1);
    }
}

pub proof fn lemma_leading_blank_len(lines: Seq<Seq<char>>)
    ensures
        leading_blank(lines) <= lines.len(),
    decreases lines.len(),
{
    if lines.len() > 0 && is_blank(lines[0]) {
        lemma_leading_blank_len(lines.drop_first());
    }
}

/// One group read from the start of `lines`, where the first of them is line number
/// `line_nr`: the group and the number of the line after it, or an error and the number
/// of the line it belongs to. With it comes the number of lines taken.
pub open spec fn spec_parse_group(lines: Seq<Seq<char>>, line_nr: int) -> (
    Result<(GroupModel, int), (GroupParseError, int)>,
    nat,
) {
    let k = leading_blank(lines);
    if k >= lines.len() {
        (Err((GroupParseError::Empty, line_nr + lines.len())), lines.len())
    } else {
        let header = trim(lines[k as int]);
        let cur = line_nr + k + 1;
        if !starts_with(header, '[') || !ends_with(header, ']') {
            (Err((GroupParseError::NoHeader, cur)), k + 1)
        } else {
            match spec_group_header(header) {
                Err(e) => (Err((GroupParseError::HeaderError(e), cur)), k + 1),
                Ok(name) => {
                    let (er, m) = spec_parse_entries(lines.skip((k + 1) as int));
                    match er {
                        Ok(es) => (Ok((GroupModel { name, entries: es }, cur + m)), k + 1 + m),
                        Err((x, off)) => (
                            Err((GroupParseError::EntryError(x), cur + off)),
                            k + 1 + m,
                        ),
                    }
                },
            }
        }
    }
}

pub proof fn lemma_parse_entries_len(rest: Seq<Seq<char>>)
    ensures
        spec_parse_entries(rest).1 <= rest.len(),
    decreases rest.len(),
{
    if rest.len() > 0 {
        let (er, c) = spec_parse_entry(rest);
        lemma_parse_entry_len(rest);
        lemma_parse_entries_len(rest.skip(c as int));
    }
}

/// Reading a group takes no more lines than there are, and a group that is read takes
/// at least its header line and ends at the line number it started at plus the lines it
/// took.
pub proof fn lemma_parse_group_len(lines: Seq<Seq<char>>, line_nr: int)
    ensures
        spec_parse_group(lines, line_nr).1 <= lines.len(),
        spec_parse_group(lines, line_nr).0 matches Ok((g, end)) ==> {
            &&& 1 <= spec_parse_group(lines, line_nr).1
            &&& end == line_nr + spec_parse_group(lines, line_nr).1
        },
{
    lemma_leading_blank_len(lines);
    let k = leading_blank(lines);
    if k < lines.len() {
        lemma_parse_entries_len(lines.skip((k + 1) as int));
    }
}

/// The groups that follow, read from `rest` (whose first line is number `line_nr`) up
/// to the end of the text.
pub open spec fn spec_parse_more_groups(rest: Seq<Seq<char>>, line_nr: int) -> Result<
    Seq<GroupModel>,
    (GroupParseError, int),
>
    decreases rest.len(),
{
    let (r, n) = spec_parse_group(rest, line_nr);
    proof {
        lemma_parse_group_len(rest, line_nr);
    }
    match r {
        Ok((g, end)) => match spec_parse_more_groups(rest.skip(n as int), end) {
            Ok(gs) => Ok(seq![g] + gs),
            Err(e) => Err(e),
        },
        Err((e, at)) => if e is Empty {
            Ok(seq![])
        } else {
            Err((e, at))
        },
    }
}

/// The groups of a text given as its lines: at least one group, then as many as follow.
pub open spec fn spec_parse_lines(lines: Seq<Seq<char>>) -> Result<
    Seq<GroupModel>,
    (GroupParseError, int),
> {
    let (r, n) = spec_parse_group(lines, 0);
    match r {
        Err(e) => Err(e),
        Ok((g, end)) => match spec_parse_more_groups(lines.skip(n as int), end) {
            Ok(gs) => Ok(seq![g] + gs),
            Err(e) => Err(e),
        },
    }
}

/// The groups of a desktop entry text, or the error that stops the reading with the
/// number of its line.
pub open spec fn spec_parse(text: Seq<char>) -> Result<Seq<GroupModel>, (GroupParseError, int)> {
    spec_parse_lines(spec_lines(text))
}

} // verus!
