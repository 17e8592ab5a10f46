//! What lines, keys and values mean, stated directly over their characters.
use vstd::prelude::*;

use crate::entry::{spec_as_boolean, spec_as_string, EntryModel};
use crate::error::{EntryParseError, GroupParseError, ValueBoolError, ValueStringError};
use crate::spec::{
    after, spec_entry_line, spec_parse_entries, spec_parse_group, spec_parse_lines,
    spec_parse_more_groups, valid_key,
};
use crate::text::{
    first_index_of, is_ws, lemma_first_index_of, lemma_first_index_of_append,
    lemma_first_index_of_props, trim, trim_end, trim_start,
};

verus! {

/// A line whose first character that is not whitespace is `#` is a comment, whatever
/// else it holds (an `=` too).
pub proof fn law_hash_line_is_comment(l: Seq<char>)
    requires
        trim_start(l).len() > 0,
        trim_start(l)[0] == '#',
    ensures
        spec_entry_line(l) == Err::<(Option<Seq<char>>, Seq<char>, Seq<char>), EntryParseError>(
            EntryParseError::Comment,
        ),
{
}

/// Inside a group, a comment line is passed over: the entries read are those read
/// without it, and it takes one line.
pub proof fn law_group_skips_comment_line(l: Seq<char>, rest: Seq<Seq<char>>)
    requires
        trim_start(l).len() > 0,
        trim_start(l)[0] == '#',
    ensures
        spec_parse_entries(seq![l] + rest).1 == spec_parse_entries(rest).1 + 1,
        spec_parse_entries(rest).0 matches Ok(es) ==> spec_parse_entries(seq![l] + rest).0
            == Ok::<Seq<EntryModel>, (EntryParseError, nat)>(es),
        spec_parse_entries(rest).0 matches Err((x, off)) ==> spec_parse_entries(
            seq![l] + rest,
        ).0 == Err::<Seq<EntryModel>, (EntryParseError, nat)>((x, off + 1)),
{
    let lines = seq![l] + rest;
    assert(lines[0] == l);
    assert(lines.skip(1) =~= rest);
    if let Ok(es) = spec_parse_entries(rest).0 {
        assert(Seq::<EntryModel>::empty() + es =~= es);
    }
}

/// A character that may stand in a key before its first `/`: an ASCII letter or
/// digit, or `-`.
pub open spec fn plain_key_char(c: char) -> bool {
    ||| ('0' <= c && c <= '9')
    ||| ('a' <= c && c <= 'z')
    ||| ('A' <= c && c <= 'Z')
    ||| c == '-'
}

/// A key without `/` is valid exactly when each of its characters is an ASCII letter,
/// digit or `-`.
pub proof fn law_valid_key_without_slash(key: Seq<char>)
    requires
        !key.contains('/'),
    ensures
        valid_key(key) <==> forall|i: int| 0 <= i < key.len() ==> plain_key_char(#[trigger] key[i]),
{
    assert forall|j: int| 0 <= j < key.len() implies key[j] != '/' by {
        if key[j] == '/' {
            assert(key.contains('/'));
        }
    }
    lemma_first_index_of(key, '/', key.len() as int);
}

/// A key with a `/` is valid exactly when each character before its first `/` is an
/// ASCII letter, digit or `-`, and all after it is ASCII.
pub proof fn law_valid_key_with_slash(a: Seq<char>, b: Seq<char>)
    requires
        !a.contains('/'),
    ensures
        valid_key(a + seq!['/'] + b) <==> {
            &&& forall|i: int| 0 <= i < a.len() ==> plain_key_char(#[trigger] a[i])
            &&& forall|i: int| 0 <= i < b.len() ==> (#[trigger] b[i] as u32) < 0x80
        },
{
    let key = a + seq!['/'] + b;
    assert(key =~= a + (seq!['/'] + b));
    lemma_first_index_of_append(a, seq!['/'] + b, '/');
    assert(first_index_of(key, '/') == a.len());
    assert(key.skip((a.len() + 1) as int) =~= b);
    assert forall|i: int| 0 <= i < a.len() implies key[i] == a[i] by {}
}

/// A line `key=value` whose key is made of ASCII letters, digits and `-` (at least
/// one) reads as that key, no locale, and the value without its leading whitespace.
pub proof fn law_plain_entry_line(key: Seq<char>, value: Seq<char>)
    requires
        key.len() > 0,
        forall|i: int| 0 <= i < key.len() ==> plain_key_char(#[trigger] key[i]),
    ensures
        spec_entry_line(key + seq!['='] + value) == Ok::<_, EntryParseError>(
            (None::<Seq<char>>, key, trim_start(value)),
        ),
{
    let l = key + seq!['='] + value;
    assert(l[0] == key[0]);
    assert(plain_key_char(key[0]));
    assert(!is_ws(l[0]));
    assert(trim_start(l) == l);
    assert(!key.contains('=')) by {
        if key.contains('=') {
            let j = choose|j: int| 0 <= j < key.len() && key[j] == '=';
            assert(plain_key_char(key[j]));
        }
    }
    assert(!key.contains('/')) by {
        if key.contains('/') {
            let j = choose|j: int| 0 <= j < key.len() && key[j] == '/';
            assert(plain_key_char(key[j]));
        }
    }
    assert(l =~= key + (seq!['='] + value));
    lemma_first_index_of_append(key, seq!['='] + value, '=');
    let eq = first_index_of(l, '=');
    assert(eq == key.len());
    assert(l.take(eq) =~= key);
    assert(l.skip(eq + 1) =~= value);
    assert(plain_key_char(key.last()));
    assert(trim_end(key) == key);
    law_valid_key_without_slash(key);
}

/// A value read as a string is the trimmed value, and only when each of its characters
/// is ASCII and none is a control character; such a trimmed value is always accepted.
pub proof fn law_as_string_accepts_exactly_ascii_text(content: Seq<char>)
    ensures
        spec_as_string(content) matches Ok(s) ==> {
            &&& s == trim(content)
            &&& forall|i: int|
                0 <= i < s.len() ==> (#[trigger] s[i] as u32) < 0x80 && (s[i] as u32) >= 0x20
                    && (s[i] as u32) != 0x7F
        },
        (forall|i: int|
            0 <= i < trim(content).len() ==> (#[trigger] trim(content)[i] as u32) < 0x80 && (
            trim(content)[i] as u32) >= 0x20 && (trim(content)[i] as u32) != 0x7F)
            ==> spec_as_string(content) == Ok::<Seq<char>, ValueStringError>(trim(content)),
        (exists|i: int| 0 <= i < trim(content).len() && (#[trigger] trim(content)[i] as u32) >= 0x80)
            ==> spec_as_string(content) == Err::<Seq<char>, ValueStringError>(
            ValueStringError::NotASCII,
        ),
{
    let t = trim(content);
    if exists|i: int| 0 <= i < t.len() && (#[trigger] t[i] as u32) >= 0x80 {
        let i = choose|i: int| 0 <= i < t.len() && (#[trigger] t[i] as u32) >= 0x80;
        assert(!crate::text::is_ascii_char(t[i]));
    }
    if spec_as_string(content) is Ok {
        assert forall|i: int| 0 <= i < t.len() implies (#[trigger] t[i] as u32) < 0x80 && (
        t[i] as u32) >= 0x20 && (t[i] as u32) != 0x7F by {
            assert(crate::text::is_ascii_char(t[i]));
            if !((t[i] as u32) >= 0x20 && (t[i] as u32) != 0x7F) {
                assert(crate::text::is_control_char(t[i]));
            }
        }
    }
}

/// A value is a boolean exactly when, trimmed, it is `true` or `false`.
pub proof fn law_as_boolean_only_true_and_false(content: Seq<char>)
    ensures
        spec_as_boolean(content) == Ok::<bool, ValueBoolError>(true) <==> trim(content) =~= seq![
            't',
            'r',
            'u',
            'e',
        ],
        spec_as_boolean(content) == Ok::<bool, ValueBoolError>(false) <==> trim(content) =~= seq![
            'f',
            'a',
            'l',
            's',
            'e',
        ],
        spec_as_boolean(content) is Err <==> !(trim(content) =~= seq!['t', 'r', 'u', 'e']) && !(
        trim(content) =~= seq!['f', 'a', 'l', 's', 'e']),
{
    let t = trim(content);
    if t =~= seq!['f', 'a', 'l', 's', 'e'] {
        assert(t[0] != 't');
        assert(!(t =~= seq!['t', 'r', 'u', 'e']));
    }
}

/// Any error in reading a group after the first, other than running out of lines, is
/// the error of the whole reading, with its line; a group that is read is followed by
/// the reading of the rest, whose errors are kept the same way.
pub proof fn law_later_group_errors_are_kept(rest: Seq<Seq<char>>, line_nr: int)
    ensures
        match spec_parse_group(rest, line_nr).0 {
            Err((e, at)) => !(e is Empty) ==> spec_parse_more_groups(rest, line_nr) == Err::<
                Seq<crate::entry::GroupModel>,
                (GroupParseError, int),
            >((e, at)),
            Ok(_) => true,
        },
        spec_parse_group(rest, line_nr).0 matches Ok((g, end)) ==> (spec_parse_more_groups(
            rest,
            line_nr,
        ) is Err <==> spec_parse_more_groups(
            rest.skip(spec_parse_group(rest, line_nr).1 as int),
            end,
        ) is Err),
        spec_parse_group(rest, line_nr).0 matches Ok((g, end)) ==> (spec_parse_more_groups(
            rest,
            line_nr,
        ) matches Err(x) ==> spec_parse_more_groups(
            rest.skip(spec_parse_group(rest, line_nr).1 as int),
            end,
        ) == Err::<Seq<crate::entry::GroupModel>, (GroupParseError, int)>(x)),
{
}

/// The reading of a text fails with the error of its first group when that group
/// cannot be read (a text with no group at all included).
pub proof fn law_first_group_errors_are_kept(lines: Seq<Seq<char>>)
    ensures
        spec_parse_group(lines, 0).0 matches Err((e, at)) ==> spec_parse_lines(lines) == Err::<
            Seq<crate::entry::GroupModel>,
            (GroupParseError, int),
        >((e, at)),
{
}

} // verus!
