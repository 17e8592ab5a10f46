//! Properties of the library as a whole.
use vstd::prelude::*;

use crate::entry::{first_with_key, spec_as_string, DesktopEntryGroupEntry};
use crate::lines::spec_lines;
use crate::spec::{
    is_blank, leading_blank, lemma_parse_entry_len, lemma_parse_group_len, spec_parse,
    spec_parse_entries, spec_parse_entry, spec_parse_group, spec_parse_more_groups,
};
use crate::spec::spec_entry_line;
use crate::text::{first_index_of, is_ws, lemma_first_index_of_append, trim, trim_end, trim_start};

verus! {

proof fn lemma_leading_blank_all(lines: Seq<Seq<char>>)
    ensures
        leading_blank(lines) <= lines.len(),
        forall|j: int| 0 <= j < leading_blank(lines) ==> is_blank(#[trigger] lines[j]),
        leading_blank(lines) < lines.len() ==> !is_blank(lines[leading_blank(lines) as int]),
    decreases lines.len(),
{
    if lines.len() > 0 && is_blank(lines[0]) {
        lemma_leading_blank_all(lines.drop_first());
        assert forall|j: int| 0 <= j < leading_blank(lines) implies is_blank(#[trigger] lines[j]) by {
            if j > 0 {
                assert(lines[j] == lines.drop_first()[j - 1]);
            }
        }
        if leading_blank(lines) < lines.len() {
            assert(lines[leading_blank(lines) as int] == lines.drop_first()[leading_blank(
                lines.drop_first(),
            ) as int]);
        }
    }
}

proof fn lemma_entries_error_line(rest: Seq<Seq<char>>)
    ensures
        spec_parse_entries(rest).0 matches Err((x, off)) ==> 1 <= off <= rest.len(),
    decreases rest.len(),
{
    if rest.len() > 0 {
        let (er, c) = spec_parse_entry(rest);
        lemma_parse_entry_len(rest);
        lemma_entries_error_line(rest.skip(c as int));
    }
}

proof fn lemma_group_error_line(lines: Seq<Seq<char>>, line_nr: int)
    ensures
        spec_parse_group(lines, line_nr).0 matches Err((e, at)) ==> {
            &&& line_nr <= at <= line_nr + lines.len()
            &&& e is Empty <==> forall|j: int| 0 <= j < lines.len() ==> is_blank(#[trigger] lines[j])
            &&& !(e is Empty) ==> line_nr + 1 <= at
        },
        spec_parse_group(lines, line_nr).0 is Ok ==> exists|j: int|
            0 <= j < lines.len() && !is_blank(#[trigger] lines[j]),
{
    lemma_leading_blank_all(lines);
    let k = leading_blank(lines);
    if k < lines.len() {
        lemma_entries_error_line(lines.skip((k + 1) as int));
        assert(!is_blank(lines[k as int]));
    }
}

proof fn lemma_more_groups_error_line(rest: Seq<Seq<char>>, line_nr: int)
    ensures
        spec_parse_more_groups(rest, line_nr) matches Err((e, at)) ==> {
            &&& line_nr + 1 <= at <= line_nr + rest.len()
            &&& !(e is Empty)
        },
    decreases rest.len(),
{
    let (r, n) = spec_parse_group(rest, line_nr);
    lemma_parse_group_len(rest, line_nr);
    lemma_group_error_line(rest, line_nr);
    if let Ok((g, end)) = r {
        lemma_more_groups_error_line(rest.skip(n as int), end);
    }
}

/// When a text cannot be read, the error names a line of the text: a number from 1 to
/// the number of lines, except for `GroupParseError::Empty`, which comes exactly when
/// every line is blank or a comment and names the number of lines.
pub proof fn law_error_line_in_text(text: Seq<char>)
    ensures
        spec_parse(text) matches Err((e, at)) ==> {
            &&& 0 <= at <= spec_lines(text).len()
            &&& !(e is Empty) ==> 1 <= at
            &&& e is Empty ==> at == spec_lines(text).len()
        },
        (spec_parse(text) matches Err((e, _)) && e is Empty) <==> forall|j: int|
            0 <= j < spec_lines(text).len() ==> is_blank(#[trigger] spec_lines(text)[j]),
{
    let lines = spec_lines(text);
    let (r, n) = spec_parse_group(lines, 0);
    lemma_parse_group_len(lines, 0);
    lemma_group_error_line(lines, 0);
    lemma_leading_blank_all(lines);
    if let Ok((g, end)) = r {
        lemma_more_groups_error_line(lines.skip(n as int), end);
        assert(!forall|j: int| 0 <= j < lines.len() ==> is_blank(#[trigger] lines[j]));
    }
}

/// A value read as a string is the value read as a locale string: trimmed, and only
/// accepted when it is ASCII without control characters.
pub proof fn law_string_is_trimmed_locale_string(content: Seq<char>)
    ensures
        spec_as_string(content) matches Ok(s) ==> s == trim(content),
{
}

/// A group contains a key exactly when looking the key up finds an entry.
pub proof fn law_contains_iff_found(es: Seq<DesktopEntryGroupEntry>, key: Seq<char>)
    ensures
        (first_with_key(es, key) < es.len()) <==> !(first_with_key(es, key) == es.len()),
{
    crate::entry::lemma_first_with_key_props(es, key);
}

/// Every character of `w` is whitespace.
pub open spec fn all_ws(w: Seq<char>) -> bool {
    forall|i: int| 0 <= i < w.len() ==> is_ws(#[trigger] w[i])
}

proof fn lemma_trim_start_ws_prefix(w: Seq<char>, s: Seq<char>)
    requires
        all_ws(w),
    ensures
        trim_start(w + s) == trim_start(s),
    decreases w.len(),
{
    if w.len() > 0 {
        assert((w + s)[0] == w[0]);
        assert((w + s).drop_first() =~= w.drop_first() + s);
        lemma_trim_start_ws_prefix(w.drop_first(), s);
    } else {
        assert(w + s =~= s);
    }
}

proof fn lemma_trim_end_ws_suffix(s: Seq<char>, w: Seq<char>)
    requires
        all_ws(w),
    ensures
        trim_end(s + w) == trim_end(s),
    decreases w.len(),
{
    if w.len() > 0 {
        assert((s + w).last() == w.last());
        assert((s + w).drop_last() =~= s + w.drop_last());
        lemma_trim_end_ws_suffix(s, w.drop_last());
    } else {
        assert(s + w =~= s);
    }
}

proof fn lemma_trim_start_concat(a: Seq<char>, b: Seq<char>)
    ensures
        trim_start(a).len() > 0 ==> trim_start(a + b) == trim_start(a) + b,
        trim_start(a).len() == 0 ==> trim_start(a + b) == trim_start(b),
    decreases a.len(),
{
    if a.len() > 0 {
        assert((a + b)[0] == a[0]);
        assert((a + b).drop_first() =~= a.drop_first() + b);
        lemma_trim_start_concat(a.drop_first(), b);
    } else {
        assert(a + b =~= b);
    }
}

/// Whitespace around the `=` of an entry is ignored: the line reads as the same entry
/// (or the same error) without it.
pub proof fn law_space_around_equals(key: Seq<char>, w1: Seq<char>, w2: Seq<char>, rest: Seq<char>)
    requires
        !key.contains('='),
        all_ws(w1),
        all_ws(w2),
    ensures
        spec_entry_line(key + w1 + seq!['='] + w2 + rest) == spec_entry_line(
            key + seq!['='] + rest,
        ),
{
    let l1 = key + w1 + seq!['='] + w2 + rest;
    let l2 = key + seq!['='] + rest;
    let tail1 = w1 + (seq!['='] + (w2 + rest));
    let tail2 = seq!['='] + rest;
    assert(l1 =~= key + tail1);
    assert(l2 =~= key + tail2);
    lemma_trim_start_concat(key, tail1);
    lemma_trim_start_concat(key, tail2);
    lemma_trim_start_ws_prefix(w1, seq!['='] + (w2 + rest));
    assert(!is_ws('='));
    // The first non-blank character is that of the key, or the `=` in both lines.
    assert(trim_start(l1).len() > 0 && trim_start(l2).len() > 0);
    assert(trim_start(l1)[0] == trim_start(l2)[0]);
    let kw = key + w1;
    assert(!w1.contains('=')) by {
        if w1.contains('=') {
            let j = choose|j: int| 0 <= j < w1.len() && w1[j] == '=';
            assert(is_ws(w1[j]));
        }
    }
    assert(!kw.contains('=')) by {
        if kw.contains('=') {
            let j = choose|j: int| 0 <= j < kw.len() && kw[j] == '=';
            if j < key.len() {
                assert(key[j] == '=');
            } else {
                assert(w1[j - key.len()] == '=');
            }
        }
    }
    assert(l1 =~= kw + (seq!['='] + (w2 + rest)));
    lemma_first_index_of_append(kw, seq!['='] + (w2 + rest), '=');
    lemma_first_index_of_append(key, seq!['='] + rest, '=');
    let eq1 = first_index_of(l1, '=');
    let eq2 = first_index_of(l2, '=');
    assert(eq1 == kw.len());
    assert(eq2 == key.len());
    assert(l1.take(eq1) =~= kw);
    assert(l2.take(eq2) =~= key);
    lemma_trim_end_ws_suffix(key, w1);
    assert(l1.skip(eq1 + 1) =~= w2 + rest);
    assert(l2.skip(eq2 + 1) =~= rest);
    lemma_trim_start_ws_prefix(w2, rest);
}

} // verus!
