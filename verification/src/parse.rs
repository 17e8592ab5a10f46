//! Reading desktop entry files: group headers, entries, groups and whole files.
use std::ops::Range;
use vstd::prelude::*;

use crate::entry::{
    entries_view, groups_view, DesktopEntry, DesktopEntryGroup, DesktopEntryGroupEntry, EntryModel,
    EntryValue, GroupModel,
};
use crate::error::{EntryParseError, GroupHeaderParseError, GroupParseError, LinedError};
use crate::lines::{spec_lines, Lines};
use crate::spec::{
    after, continue_value, is_blank, is_key_char, lemma_after_after, lemma_leading_blank,
    lemma_parse_entry_len, lemma_parse_group_len, spec_entry_line, spec_group_header, spec_parse,
    spec_parse_entries, spec_parse_entry, spec_parse_group, spec_parse_lines,
    spec_parse_more_groups,
};
use crate::text::{
    all_ascii_range, any_control_range, append_chars, chars_of, contains_range, copy_range,
    find_char, lemma_first_index_of_props, skip_ws, skip_ws_back, string_of, string_result, trim,
    trim_start,
};

verus! {

/// The name of the group header `v`.
fn group_header_chars(v: &Vec<char>) -> (r: Result<String, GroupHeaderParseError>)
    ensures
        string_result(r) == spec_group_header(v@),
{
    let lo = skip_ws(v, 0, v.len());
    let hi = skip_ws_back(v, lo, v.len());
    let ghost t = v@.subrange(lo as int, hi as int);
    proof {
        assert(v@.subrange(0, v@.len() as int) =~= v@);
        assert(trim(v@) == t);
    }
    if !(lo < hi && v[lo] == '[') {
        return Err(GroupHeaderParseError::InvalidStart);
    }
    if v[hi - 1] != ']' {
        return Err(GroupHeaderParseError::InvalidEnd);
    }
    assert(hi - lo >= 2);
    let ghost name = t.subrange(1, t.len() - 1);
    assert(name =~= v@.subrange(lo + 1, hi - 1));
    if !all_ascii_range(v, lo + 1, hi - 1) {
        return Err(GroupHeaderParseError::NotASCII);
    }
    if contains_range(v, lo + 1, hi - 1, '[') || contains_range(v, lo + 1, hi - 1, ']') {
        return Err(GroupHeaderParseError::ContainsBrackets);
    }
    if any_control_range(v, lo + 1, hi - 1) {
        return Err(GroupHeaderParseError::ContainsControlCharacters);
    }
    Ok(string_of(v, lo + 1, hi - 1))
}

/// The group name of a header line such as `[Desktop Entry]`: the text between the
/// brackets, once whitespace around the line is removed.
pub fn group_header_from_line(line: &str) -> (r: Result<String, GroupHeaderParseError>)
    ensures
        string_result(r) == spec_group_header(line@),
{
    let v = chars_of(line);
    group_header_chars(&v)
}

/// The first line of an entry, `v`, as the locale, the key and the value it starts.
#[verifier::loop_isolation(false)]
fn parse_entry_line(v: &Vec<char>) -> (r: Result<(Option<String>, String, Vec<char>), EntryParseError>)
    ensures
        match (r, spec_entry_line(v@)) {
            (Ok((locale, key, value)), Ok((slocale, skey, svalue))) => {
                &&& locale.deep_view() == slocale
                &&& key@ == skey
                &&& value@ == svalue
            },
            (Err(e), Err(f)) => e == f,
            _ => false,
        },
{
    let len = v.len();
    let ts = skip_ws(v, 0, len);
    proof {
        assert(v@.subrange(0, len as int) =~= v@);
    }
    if ts == len {
        return Err(EntryParseError::Empty);
    }
    if v[ts] == '#' {
        return Err(EntryParseError::Comment);
    }
    if v[ts] == '[' {
        return Err(EntryParseError::Header);
    }
    let eq = find_char(v, 0, len, '=');
    if eq == len {
        return Err(EntryParseError::NoEquals);
    }
    let vs = skip_ws(v, eq + 1, len);
    let ke = skip_ws_back(v, 0, eq);
    let ghost raw_key = v@.subrange(0, ke as int);
    proof {
        assert(v@.take(eq as int) =~= v@.subrange(0, eq as int));
        assert(v@.skip(eq + 1) =~= v@.subrange(eq + 1, len as int));
    }
    let kend;
    let locale;
    if ke > 0 && v[ke - 1] == ']' {
        let lb = find_char(v, 0, ke, '[');
        if lb == ke {
            return Err(EntryParseError::InvalidKey);
        }
        proof {
            lemma_first_index_of_props(raw_key, '[');
            assert(raw_key.take(lb as int) =~= v@.subrange(0, lb as int));
            assert(raw_key.subrange(lb + 1, ke - 1) =~= v@.subrange(lb + 1, ke - 1));
        }
        kend = skip_ws_back(v, 0, lb);
        locale = Some(string_of(v, lb + 1, ke - 1));
    } else {
        kend = ke;
        locale = None;
    }
    let ghost key = v@.subrange(0, kend as int);
    let sl = find_char(v, 0, kend, '/');
    if sl < kend {
        proof {
            assert(key.skip(sl + 1) =~= v@.subrange(sl + 1, kend as int));
        }
        if !all_ascii_range(v, sl + 1, kend) {
            return Err(EntryParseError::InvalidKey);
        }
    }
    let mut i: usize = 0;
    while i < sl
        invariant
            0 <= i <= sl <= kend <= v.len(),
            key == v@.subrange(0, kend as int),
            forall|j: int| 0 <= j < i ==> is_key_char(#[trigger] key[j]),
        decreases sl - i,
    {
        if !(crate::text::is_alnum(v[i]) || v[i] == '-') {
            assert(key[i as int] == v@[i as int]);
            return Err(EntryParseError::InvalidKey);
        }
        assert(key[i as int] == v@[i as int]);
        i += 1;
    }
    let key_string = string_of(v, 0, kend);
    let value = copy_range(v, vs, len);
    Ok((locale, key_string, value))
}

impl DesktopEntryGroupEntry {
    /// Reads one entry from the lines to come, counting in `current_line_nr` the lines
    /// it takes. A value that ends with `\\` goes on in the next line.
    ///
    /// A blank line gives `EntryParseError::Empty` (as does the end of the lines), a
    /// comment `EntryParseError::Comment` and a group header `EntryParseError::Header`;
    /// each of them takes one line.
    pub fn from_lines(lines: &mut Lines, current_line_nr: &mut usize) -> (r: Result<
        Self,
        EntryParseError,
    >)
        requires
            *old(current_line_nr) + old(lines)@.len() <= usize::MAX,
        ensures
            spec_parse_entry(old(lines)@).1 <= old(lines)@.len(),
            final(lines)@ == old(lines)@.skip(spec_parse_entry(old(lines)@).1 as int),
            *final(current_line_nr) == *old(current_line_nr) + spec_parse_entry(old(lines)@).1,
            final(lines).all_lines() == old(lines).all_lines(),
            final(lines).position() == old(lines).position() + spec_parse_entry(old(lines)@).1,
            match r {
                Ok(e) => spec_parse_entry(old(lines)@).0 == Ok::<EntryModel, EntryParseError>(e@),
                Err(e) => spec_parse_entry(old(lines)@).0 == Err::<EntryModel, EntryParseError>(e),
            },
    {
        let ghost all = lines@;
        if lines.is_empty() {
            assert(all.skip(0) =~= all);
            return Err(EntryParseError::Empty);
        }
        let first = parse_entry_line(lines.peek());
        lines.advance();
        *current_line_nr += 1;
        let (locale, key, mut value) = match first {
            Err(e) => {
                assert(all.skip(1) =~= all.drop_first());
                return Err(e);
            },
            Ok(t) => t,
        };
        let ghost value0 = value@;
        let ghost rest0 = lines@;
        let ghost mut used: nat = 0;
        assert(rest0.skip(0) =~= rest0);
        while value.len() > 0 && value[value.len() - 1] == '\\'
            invariant
                lines@ == rest0.skip(used as int),
                used <= rest0.len(),
                all == old(lines)@,
                all.len() > 0,
                rest0 == all.drop_first(),
                spec_entry_line(all[0]) == Ok::<_, EntryParseError>((locale.deep_view(), key@, value0)),
                *current_line_nr == *old(current_line_nr) + 1 + used,
                lines.all_lines() == old(lines).all_lines(),
                lines.position() == old(lines).position() + 1 + used,
                *old(current_line_nr) + all.len() <= usize::MAX,
                continue_value(value0, rest0) == (
                    continue_value(value@, lines@).0,
                    continue_value(value@, lines@).1 + used,
                ),
            decreases lines@.len(),
        {
            if lines.is_empty() {
                assert(all.skip((1 + used) as int) =~= rest0.skip(used as int));
                return Err(EntryParseError::EscapedIntoNonExistant);
            }
            let line = lines.peek();
            let is_header = line.len() > 0 && line[0] == '[';
            if !is_header {
                let ts = skip_ws(line, 0, line.len());
                proof {
                    assert(line@.subrange(0, line@.len() as int) =~= line@);
                }
                let ghost before = value@;
                value.pop();
                value.push(' ');
                append_chars(&mut value, line, ts, line.len());
                assert(value@ =~= before.drop_last().push(' ') + trim_start(line@));
            }
            lines.advance();
            *current_line_nr += 1;
            proof {
                used = used + 1;
                assert(rest0.skip(used as int) =~= rest0.skip(used - 1).drop_first());
            }
            if is_header {
                assert(all.skip((1 + used) as int) =~= rest0.skip(used as int));
                return Err(EntryParseError::EscapedIntoHeader);
            }
        }
        proof {
            assert(all.skip((1 + used) as int) =~= rest0.skip(used as int));
        }
        let content = string_of(&value, 0, value.len());
        proof {
            assert(value@.subrange(0, value@.len() as int) =~= value@);
        }
        Ok(DesktopEntryGroupEntry { locale, key, value: EntryValue { content } })
    }
}

/// Whether the line `v` is blank or a comment.
fn is_blank_line(v: &Vec<char>) -> (b: bool)
    ensures
        b == is_blank(v@),
{
    let ts = skip_ws(v, 0, v.len());
    proof {
        assert(v@.subrange(0, v@.len() as int) =~= v@);
    }
    ts == v.len() || v[ts] == '#'
}

proof fn lemma_entries_view_push(v: Seq<DesktopEntryGroupEntry>, e: DesktopEntryGroupEntry)
    ensures
        entries_view(v.push(e)) == entries_view(v) + seq![e@],
{
    assert(entries_view(v.push(e)) =~= entries_view(v) + seq![e@]);
}

impl DesktopEntryGroup {
    /// Reads one group from the lines to come, where the first of them is line number
    /// `line_nr`: blank lines and comments, a `[name]` header, and then entries up to
    /// the next header or the end of the lines. With the group comes the range of line
    /// numbers it took.
    #[verifier::loop_isolation(false)]
    #[verifier::rlimit(40)]
    pub fn from_lines(lines: &mut Lines, line_nr: usize) -> (r: Result<
        (Self, Range<usize>),
        LinedError<GroupParseError>,
    >)
        requires
            line_nr + old(lines)@.len() <= usize::MAX,
        ensures
            spec_parse_group(old(lines)@, line_nr as int).1 <= old(lines)@.len(),
            final(lines)@ == old(lines)@.skip(spec_parse_group(old(lines)@, line_nr as int).1 as int),
            match r {
                Ok((g, range)) => {
                    &&& spec_parse_group(old(lines)@, line_nr as int).0 == Ok::<
                        (GroupModel, int),
                        (GroupParseError, int),
                    >((g@, range.end as int))
                    &&& range.start == line_nr
                },
                Err(e) => spec_parse_group(old(lines)@, line_nr as int).0 == Err::<
                    (GroupModel, int),
                    (GroupParseError, int),
                >((e.error, e.line_nr as int)),
            },
    {
        let ghost all = lines@;
        let start_line_nr = line_nr;
        let mut current_line_nr = line_nr;
        let ghost mut skipped: nat = 0;
        assert(all.skip(0) =~= all);
        while !lines.is_empty() && is_blank_line(lines.peek())
            invariant
                skipped <= all.len(),
                lines@ == all.skip(skipped as int),
                current_line_nr == line_nr + skipped,
                line_nr + all.len() <= usize::MAX,
                forall|j: int| 0 <= j < skipped ==> is_blank(#[trigger] all[j]),
            decreases lines@.len(),
        {
            proof {
                assert(all[skipped as int] == lines@[0]);
                assert(all.skip((skipped + 1) as int) =~= lines@.drop_first());
                skipped = skipped + 1;
            }
            lines.advance();
            current_line_nr += 1;
        }
        proof {
            if skipped < all.len() {
                assert(all[skipped as int] == lines@[0]);
            }
            lemma_leading_blank(all, skipped as int);
        }
        if lines.is_empty() {
            return Err(GroupParseError::Empty.at_line(current_line_nr));
        }
        let raw = lines.peek();
        let lo = skip_ws(raw, 0, raw.len());
        let hi = skip_ws_back(raw, lo, raw.len());
        proof {
            assert(raw@.subrange(0, raw@.len() as int) =~= raw@);
        }
        let shaped = lo < hi && raw[lo] == '[' && raw[hi - 1] == ']';
        let header = copy_range(raw, lo, hi);
        lines.advance();
        current_line_nr += 1;
        proof {
            assert(all.skip((skipped + 1) as int) =~= lines@);
        }
        if !shaped {
            return Err(GroupParseError::NoHeader.at_line(current_line_nr));
        }
        let group_name = match group_header_chars(&header) {
            Ok(name) => name,
            Err(e) => return Err(GroupParseError::HeaderError(e).at_line(current_line_nr)),
        };
        let ghost full = lines@;
        let ghost cur0 = current_line_nr;
        let ghost mut committed: nat = 0;
        let mut entries: Vec<DesktopEntryGroupEntry> = Vec::new();
        let mut done = false;
        assert(full.skip(0) =~= full);
        assert(after(seq![], 0, spec_parse_entries(full)) == spec_parse_entries(full)) by {
            match spec_parse_entries(full).0 {
                Ok(es) => {
                    assert(Seq::<EntryModel>::empty() + es =~= es);
                },
                Err(_) => {},
            }
        }
        while !done && !lines.is_empty()
            invariant
                committed <= full.len(),
                lines@ == full.skip(committed as int),
                current_line_nr == cur0 + committed,
                cur0 + full.len() <= usize::MAX,
                spec_parse_entries(full) == after(
                    entries_view(entries@),
                    committed,
                    spec_parse_entries(lines@),
                ),
                done ==> spec_parse_entries(lines@) == (
                    Ok::<Seq<EntryModel>, (EntryParseError, nat)>(seq![]),
                    0nat,
                ),
            decreases lines@.len(), if done { 0int } else { 1int },
        {
            let ghost rest = lines@;
            let mark = lines.mark();
            let res = DesktopEntryGroupEntry::from_lines(lines, &mut current_line_nr);
            let ghost c = spec_parse_entry(rest).1;
            proof {
                lemma_parse_entry_len(rest);
                assert(full.skip((committed + c) as int) =~= rest.skip(c as int));
            }
            match res {
                Ok(entry) => {
                    proof {
                        lemma_after_after(
                            entries_view(entries@),
                            committed,
                            seq![entry@],
                            c,
                            spec_parse_entries(rest.skip(c as int)),
                        );
                        lemma_entries_view_push(entries@, entry);
                        committed = committed + c;
                    }
                    entries.push(entry);
                },
                Err(EntryParseError::Header) => {
                    lines.reset(mark);
                    current_line_nr -= 1;
                    done = true;
                },
                Err(err) => {
                    if err.is_empty_line() {
                        proof {
                            lemma_after_after(
                                entries_view(entries@),
                                committed,
                                seq![],
                                c,
                                spec_parse_entries(rest.skip(c as int)),
                            );
                            assert(entries_view(entries@) + seq![] =~= entries_view(entries@));
                            committed = committed + c;
                        }
                    } else {
                        let at = current_line_nr;
                        lines.reset(mark);
                        proof {
                            assert(all.skip((skipped + 1 + committed) as int) =~= rest);
                        }
                        return Err(GroupParseError::EntryError(err).at_line(at));
                    }
                },
            }
        }
        proof {
            assert(entries_view(entries@) + seq![] =~= entries_view(entries@));
            assert(all.skip((skipped + 1 + committed) as int) =~= lines@);
        }
        let group = DesktopEntryGroup { group_name, entries };
        Ok((group, start_line_nr..current_line_nr))
    }
}

/// Places groups that were read before the result of reading the rest.
pub open spec fn after_groups(
    done: Seq<GroupModel>,
    later: Result<Seq<GroupModel>, (GroupParseError, int)>,
) -> Result<Seq<GroupModel>, (GroupParseError, int)> {
    match later {
        Ok(gs) => Ok(done + gs),
        Err(e) => Err(e),
    }
}

proof fn lemma_groups_view_push(v: Seq<DesktopEntryGroup>, g: DesktopEntryGroup)
    ensures
        groups_view(v.push(g)) == groups_view(v) + seq![g@],
{
    assert(groups_view(v.push(g)) =~= groups_view(v) + seq![g@]);
}

/// `r` is what reading `text` gives: the groups of `spec_parse`, or its error with the
/// number of its line.
pub open spec fn parsed_as(text: Seq<char>, r: Result<DesktopEntry, LinedError<GroupParseError>>) -> bool {
    match r {
        Ok(d) => spec_parse(text) == Ok::<Seq<GroupModel>, (GroupParseError, int)>(d@),
        Err(e) => spec_parse(text) == Err::<Seq<GroupModel>, (GroupParseError, int)>(
            (e.error, e.line_nr as int),
        ),
    }
}

/// `DesktopEntry::try_from` makes no claim through the trait's own model, whose result
/// would have to be built from mathematical values; what it returns is stated in the
/// `ensures` of the function itself.
impl vstd::std_specs::convert::TryFromSpecImpl<String> for DesktopEntry {
    open spec fn obeys_try_from_spec() -> bool {
        false
    }

    open spec fn try_from_spec(v: String) -> Result<Self, LinedError<GroupParseError>> {
        choose|r: Result<Self, LinedError<GroupParseError>>| #[trigger] parsed_as(v@, r)
    }
}

impl TryFrom<String> for DesktopEntry {
    type Error = LinedError<GroupParseError>;

    /// Reads a desktop entry file: one group or more. Reading stops at the first error,
    /// which comes with the number of its line.
    fn try_from(s: String) -> (r: Result<Self, Self::Error>)
        ensures
            parsed_as(s@, r),
    {
        let mut lines = Lines::new(s.as_str());
        let ghost all = lines@;
        let total = lines.len();
        let (first_group, line_range) = match DesktopEntryGroup::from_lines(&mut lines, 0) {
            Ok(t) => t,
            Err(e) => return Err(e),
        };
        proof {
            lemma_parse_group_len(all, 0);
        }
        let mut groups: Vec<DesktopEntryGroup> = Vec::new();
        let mut line_nr = line_range.end;
        groups.push(first_group);
        let mut done = false;
        assert(groups_view(groups@) =~= seq![first_group@]);
        while !done
            invariant
                line_nr + lines@.len() <= total,
                total == all.len(),
                total <= usize::MAX,
                all == spec_lines(s@),
                !done ==> spec_parse_lines(all) == after_groups(
                    groups_view(groups@),
                    spec_parse_more_groups(lines@, line_nr as int),
                ),
                done ==> spec_parse_lines(all) == Ok::<Seq<GroupModel>, (GroupParseError, int)>(
                    groups_view(groups@),
                ),
            decreases lines@.len(), if done { 0int } else { 1int },
        {
            let ghost rest = lines@;
            proof {
                lemma_parse_group_len(rest, line_nr as int);
            }
            match DesktopEntryGroup::from_lines(&mut lines, line_nr) {
                Ok((group, range)) => {
                    proof {
                        lemma_groups_view_push(groups@, group);
                        match spec_parse_more_groups(lines@, range.end as int) {
                            Ok(gs) => {
                                assert(groups_view(groups@) + (seq![group@] + gs) =~= (
                                groups_view(groups@) + seq![group@]) + gs);
                            },
                            Err(_) => {},
                        }
                    }
                    line_nr = range.end;
                    groups.push(group);
                },
                Err(e) => {
                    if e.error == GroupParseError::Empty {
                        assert(groups_view(groups@) + seq![] =~= groups_view(groups@));
                        done = true;
                    } else {
                        assert(spec_parse_more_groups(rest, line_nr as int) == Err::<
                            Seq<GroupModel>,
                            (GroupParseError, int),
                        >((e.error, e.line_nr as int)));
                        return Err(e);
                    }
                },
            }
        }
        Ok(DesktopEntry { groups })
    }
}

} // verus!
