//! Writing groups and whole files back in the desktop entry format.
use vstd::prelude::*;

use crate::entry::{entries_view, groups_view, DesktopEntry, DesktopEntryGroup, EntryModel, GroupModel};
use crate::text::{push_str_chars, skip_ws, skip_ws_back, string_of, trim};

verus! {

/// The line of an entry: `key[locale]=value` (or `key=value`) and a line break.
pub open spec fn entry_text(e: EntryModel) -> Seq<char> {
    e.key + match e.locale {
        Some(l) => seq!['['] + l + seq![']'],
        None => seq![],
    } + seq!['='] + e.value + seq!['\n']
}

/// The lines of the entries, one after the other.
pub open spec fn entries_text(es: Seq<EntryModel>) -> Seq<char>
    decreases es.len(),
{
    if es.len() == 0 {
        seq![]
    } else {
        entries_text(es.drop_last()) + entry_text(es.last())
    }
}

/// A group's entries as text, without whitespace at either end.
pub open spec fn group_text(g: GroupModel) -> Seq<char> {
    trim(entries_text(g.entries))
}

/// A whole file: for each group its `[name]` header, its entries and an empty line.
pub open spec fn document_text(gs: Seq<GroupModel>) -> Seq<char>
    decreases gs.len(),
{
    if gs.len() == 0 {
        seq![]
    } else {
        document_text(gs.drop_last()) + seq!['['] + gs.last().name + seq![']', '\n'] + group_text(
            gs.last(),
        ) + seq!['\n', '\n']
    }
}

impl DesktopEntryGroup {
    /// Convert this group (only this group) to a string in the desktop entry format.
    pub fn to_string(&self) -> (s: String)
        ensures
            s@ == group_text(self@),
    {
        let mut buf: Vec<char> = Vec::new();
        let mut i: usize = 0;
        while i < self.entries.len()
            invariant
                0 <= i <= self.entries.len(),
                buf@ == entries_text(entries_view(self.entries@.take(i as int))),
            decreases self.entries.len() - i,
        {
            let entry = &self.entries[i];
            let ghost before = buf@;
            push_str_chars(&mut buf, entry.key.as_str());
            match &entry.locale {
                Some(locale) => {
                    buf.push('[');
                    push_str_chars(&mut buf, locale.as_str());
                    buf.push(']');
                },
                None => {},
            }
            buf.push('=');
            push_str_chars(&mut buf, entry.value.content.as_str());
            buf.push('\n');
            proof {
                let es = entries_view(self.entries@.take(i + 1));
                assert(es.drop_last() =~= entries_view(self.entries@.take(i as int)));
                assert(es.last() == entry@);
                assert(buf@ =~= before + entry_text(entry@));
            }
            i += 1;
        }
        proof {
            assert(self.entries@.take(self.entries.len() as int) =~= self.entries@);
        }
        let lo = skip_ws(&buf, 0, buf.len());
        let hi = skip_ws_back(&buf, lo, buf.len());
        proof {
            assert(buf@.subrange(0, buf@.len() as int) =~= buf@);
        }
        string_of(&buf, lo, hi)
    }
}

impl DesktopEntry {
    /// Convert this object back to a string in the desktop entry format.
    pub fn to_string(&self) -> (s: String)
        ensures
            s@ == document_text(self@),
    {
        let mut buf: Vec<char> = Vec::new();
        let mut i: usize = 0;
        while i < self.groups.len()
            invariant
                0 <= i <= self.groups.len(),
                buf@ == document_text(groups_view(self.groups@.take(i as int))),
            decreases self.groups.len() - i,
        {
            let group = &self.groups[i];
            let ghost before = buf@;
            buf.push('[');
            push_str_chars(&mut buf, group.group_name.as_str());
            buf.push(']');
            buf.push('\n');
            let text = group.to_string();
            push_str_chars(&mut buf, text.as_str());
            buf.push('\n');
            buf.push('\n');
            proof {
                let gs = groups_view(self.groups@.take(i + 1));
                assert(gs.drop_last() =~= groups_view(self.groups@.take(i as int)));
                assert(gs.last() == group@);
                assert(buf@ =~= before + seq!['['] + group@.name + seq![']', '\n'] + group_text(
                    group@,
                ) + seq!['\n', '\n']);
            }
            i += 1;
        }
        proof {
            assert(self.groups@.take(self.groups.len() as int) =~= self.groups@);
        }
        string_of(&buf, 0, buf.len())
    }
}

} // verus!
