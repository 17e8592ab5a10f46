//! The contents of a desktop entry file: groups of key-value entries.
use vstd::prelude::*;

use crate::error::{ValueBoolError, ValueStringError};
use crate::text::{
    all_ascii, all_ascii_range, any_control, any_control_range, chars_of, skip_ws, skip_ws_back,
    string_of, string_result, trim,
};

verus! {

/// A desktop entry file: its groups, in the order of the file.
///
/// It is read from a text with `DesktopEntry::try_from` and written back with
/// `DesktopEntry::to_string`.
#[derive(Debug, Clone)]
pub struct DesktopEntry {
    pub groups: Vec<DesktopEntryGroup>,
}

/// A group of a desktop entry file.
///
/// In
///
/// ```text
/// [Desktop Entry]
/// Exec=/usr/bin/cool
/// ```
///
/// "Desktop Entry" is the group name and "Exec" is the key of an entry.
#[derive(Debug, Clone, PartialEq)]
pub struct DesktopEntryGroup {
    pub group_name: String,
    pub entries: Vec<DesktopEntryGroupEntry>,
}

/// One `key[locale]=value` line (the locale is optional).
#[derive(Debug, Clone, PartialEq)]
pub struct DesktopEntryGroupEntry {
    pub locale: Option<String>,
    pub key: String,
    pub value: EntryValue,
}

/// The value of an entry, as it stands in the file.
#[derive(Debug, Clone, PartialEq)]
pub struct EntryValue {
    pub content: String,
}

/// An entry as a mathematical value.
pub struct EntryModel {
    pub locale: Option<Seq<char>>,
    pub key: Seq<char>,
    pub value: Seq<char>,
}

/// A group as a mathematical value.
pub struct GroupModel {
    pub name: Seq<char>,
    pub entries: Seq<EntryModel>,
}

impl View for DesktopEntryGroupEntry {
    type V = EntryModel;

    open spec fn view(&self) -> EntryModel {
        EntryModel {
            locale: self.locale.deep_view(),
            key: self.key@,
            value: self.value.content@,
        }
    }
}

pub open spec fn entries_view(es: Seq<DesktopEntryGroupEntry>) -> Seq<EntryModel> {
    es.map_values(|e: DesktopEntryGroupEntry| e@)
}

impl View for DesktopEntryGroup {
    type V = GroupModel;

    open spec fn view(&self) -> GroupModel {
        GroupModel { name: self.group_name@, entries: entries_view(self.entries@) }
    }
}

pub open spec fn groups_view(gs: Seq<DesktopEntryGroup>) -> Seq<GroupModel> {
    gs.map_values(|g: DesktopEntryGroup| g@)
}

impl View for DesktopEntry {
    type V = Seq<GroupModel>;

    open spec fn view(&self) -> Seq<GroupModel> {
        groups_view(self.groups@)
    }
}

/// The position of the first of `es` whose key is `key`, or `es.len()`.
pub open spec fn first_with_key(es: Seq<DesktopEntryGroupEntry>, key: Seq<char>) -> int
    decreases es.len(),
{
    if es.len() == 0 {
        0
    } else if es[0].key@ == key {
        0
    } else {
        1 + first_with_key(es.drop_first(), key)
    }
}

proof fn lemma_first_with_key(es: Seq<DesktopEntryGroupEntry>, key: Seq<char>, i: int)
    requires
        0 <= i <= es.len(),
        forall|j: int| 0 <= j < i ==> es[j].key@ != key,
        i == es.len() || es[i].key@ == key,
    ensures
        first_with_key(es, key) == i,
    decreases i,
{
    if i > 0 {
        assert(es[0].key@ != key);
        lemma_first_with_key(es.drop_first(), key, i - 1);
    }
}

impl DesktopEntryGroup {
    /// The first entry of the group whose key is `key`.
    pub fn get(&self, key: &str) -> (r: Option<&DesktopEntryGroupEntry>)
        ensures
            r is None <==> first_with_key(self.entries@, key@) == self.entries@.len(),
            r matches Some(e) ==> *e == self.entries@[first_with_key(self.entries@, key@)],
    {
        let k = key.to_owned();
        let mut i: usize = 0;
        while i < self.entries.len()
            invariant
                0 <= i <= self.entries.len(),
                k@ == key@,
                forall|j: int| 0 <= j < i ==> self.entries@[j].key@ != key@,
            decreases self.entries.len() - i,
        {
            if self.entries[i].key == k {
                proof {
                    lemma_first_with_key(self.entries@, key@, i as int);
                }
                return Some(&self.entries[i]);
            }
            i += 1;
        }
        proof {
            lemma_first_with_key(self.entries@, key@, i as int);
        }
        None
    }

    /// Whether the group has an entry whose key is `key`.
    pub fn contains(&self, key: &str) -> (b: bool)
        ensures
            b <==> first_with_key(self.entries@, key@) < self.entries@.len(),
            b <==> exists|i: int|
                0 <= i < self.entries@.len() && #[trigger] self.entries@[i].key@ == key@,
    {
        let r = self.get(key);
        proof {
            lemma_first_with_key_props(self.entries@, key@);
        }
        r.is_some()
    }
}

pub proof fn lemma_first_with_key_props(es: Seq<DesktopEntryGroupEntry>, key: Seq<char>)
    ensures
        0 <= first_with_key(es, key) <= es.len(),
        forall|j: int| 0 <= j < first_with_key(es, key) ==> es[j].key@ != key,
        first_with_key(es, key) < es.len() ==> es[first_with_key(es, key)].key@ == key,
    decreases es.len(),
{
    if es.len() > 0 && es[0].key@ != key {
        lemma_first_with_key_props(es.drop_first(), key);
        assert forall|j: int| 0 <= j < first_with_key(es, key) implies es[j].key@ != key by {
            if j > 0 {
                assert(es[j] == es.drop_first()[j - 1]);
            }
        }
    }
}

/// The value read as a boolean: `true` or `false`, with whitespace around it allowed.
pub open spec fn spec_as_boolean(content: Seq<char>) -> Result<bool, ValueBoolError> {
    if trim(content) == seq!['t', 'r', 'u', 'e'] {
        Ok(true)
    } else if trim(content) == seq!['f', 'a', 'l', 's', 'e'] {
        Ok(false)
    } else {
        Err(ValueBoolError::NotABoolean)
    }
}

/// The value read as a string: it is trimmed, and must be ASCII without control
/// characters.
pub open spec fn spec_as_string(content: Seq<char>) -> Result<Seq<char>, ValueStringError> {
    let t = trim(content);
    if !all_ascii(t) {
        Err(ValueStringError::NotASCII)
    } else if any_control(t) {
        Err(ValueStringError::ControlCharacters)
    } else {
        Ok(t)
    }
}

impl EntryValue {
    /// Try to regard the entry value as a boolean.
    pub fn as_boolean(self) -> (r: Result<bool, ValueBoolError>)
        ensures
            r == spec_as_boolean(self.content@),
    {
        let v = chars_of(self.content.as_str());
        let lo = skip_ws(&v, 0, v.len());
        let hi = skip_ws_back(&v, lo, v.len());
        let ghost t = v@.subrange(lo as int, hi as int);
        proof {
            assert(v@.subrange(0, v@.len() as int) =~= v@);
            assert(trim(v@) == t);
        }
        if hi - lo == 4 && v[lo] == 't' && v[lo + 1] == 'r' && v[lo + 2] == 'u' && v[lo + 3] == 'e' {
            assert(t =~= seq!['t', 'r', 'u', 'e']);
            Ok(true)
        } else if hi - lo == 5 && v[lo] == 'f' && v[lo + 1] == 'a' && v[lo + 2] == 'l' && v[lo + 3]
            == 's' && v[lo + 4] == 'e' {
            assert(t =~= seq!['f', 'a', 'l', 's', 'e']);
            assert(t != seq!['t', 'r', 'u', 'e']);
            Ok(false)
        } else {
            assert(t != seq!['t', 'r', 'u', 'e']) by {
                if t =~= seq!['t', 'r', 'u', 'e'] {
                    assert(t[0] == v@[lo as int]);
                }
            }
            assert(t != seq!['f', 'a', 'l', 's', 'e']) by {
                if t =~= seq!['f', 'a', 'l', 's', 'e'] {
                    assert(t[0] == v@[lo as int]);
                }
            }
            Err(ValueBoolError::NotABoolean)
        }
    }

    /// Try to regard the entry value as a string.
    pub fn as_string(self) -> (r: Result<String, ValueStringError>)
        ensures
            string_result(r) == spec_as_string(self.content@),
    {
        let v = chars_of(self.content.as_str());
        let lo = skip_ws(&v, 0, v.len());
        let hi = skip_ws_back(&v, lo, v.len());
        proof {
            assert(v@.subrange(0, v@.len() as int) =~= v@);
        }
        if !all_ascii_range(&v, lo, hi) {
            return Err(ValueStringError::NotASCII);
        }
        if any_control_range(&v, lo, hi) {
            return Err(ValueStringError::ControlCharacters);
        }
        Ok(string_of(&v, lo, hi))
    }

    /// Try to regard the entry value as a locale string: the value, trimmed.
    pub fn as_localestring(self) -> (s: String)
        ensures
            s@ == trim(self.content@),
    {
        let v = chars_of(self.content.as_str());
        let lo = skip_ws(&v, 0, v.len());
        let hi = skip_ws_back(&v, lo, v.len());
        proof {
            assert(v@.subrange(0, v@.len() as int) =~= v@);
        }
        string_of(&v, lo, hi)
    }
}

} // verus!
