//! What reading a written file gives back: the groups that were written, as long as
//! each of them can be written in a form that reads the same.
use vstd::prelude::*;

use crate::entry::{EntryModel, GroupModel};
use crate::lines::{spec_lines, strip_cr};
use crate::spec::{
    after, is_blank, spec_entry_line, spec_group_header, spec_parse, spec_parse_entries,
    spec_parse_entry, spec_parse_group, spec_parse_more_groups, split_locale, valid_key,
};
use crate::text::{
    all_ascii, any_control, ends_with, first_index_of, is_ws, lemma_first_index_of,
    lemma_first_index_of_append, lemma_first_index_of_props, starts_with, trim, trim_end,
    trim_start,
};
use crate::writer::{document_text, entries_text, entry_text, group_text};

verus! {

/// A group name that reads back from its `[name]` header.
pub open spec fn writable_name(n: Seq<char>) -> bool {
    &&& all_ascii(n)
    &&& !n.contains('[')
    &&& !n.contains(']')
    &&& !any_control(n)
}

/// An entry whose line reads back as the same entry: a valid key that holds no `=` and
/// no line break and does not end with whitespace; no `]` at its end unless a locale
/// follows, and then no `[` in it; a locale without `=` and line breaks; a value
/// without line breaks, without whitespace at its start, and not ending with `\` or a
/// carriage return.
pub open spec fn writable_entry(e: EntryModel) -> bool {
    &&& valid_key(e.key)
    &&& !e.key.contains('=')
    &&& !e.key.contains('\n')
    &&& e.key.len() > 0 ==> !is_ws(e.key.last())
    &&& match e.locale {
        None => !ends_with(e.key, ']'),
        Some(l) => {
            &&& e.key.len() > 0
            &&& !e.key.contains('[')
            &&& !l.contains('=')
            &&& !l.contains('\n')
        },
    }
    &&& !e.value.contains('\n')
    &&& e.value.len() > 0 ==> !is_ws(e.value[0])
    &&& !ends_with(e.value, '\\')
    &&& !ends_with(e.value, '\r')
}

/// A group that reads back from what `to_string` writes: a writable name, writable
/// entries, and a last value that does not end with whitespace (the written group is
/// trimmed).
pub open spec fn writable_group(g: GroupModel) -> bool {
    &&& writable_name(g.name)
    &&& forall|i: int| 0 <= i < g.entries.len() ==> writable_entry(#[trigger] g.entries[i])
    &&& g.entries.len() > 0 ==> !(g.entries.last().value.len() > 0 && is_ws(
        g.entries.last().value.last(),
    ))
}

/// The line of an entry without its line break.
pub open spec fn entry_line(e: EntryModel) -> Seq<char> {
    e.key + match e.locale {
        Some(l) => seq!['['] + l + seq![']'],
        None => seq![],
    } + seq!['='] + e.value
}

pub open spec fn header_line(name: Seq<char>) -> Seq<char> {
    seq!['['] + name + seq![']']
}

pub open spec fn entries_lines(es: Seq<EntryModel>) -> Seq<Seq<char>> {
    es.map_values(|e: EntryModel| entry_line(e))
}

/// The lines that a written group takes: its header, its entries and one empty line,
/// or two when it has no entries.
pub open spec fn block_lines(g: GroupModel) -> Seq<Seq<char>> {
    seq![header_line(g.name)] + entries_lines(g.entries) + if g.entries.len() == 0 {
        seq![seq![], seq![]]
    } else {
        seq![seq![]]
    }
}

pub open spec fn document_lines(gs: Seq<GroupModel>) -> Seq<Seq<char>>
    decreases gs.len(),
{
    if gs.len() == 0 {
        seq![]
    } else {
        document_lines(gs.drop_last()) + block_lines(gs.last())
    }
}

// Splitting concatenations into lines.
/// Text that ends with a line break splits into lines apart from what follows it.
proof fn lemma_lines_append(a: Seq<char>, b: Seq<char>)
    requires
        ends_with(a, '\n'),
    ensures
        spec_lines(a + b) == spec_lines(a) + spec_lines(b),
    decreases a.len(),
{
    lemma_first_index_of_props(a, '\n');
    let e = first_index_of(a, '\n');
    let s = a + b;
    assert(e < a.len()) by {
        if e >= a.len() {
            assert(a[a.len() - 1] == '\n');
        }
    }
    assert forall|j: int| 0 <= j < e implies s[j] != '\n' by {
        assert(s[j] == a[j]);
    }
    assert(s[e] == a[e]);
    lemma_first_index_of(s, '\n', e);
    assert(s.take(e) =~= a.take(e));
    assert(s.skip(e + 1) =~= a.skip(e + 1) + b);
    if e + 1 == a.len() {
        assert(a.skip(e + 1) =~= Seq::<char>::empty());
        assert(a.skip(e + 1) + b =~= b);
        assert(spec_lines(a.skip(e + 1)) =~= Seq::<Seq<char>>::empty());
        assert(spec_lines(a) =~= seq![strip_cr(a.take(e))]);
    } else {
        let a2 = a.skip(e + 1);
        assert(a2.last() == a.last());
        lemma_lines_append(a2, b);
        assert(spec_lines(a + b) =~= seq![strip_cr(a.take(e))] + spec_lines(a2) + spec_lines(b));
    }
}

/// A line without line breaks, and not ending with a carriage return, followed by a
/// line break, is that one line.
proof fn lemma_one_line(l: Seq<char>)
    requires
        !l.contains('\n'),
        !ends_with(l, '\r'),
    ensures
        spec_lines(l.push('\n')) == seq![l],
{
    let s = l.push('\n');
    assert forall|j: int| 0 <= j < l.len() implies s[j] != '\n' by {
        assert(s[j] == l[j]);
        if s[j] == '\n' {
            assert(l.contains('\n'));
        }
    }
    lemma_first_index_of(s, '\n', l.len() as int);
    assert(s.take(l.len() as int) =~= l);
    assert(s.skip((l.len() + 1) as int) =~= Seq::<char>::empty());
    assert(spec_lines(Seq::<char>::empty()) =~= Seq::<Seq<char>>::empty());
    assert(spec_lines(s) =~= seq![l]);
}

proof fn lemma_entry_text(e: EntryModel)
    ensures
        entry_text(e) == entry_line(e).push('\n'),
{
    assert(entry_text(e) =~= entry_line(e).push('\n'));
}

proof fn lemma_entry_line_ok(e: EntryModel)
    requires
        writable_entry(e),
    ensures
        !entry_line(e).contains('\n'),
        !ends_with(entry_line(e), '\r'),
        entry_line(e).len() > 0,
        !is_ws(entry_line(e)[0]),
        !is_ws(entry_line(e).last()) || (e.value.len() > 0 && is_ws(e.value.last())),
{
    let l = entry_line(e);
    let loc = match e.locale {
        Some(x) => seq!['['] + x + seq![']'],
        None => seq![],
    };
    assert(l =~= e.key + loc + seq!['='] + e.value);
    let kl: int = (e.key.len() + loc.len()) as int;
    assert(l[kl] == '=');
    assert forall|j: int| 0 <= j < l.len() implies l[j] != '\n' by {
        if j < e.key.len() {
            assert(l[j] == e.key[j]);
            if l[j] == '\n' {
                assert(e.key.contains('\n'));
            }
        } else if j < kl {
            if let Some(x) = e.locale {
                if j > e.key.len() && j < kl - 1 {
                    assert(l[j] == x[j - e.key.len() - 1]);
                    if l[j] == '\n' {
                        assert(x.contains('\n'));
                    }
                }
            }
        } else if j > kl {
            assert(l[j] == e.value[j - kl - 1]);
            if l[j] == '\n' {
                assert(e.value.contains('\n'));
            }
        }
    }
    if e.value.len() > 0 {
        assert(l.last() == e.value.last());
    } else {
        assert(l.last() == '=');
    }
    lemma_key_start(e);
}

/// The first character of an entry's line is not whitespace: a key starts with a key
/// character or `/`, and an empty key leaves the `=` in front.
proof fn lemma_key_start(e: EntryModel)
    requires
        writable_entry(e),
    ensures
        entry_line(e).len() > 0,
        !is_ws(entry_line(e)[0]),
        entry_line(e)[0] != '#',
        entry_line(e)[0] != '[',
{
    let l = entry_line(e);
    let loc = match e.locale {
        Some(x) => seq!['['] + x + seq![']'],
        None => seq![],
    };
    assert(l =~= e.key + loc + seq!['='] + e.value);
    if e.key.len() > 0 {
        assert(l[0] == e.key[0]);
        lemma_first_index_of_props(e.key, '/');
        let sl = first_index_of(e.key, '/');
        if sl > 0 {
            assert(crate::spec::is_key_char(e.key[0]));
        } else {
            assert(e.key[0] == '/');
        }
    } else {
        assert(loc.len() == 0);
        assert(l[0] == '=');
    }
}

pub proof fn lemma_entries_text_lines(es: Seq<EntryModel>)
    requires
        forall|i: int| 0 <= i < es.len() ==> writable_entry(#[trigger] es[i]),
    ensures
        spec_lines(entries_text(es)) == entries_lines(es),
        es.len() > 0 ==> ends_with(entries_text(es), '\n'),
        es.len() > 0 ==> entries_text(es)[0] == entry_line(es[0])[0],
        es.len() > 0 ==> entries_text(es).drop_last() == entries_text(es.drop_last()) + entry_line(
            es.last(),
        ),
    decreases es.len(),
{
    if es.len() > 0 {
        let init = es.drop_last();
        let e = es.last();
        assert(writable_entry(e));
        assert forall|i: int| 0 <= i < init.len() implies writable_entry(#[trigger] init[i]) by {
            assert(init[i] == es[i]);
        }
        lemma_entries_text_lines(init);
        lemma_entry_text(e);
        lemma_entry_line_ok(e);
        lemma_one_line(entry_line(e));
        if init.len() > 0 {
            lemma_lines_append(entries_text(init), entry_text(e));
            assert(init[0] == es[0]);
        } else {
            assert(entries_text(init) =~= Seq::<char>::empty());
            assert(entries_text(es) =~= entry_text(e));
        }
        assert(entries_text(es).drop_last() =~= entries_text(init) + entry_line(e));
        assert(entries_lines(es) =~= entries_lines(init) + seq![entry_line(e)]);
    }
}

proof fn lemma_trim_start_same(s: Seq<char>)
    requires
        s.len() > 0,
        !is_ws(s[0]),
    ensures
        trim_start(s) == s,
{
}

proof fn lemma_trim_end_same(s: Seq<char>)
    requires
        s.len() > 0,
        !is_ws(s.last()),
    ensures
        trim_end(s) == s,
{
}

/// A written group's entries, trimmed, are its entry lines without the final line
/// break.
proof fn lemma_group_text(g: GroupModel)
    requires
        writable_group(g),
        g.entries.len() > 0,
    ensures
        group_text(g) == entries_text(g.entries).drop_last(),
{
    let es = g.entries;
    let t = entries_text(es);
    lemma_entries_text_lines(es);
    assert(writable_entry(es[0]));
    assert(writable_entry(es.last()));
    lemma_entry_line_ok(es[0]);
    lemma_entry_line_ok(es.last());
    lemma_trim_start_same(t);
    let u = t.drop_last();
    assert(is_ws(t.last()));
    assert(trim_end(t) == trim_end(u));
    let l = entry_line(es.last());
    assert(u.last() == l.last());
    lemma_trim_end_same(u);
}

/// The lines of a written group.
proof fn lemma_block_text_lines(g: GroupModel)
    requires
        writable_group(g),
    ensures
        spec_lines(seq!['['] + g.name + seq![']', '\n'] + group_text(g) + seq!['\n', '\n'])
            == block_lines(g),
{
    let hdr = header_line(g.name);
    let text = seq!['['] + g.name + seq![']', '\n'] + group_text(g) + seq!['\n', '\n'];
    assert(!hdr.contains('\n')) by {
        if hdr.contains('\n') {
            let j = choose|j: int| 0 <= j < hdr.len() && hdr[j] == '\n';
            assert(g.name[j - 1] == hdr[j]);
            assert(any_control(g.name));
        }
    }
    lemma_one_line(hdr);
    let nl = seq!['\n'];
    assert(spec_lines(nl) == seq![Seq::<char>::empty()]) by {
        lemma_one_line(Seq::<char>::empty());
        assert(Seq::<char>::empty().push('\n') =~= nl);
    }
    if g.entries.len() == 0 {
        assert(entries_text(g.entries) =~= Seq::<char>::empty());
        assert(group_text(g) =~= Seq::<char>::empty());
        assert(text =~= hdr.push('\n') + (nl + nl));
        lemma_lines_append(hdr.push('\n'), nl + nl);
        lemma_lines_append(nl, nl);
        assert(entries_lines(g.entries) =~= Seq::<Seq<char>>::empty());
        assert(block_lines(g) =~= seq![hdr] + seq![Seq::<char>::empty(), Seq::<char>::empty()]);
    } else {
        lemma_group_text(g);
        let t = entries_text(g.entries);
        lemma_entries_text_lines(g.entries);
        assert(t.drop_last().push('\n') =~= t);
        assert(text =~= hdr.push('\n') + (t + nl));
        lemma_lines_append(hdr.push('\n'), t + nl);
        lemma_lines_append(t, nl);
        assert(block_lines(g) =~= seq![hdr] + entries_lines(g.entries) + seq![
            Seq::<char>::empty(),
        ]);
    }
}

pub proof fn lemma_document_lines(gs: Seq<GroupModel>)
    requires
        forall|i: int| 0 <= i < gs.len() ==> writable_group(#[trigger] gs[i]),
    ensures
        spec_lines(document_text(gs)) == document_lines(gs),
        gs.len() > 0 ==> ends_with(document_text(gs), '\n'),
    decreases gs.len(),
{
    if gs.len() > 0 {
        let init = gs.drop_last();
        let g = gs.last();
        assert(writable_group(g));
        assert forall|i: int| 0 <= i < init.len() implies writable_group(#[trigger] init[i]) by {
            assert(init[i] == gs[i]);
        }
        lemma_document_lines(init);
        lemma_block_text_lines(g);
        let block = seq!['['] + g.name + seq![']', '\n'] + group_text(g) + seq!['\n', '\n'];
        assert(document_text(gs) =~= document_text(init) + block);
        if init.len() > 0 {
            lemma_lines_append(document_text(init), block);
        } else {
            assert(document_text(init) + block =~= block);
            assert(document_lines(init) + block_lines(g) =~= block_lines(g));
        }
    }
}

// Reading the lines back.
proof fn lemma_entry_line_parses(e: EntryModel)
    requires
        writable_entry(e),
    ensures
        spec_entry_line(entry_line(e)) == Ok::<_, crate::error::EntryParseError>(
            (e.locale, e.key, e.value),
        ),
{
    let l = entry_line(e);
    let loc = match e.locale {
        Some(x) => seq!['['] + x + seq![']'],
        None => seq![],
    };
    let kl = e.key + loc;
    assert(l =~= kl + (seq!['='] + e.value));
    lemma_key_start(e);
    lemma_trim_start_same(l);
    assert(!kl.contains('=')) by {
        if kl.contains('=') {
            let j = choose|j: int| 0 <= j < kl.len() && kl[j] == '=';
            if j < e.key.len() {
                assert(e.key[j] == '=');
            } else if let Some(x) = e.locale {
                assert(x[j - e.key.len() - 1] == '=');
            }
        }
    }
    lemma_first_index_of_append(kl, seq!['='] + e.value, '=');
    let eq = first_index_of(l, '=');
    assert(eq == kl.len());
    assert(l.skip(eq + 1) =~= e.value);
    if e.value.len() > 0 {
        lemma_trim_start_same(e.value);
    }
    assert(l.take(eq) =~= kl);
    match e.locale {
        None => {
            assert(kl =~= e.key);
            if e.key.len() > 0 {
                lemma_trim_end_same(e.key);
            }
            assert(split_locale(trim_end(kl)) == Some((e.key, None::<Seq<char>>)));
        },
        Some(x) => {
            assert(kl.last() == ']');
            lemma_trim_end_same(kl);
            assert(kl =~= e.key + (seq!['['] + x + seq![']']));
            lemma_first_index_of_append(e.key, seq!['['] + x + seq![']'], '[');
            let lb = first_index_of(kl, '[');
            assert(lb == e.key.len());
            assert(kl.take(lb) =~= e.key);
            lemma_trim_end_same(e.key);
            assert(kl.subrange(lb + 1, kl.len() - 1) =~= x);
        },
    }
}

proof fn lemma_entry_parses(e: EntryModel, rest: Seq<Seq<char>>)
    requires
        writable_entry(e),
    ensures
        spec_parse_entry(seq![entry_line(e)] + rest) == (
            Ok::<EntryModel, crate::error::EntryParseError>(e),
            1nat,
        ),
{
    let lines = seq![entry_line(e)] + rest;
    assert(lines[0] == entry_line(e));
    lemma_entry_line_parses(e);
}

/// Reading entries stops, taking nothing, at the end or at a line that starts with `[`.
proof fn lemma_entries_stop(rest: Seq<Seq<char>>)
    requires
        rest.len() == 0 || starts_with(rest[0], '['),
    ensures
        spec_parse_entries(rest) == (
            Ok::<Seq<EntryModel>, (crate::error::EntryParseError, nat)>(seq![]),
            0nat,
        ),
{
    if rest.len() > 0 {
        lemma_trim_start_same(rest[0]);
    }
}

/// An empty line is passed over.
proof fn lemma_entries_empty_line(rest: Seq<Seq<char>>)
    ensures
        spec_parse_entries(seq![Seq::<char>::empty()] + rest) == after(
            seq![],
            1,
            spec_parse_entries(rest),
        ),
{
    let lines = seq![Seq::<char>::empty()] + rest;
    assert(lines[0] =~= Seq::<char>::empty());
    assert(lines.skip(1) =~= rest);
}

proof fn lemma_entries_parse(es: Seq<EntryModel>, tail: Seq<Seq<char>>)
    requires
        forall|i: int| 0 <= i < es.len() ==> writable_entry(#[trigger] es[i]),
    ensures
        spec_parse_entries(entries_lines(es) + tail) == after(
            es,
            es.len(),
            spec_parse_entries(tail),
        ),
    decreases es.len(),
{
    if es.len() == 0 {
        assert(entries_lines(es) + tail =~= tail);
        crate::spec::lemma_after_nothing(spec_parse_entries(tail));
    } else {
        let e = es[0];
        let more = es.drop_first();
        assert(writable_entry(e));
        assert forall|i: int| 0 <= i < more.len() implies writable_entry(#[trigger] more[i]) by {
            assert(more[i] == es[i + 1]);
        }
        let lines = entries_lines(es) + tail;
        let rest = entries_lines(more) + tail;
        assert(lines =~= seq![entry_line(e)] + rest);
        lemma_entry_parses(e, rest);
        assert(lines.skip(1) =~= rest);
        lemma_entries_parse(more, tail);
        crate::spec::lemma_after_after(seq![e], 1, more, more.len(), spec_parse_entries(tail));
        assert(seq![e] + more =~= es);
    }
}

proof fn lemma_block_first(g: GroupModel, rest: Seq<Seq<char>>)
    ensures
        (block_lines(g) + rest)[0] == header_line(g.name),
        (block_lines(g) + rest).len() > 0,
{
}

/// A written group reads back as itself, up to the next header or the end.
proof fn lemma_group_parses(g: GroupModel, rest: Seq<Seq<char>>, line_nr: int)
    requires
        writable_group(g),
        rest.len() == 0 || starts_with(rest[0], '['),
    ensures
        spec_parse_group(block_lines(g) + rest, line_nr) == (
            Ok::<(GroupModel, int), (crate::error::GroupParseError, int)>(
                (g, line_nr + block_lines(g).len()),
            ),
            block_lines(g).len(),
        ),
{
    let lines = block_lines(g) + rest;
    let hdr = header_line(g.name);
    lemma_block_first(g, rest);
    lemma_trim_start_same(hdr);
    lemma_trim_end_same(hdr);
    assert(!is_blank(lines[0]));
    crate::spec::lemma_leading_blank(lines, 0);
    assert(trim(hdr) == hdr);
    let name = hdr.subrange(1, hdr.len() - 1);
    assert(name =~= g.name);
    assert(spec_group_header(hdr) == Ok::<Seq<char>, crate::error::GroupHeaderParseError>(g.name));
    let es = g.entries;
    let blanks: Seq<Seq<char>> = if es.len() == 0 {
        seq![seq![], seq![]]
    } else {
        seq![seq![]]
    };
    assert(lines.skip(1) =~= entries_lines(es) + (blanks + rest));
    lemma_entries_parse(es, blanks + rest);
    lemma_entries_stop(rest);
    if es.len() == 0 {
        assert(blanks + rest =~= seq![Seq::<char>::empty()] + (seq![Seq::<char>::empty()] + rest));
        lemma_entries_empty_line(seq![Seq::<char>::empty()] + rest);
        lemma_entries_empty_line(rest);
        crate::spec::lemma_after_after(seq![], 1, seq![], 1, spec_parse_entries(rest));
    } else {
        assert(blanks + rest =~= seq![Seq::<char>::empty()] + rest);
        lemma_entries_empty_line(rest);
    }
    assert(es + Seq::<EntryModel>::empty() =~= es);
    assert(Seq::<EntryModel>::empty() + Seq::<EntryModel>::empty() =~= Seq::<EntryModel>::empty());
}

proof fn lemma_document_lines_front(gs: Seq<GroupModel>)
    requires
        gs.len() > 0,
    ensures
        document_lines(gs) == block_lines(gs[0]) + document_lines(gs.drop_first()),
    decreases gs.len(),
{
    if gs.len() == 1 {
        assert(gs.drop_first() =~= Seq::<GroupModel>::empty());
        assert(gs.drop_last() =~= Seq::<GroupModel>::empty());
        assert(document_lines(gs.drop_last()) =~= Seq::<Seq<char>>::empty());
        assert(gs.last() == gs[0]);
        assert(document_lines(gs) =~= block_lines(gs[0]));
        assert(block_lines(gs[0]) + Seq::<Seq<char>>::empty() =~= block_lines(gs[0]));
    } else {
        let init = gs.drop_last();
        lemma_document_lines_front(init);
        assert(init.drop_first() =~= gs.drop_first().drop_last());
        assert(gs.drop_first().last() == gs.last());
        assert(init[0] == gs[0]);
        assert(document_lines(gs) =~= block_lines(gs[0]) + document_lines(gs.drop_first()));
    }
}

#[verifier::rlimit(60)]
proof fn lemma_more_groups_parse(gs: Seq<GroupModel>, line_nr: int)
    requires
        forall|i: int| 0 <= i < gs.len() ==> writable_group(#[trigger] gs[i]),
    ensures
        spec_parse_more_groups(document_lines(gs), line_nr) == Ok::<
            Seq<GroupModel>,
            (crate::error::GroupParseError, int),
        >(gs),
    decreases gs.len(),
{
    if gs.len() == 0 {
        assert(document_lines(gs) =~= Seq::<Seq<char>>::empty());
        assert(gs =~= Seq::<GroupModel>::empty());
    } else {
        let g = gs[0];
        let more = gs.drop_first();
        assert(writable_group(g));
        assert forall|i: int| 0 <= i < more.len() implies writable_group(#[trigger] more[i]) by {
            assert(more[i] == gs[i + 1]);
        }
        lemma_document_lines_front(gs);
        let rest = document_lines(more);
        if more.len() > 0 {
            lemma_document_lines_front(more);
            lemma_block_first(more[0], document_lines(more.drop_first()));
        }
        lemma_group_parses(g, rest, line_nr);
        let lines = document_lines(gs);
        let n = block_lines(g).len();
        assert(lines.skip(n as int) =~= rest);
        lemma_more_groups_parse(more, line_nr + n);
        assert(seq![g] + more =~= gs);
    }
}

/// Reading what `DesktopEntry::to_string` writes gives back the groups that were
/// written, when there is at least one and each of them is writable.
#[verifier::rlimit(60)]
pub proof fn law_parse_after_write(gs: Seq<GroupModel>)
    requires
        gs.len() > 0,
        forall|i: int| 0 <= i < gs.len() ==> writable_group(#[trigger] gs[i]),
    ensures
        spec_parse(document_text(gs)) == Ok::<Seq<GroupModel>, (crate::error::GroupParseError, int)>(
            gs,
        ),
{
    lemma_document_lines(gs);
    lemma_document_lines_front(gs);
    let g = gs[0];
    let more = gs.drop_first();
    assert forall|i: int| 0 <= i < more.len() implies writable_group(#[trigger] more[i]) by {
        assert(more[i] == gs[i + 1]);
    }
    let rest = document_lines(more);
    if more.len() > 0 {
        lemma_document_lines_front(more);
        lemma_block_first(more[0], document_lines(more.drop_first()));
    }
    lemma_group_parses(g, rest, 0);
    let n = block_lines(g).len();
    assert(document_lines(gs).skip(n as int) =~= rest);
    lemma_more_groups_parse(more, n as int);
    assert(seq![g] + more =~= gs);
}

} // verus!
