//! Splitting a text into lines, as `str::lines` does, and a cursor over those lines.
use vstd::prelude::*;

use crate::text::{chars_of, copy_range, ends_with, first_index_of, lemma_first_index_of, lemma_first_index_of_props};

verus! {

/// A line with a trailing carriage return removed.
pub open spec fn strip_cr(l: Seq<char>) -> Seq<char> {
    if ends_with(l, '\r') {
        l.drop_last()
    } else {
        l
    }
}

/// The lines of `s`, as `str::lines` gives them: `s` is split at each `'\n'`, a `'\r'`
/// that stands right before a `'\n'` is dropped, and a final line ending does not start
/// another (empty) line.
pub open spec fn spec_lines(s: Seq<char>) -> Seq<Seq<char>>
    decreases s.len(),
{
    if s.len() == 0 {
        seq![]
    } else {
        let e = first_index_of(s, '\n');
        if e >= s.len() {
            seq![s]
        } else {
            proof {
                lemma_first_index_of_props(s, '\n');
            }
            seq![strip_cr(s.take(e))] + spec_lines(s.skip(e + 1))
        }
    }
}

/// A cursor over the lines of a text: its view is the sequence of lines that are
/// still to come.
pub struct Lines {
    lines: Vec<Vec<char>>,
    pos: usize,
}

impl Lines {
    #[verifier::type_invariant]
    spec fn inv(&self) -> bool {
        self.pos <= self.lines.len()
    }

    /// Every line of the text, those already passed included.
    pub closed spec fn all_lines(&self) -> Seq<Seq<char>> {
        self.lines.deep_view()
    }

    /// How many lines have been passed.
    pub closed spec fn position(&self) -> nat {
        self.pos as nat
    }
}

impl View for Lines {
    type V = Seq<Seq<char>>;

    closed spec fn view(&self) -> Seq<Seq<char>> {
        self.lines.deep_view().skip(self.pos as int)
    }
}

impl Lines {
    /// The lines of `text`, from the first.
    pub fn new(text: &str) -> (l: Lines)
        ensures
            l@ == spec_lines(text@),
            l.position() == 0,
            l.all_lines() == spec_lines(text@),
    {
        let v = chars_of(text);
        let mut lines: Vec<Vec<char>> = Vec::new();
        let mut start: usize = 0;
        let mut i: usize = 0;
        assert(v@.skip(0) =~= v@);
        assert(lines.deep_view() + spec_lines(v@) =~= spec_lines(v@));
        while i < v.len()
            invariant
                0 <= start <= i <= v.len(),
                v@ == text@,
                forall|j: int| start <= j < i ==> v@[j] != '\n',
                lines.deep_view() + spec_lines(v@.skip(start as int)) == spec_lines(v@),
            decreases v.len() - i,
        {
            if v[i] == '\n' {
                let mut end = i;
                if end > start && v[end - 1] == '\r' {
                    end = end - 1;
                }
                let line = copy_range(&v, start, end);
                proof {
                    let rest = v@.skip(start as int);
                    lemma_first_index_of(rest, '\n', i - start);
                    assert(rest.take(i - start) =~= v@.subrange(start as int, i as int));
                    assert(rest.skip(i - start + 1) =~= v@.skip(i + 1));
                    assert(strip_cr(v@.subrange(start as int, i as int)) =~= line@);
                    assert(spec_lines(rest) == seq![line@] + spec_lines(v@.skip(i + 1)));
                    assert(lines.deep_view().push(line@) + spec_lines(v@.skip(i + 1))
                        =~= lines.deep_view() + spec_lines(rest));
                }
                let ghost before = lines.deep_view();
                lines.push(line);
                proof {
                    assert(line.deep_view() =~= line@);
                    assert(lines.deep_view() =~= before.push(line@));
                }
                start = i + 1;
            }
            i += 1;
        }
        if start < v.len() {
            let line = copy_range(&v, start, v.len());
            proof {
                let rest = v@.skip(start as int);
                lemma_first_index_of(rest, '\n', rest.len() as int);
                assert(rest =~= line@);
            }
            let ghost before = lines.deep_view();
            lines.push(line);
            proof {
                assert(line.deep_view() =~= line@);
                assert(lines.deep_view() =~= before.push(line@));
            }
        } else {
            assert(v@.skip(start as int).len() == 0);
        }
        assert(lines.deep_view() =~= spec_lines(v@));
        Lines { lines, pos: 0 }
    }
}

impl Lines {
    /// How many lines are still to come.
    pub fn len(&self) -> (n: usize)
        ensures
            n == self@.len(),
    {
        proof {
            use_type_invariant(self);
        }
        self.lines.len() - self.pos
    }

    /// Whether no line is left.
    pub fn is_empty(&self) -> (b: bool)
        ensures
            b == (self@.len() == 0),
    {
        self.len() == 0
    }

    /// The next line, without moving past it.
    pub fn peek(&self) -> (l: &Vec<char>)
        requires
            self@.len() > 0,
        ensures
            l@ == self@[0],
    {
        proof {
            use_type_invariant(self);
            assert(self.lines@[self.pos as int].deep_view() =~= self.lines@[self.pos as int]@);
        }
        &self.lines[self.pos]
    }

    /// Moves past the next line.
    pub fn advance(&mut self)
        requires
            old(self)@.len() > 0,
        ensures
            final(self)@ == old(self)@.drop_first(),
            final(self).all_lines() == old(self).all_lines(),
            final(self).position() == old(self).position() + 1,
    {
        proof {
            use_type_invariant(&*self);
        }
        self.pos = self.pos + 1;
        assert(self.lines.deep_view().skip(self.pos as int) =~= old(self)@.drop_first());
    }

    /// A mark of the current place, to come back to with `reset`.
    pub fn mark(&self) -> (m: usize)
        ensures
            m == self.position(),
            self@ == self.all_lines().skip(m as int),
    {
        self.pos
    }

    /// Goes back to a place that was marked earlier.
    pub fn reset(&mut self, m: usize)
        requires
            m <= old(self).position(),
        ensures
            final(self)@ == old(self).all_lines().skip(m as int),
            final(self).all_lines() == old(self).all_lines(),
            final(self).position() == m,
    {
        proof {
            use_type_invariant(&*self);
        }
        self.pos = m;
    }
}

} // verus!
