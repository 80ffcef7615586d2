//! The community file: one `node community_label` pair per line.

use vstd::prelude::*;
use crate::edges::{line_end, lemma_find_char_shift};
use crate::partition::{Assignment, assignments_view};
use crate::text::{
    char_in, first_two_words, is_ws, lemma_first_from_unique, non_ws_in, is_whitespace, lemma_first_from, skip_whitespace, skip_ws,
    find_char_at, two_words, string_of, chars_of, concat3, debug_quote, debug_text,
};

verus! {

/// The end of `l[..j]` once trailing whitespace is cut off.
pub open spec fn trim_end(l: Seq<char>, j: int) -> int
    decreases j,
{
    if j > 0 && is_ws(l[j - 1]) {
        trim_end(l, j - 1)
    } else {
        j
    }
}

/// A line with its leading and trailing whitespace cut off.
pub open spec fn trimmed(l: Seq<char>) -> Seq<char> {
    l.subrange(skip_ws(l, 0), trim_end(l, l.len() as int))
}

/// What one line of a community file gives.
pub enum LineRecord {
    /// A blank line, or one whose first non-blank character is `#`.
    Skip,
    /// A line's first two words: a node and its community label.
    Record(Assignment),
    /// A line with a single word; it carries the trimmed line.
    Malformed(Seq<char>),
}

/// What line `l` of a community file gives.
pub open spec fn line_record(l: Seq<char>) -> LineRecord {
    let a = skip_ws(l, 0);
    if a >= l.len() || l[a] == '#' {
        LineRecord::Skip
    } else {
        match first_two_words(l) {
            Some(p) => LineRecord::Record(p),
            None => LineRecord::Malformed(trimmed(l)),
        }
    }
}

/// `r` with the records `done` put in front of its records.
pub open spec fn after(done: Seq<Assignment>, r: Result<Seq<Assignment>, Seq<char>>) -> Result<
    Seq<Assignment>,
    Seq<char>,
> {
    match r {
        Ok(rest) => Ok(done + rest),
        Err(l) => Err(l),
    }
}

/// The records of the lines from index `i` on, or the first malformed line.
pub open spec fn records_from(s: Seq<char>, i: int) -> Result<Seq<Assignment>, Seq<char>>
    decreases s.len() + 1 - i,
{
    if 0 <= i < s.len() {
        proof {
            lemma_first_from(char_in(s, '\n'), i, s.len() as int);
        }
        let e = line_end(s, i);
        match line_record(s.subrange(i, e)) {
            LineRecord::Skip => records_from(s, e + 1),
            LineRecord::Record(p) => after(seq![p], records_from(s, e + 1)),
            LineRecord::Malformed(l) => Err(l),
        }
    } else {
        Ok(seq![])
    }
}

/// The assignments that a community file gives, or its first malformed line.
pub open spec fn community_records(s: Seq<char>) -> Result<Seq<Assignment>, Seq<char>> {
    records_from(s, 0)
}

/// Cutting trailing whitespace off `l[..j]` keeps every character up to a
/// non-whitespace one at `k < j`.
pub proof fn lemma_trim_end(l: Seq<char>, j: int, k: int)
    requires
        0 <= k < j <= l.len(),
        !is_ws(l[k]),
    ensures
        k < trim_end(l, j) <= j,
    decreases j,
{
    if is_ws(l[j - 1]) {
        lemma_trim_end(l, j - 1, k);
    }
}

/// The records of some lines followed by those of more lines: the first
/// malformed line wins.
pub open spec fn then(r1: Result<Seq<Assignment>, Seq<char>>, r2: Result<Seq<Assignment>, Seq<char>>) -> Result<
    Seq<Assignment>,
    Seq<char>,
> {
    match r1 {
        Ok(x) => after(x, r2),
        Err(l) => Err(l),
    }
}

/// The lines of `a + b` from inside `b` on give what the lines of `b` give
/// from there on.
pub proof fn lemma_records_shift(a: Seq<char>, b: Seq<char>, j: int)
    requires
        0 <= j,
    ensures
        records_from(a + b, a.len() + j) == records_from(b, j),
    decreases b.len() + 1 - j,
{
    if j < b.len() {
        let s = a + b;
        lemma_find_char_shift(a, b, j, '\n');
        let e = line_end(b, j);
        lemma_first_from(char_in(b, '\n'), j, b.len() as int);
        assert(s.subrange(a.len() + j, a.len() + e) =~= b.subrange(j, e));
        lemma_records_shift(a, b, e + 1);
    }
}

/// Whole lines followed by more text give their own records, then the
/// text's.
pub proof fn lemma_records_concat(s: Seq<char>, t: Seq<char>, i: int)
    requires
        s.len() == 0 || s.last() == '\n',
        0 <= i <= s.len(),
    ensures
        records_from(s + t, i) == then(records_from(s, i), records_from(t, 0)),
    decreases s.len() - i,
{
    let st = s + t;
    if i == s.len() {
        lemma_records_shift(s, t, 0);
        match records_from(t, 0) {
            Ok(y) => {
                assert(Seq::<Assignment>::empty() + y =~= y);
            },
            Err(_) => {},
        }
    } else {
        let e = line_end(s, i);
        lemma_first_from(char_in(s, '\n'), i, s.len() as int);
        assert(char_in(s, '\n')(s.len() - 1));
        assert forall|k: int| i <= k < e implies !#[trigger] char_in(st, '\n')(k) by {
            assert(!char_in(s, '\n')(k));
        }
        lemma_first_from_unique(char_in(st, '\n'), i, st.len() as int, e);
        assert(st.subrange(i, e) =~= s.subrange(i, e));
        lemma_records_concat(s, t, e + 1);
        match line_record(s.subrange(i, e)) {
            LineRecord::Record(p) => {
                match records_from(s, e + 1) {
                    Ok(x) => {
                        match records_from(t, 0) {
                            Ok(y) => {
                                assert(seq![p] + (x + y) =~= (seq![p] + x) + y);
                            },
                            Err(_) => {},
                        }
                    },
                    Err(_) => {},
                }
            },
            _ => {},
        }
    }
}

/// Law: the records of a community file made of two texts, the first of
/// whole lines, are the records of the first followed by those of the
/// second; the first malformed line, in order, is the error.
pub proof fn law_records_of_joined_files(s: Seq<char>, t: Seq<char>)
    requires
        s.len() == 0 || s.last() == '\n',
    ensures
        community_records(s + t) == then(community_records(s), community_records(t)),
{
    lemma_records_concat(s, t, 0);
}

/// Law: a blank line anywhere in a community file changes nothing; records
/// go on after it.
pub proof fn law_blank_line_ignored(pre: Seq<char>, post: Seq<char>)
    requires
        pre.len() == 0 || pre.last() == '\n',
    ensures
        community_records(pre + seq!['\n'] + post) == community_records(pre + post),
{
    let nl = seq!['\n'];
    let x = nl + post;
    assert(pre + nl + post =~= pre + x);
    lemma_records_concat(pre, x, 0);
    lemma_records_concat(pre, post, 0);
    assert(char_in(x, '\n')(0));
    lemma_first_from_unique(char_in(x, '\n'), 0, x.len() as int, 0);
    lemma_first_from(non_ws_in(x.subrange(0, 0)), 0, 0);
    assert(line_record(x.subrange(0, 0)) == LineRecord::Skip);
    lemma_records_shift(nl, post, 0);
}

/// A line of a community file that has a node but no label.
#[derive(Debug)]
pub struct MalformedLine {
    /// The line, trimmed.
    pub line: String,
}

impl MalformedLine {
    /// The error's message, quoting the line as `Debug` formats a string.
    pub fn message(&self) -> (m: String)
        ensures
            m@ == "community line needs `node label`: "@ + debug_text(self.line@),
    {
        let q = debug_quote(self.line.as_str());
        proof {
            reveal_strlit("");
        }
        let m = concat3("community line needs `node label`: ", q.as_str(), "");
        assert(m@ =~= "community line needs `node label`: "@ + q@);
        m
    }
}

/// The end of `l[..j]` once trailing whitespace is cut off.
fn trim_end_at(l: &[char], j: usize) -> (r: usize)
    requires
        j <= l@.len(),
    ensures
        r == trim_end(l@, j as int),
{
    let mut k = j;
    while k > 0 && is_whitespace(l[k - 1])
        invariant
            k <= j <= l@.len(),
            trim_end(l@, k as int) == trim_end(l@, j as int),
        decreases k,
    {
        k = k - 1;
    }
    k
}

/// Parses a community file: `node community_label` per line; blank lines and
/// lines whose first non-blank character is `#` are skipped, words after the
/// second are ignored, and a line with a single word is an error.
pub fn parse_assignments(text: &str) -> (r: Result<Vec<(String, String)>, MalformedLine>)
    ensures
        match r {
            Ok(v) => community_records(text@) == Ok::<Seq<Assignment>, Seq<char>>(
                assignments_view(v@),
            ),
            Err(e) => community_records(text@) == Err::<Seq<Assignment>, Seq<char>>(e.line@),
        },
{
    let chars = chars_of(text);
    let s = chars.as_slice();
    let mut out: Vec<(String, String)> = Vec::new();
    let mut pos: usize = 0;
    while pos < s.len()
        invariant
            pos <= s@.len(),
            s@ == text@,
            after(assignments_view(out@), records_from(s@, pos as int)) == community_records(s@),
        decreases s@.len() - pos,
    {
        let e = find_char_at(s, pos, '\n');
        proof {
            lemma_first_from(char_in(s@, '\n'), pos as int, s@.len() as int);
        }
        let line = &s[pos..e];
        let a = skip_whitespace(line, 0);
        let ghost rest = records_from(s@, e + 1);
        if a < line.len() && line[a] != '#' {
            match two_words(line) {
                Some((node, label)) => {
                    proof {
                        assert(line_record(line@) == LineRecord::Record((node@, label@)));
                        assert(assignments_view(out@.push((node, label))) =~= assignments_view(
                            out@,
                        ) + seq![(node@, label@)]);
                        match rest {
                            Ok(r) => {
                                assert(assignments_view(out@) + (seq![(node@, label@)] + r)
                                    =~= assignments_view(out@) + seq![(node@, label@)] + r);
                            },
                            Err(_) => {},
                        }
                    }
                    out.push((node, label));
                },
                None => {
                    let z = trim_end_at(line, line.len());
                    proof {
                        lemma_first_from(non_ws_in(line@), 0, line@.len() as int);
                        lemma_trim_end(line@, line@.len() as int, a as int);
                    }
                    let t = string_of(&line[a..z]);
                    return Err(MalformedLine { line: t });
                },
            }
        }
        if e < s.len() {
            pos = e + 1;
        } else {
            pos = e;
        }
    }
    proof {
        assert(assignments_view(out@) + seq![] =~= assignments_view(out@));
    }
    Ok(out)
}

} // verus!
